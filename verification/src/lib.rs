//! cfgmk compiles rules files into the entries of one archive.
//!
//! A rules file lists statements, one per line: create or append a path from
//! a literal, from a file, or from a filter applied to another source.
//!
//! - [`parser`] reads rules files into statements; [`parser::grammar`] says
//!   what the language is.
//! - [`filter`] holds the filters and the registry that names them.
//! - [`resolve`] turns the source of a statement into bytes.
//! - [`archive`] applies statements to the content kept for their paths.
//! - [`compile`] does all of it for a set of rules files.
//! - [`host`] picks the variables that templates see, and [`walk`] says
//!   which files of a tree are rules files.
//!
//! The library reads no file and no clock: its callers hand it texts, the
//! content of source files, and the time.
pub mod archive;
pub mod compile;
pub mod filter;
pub mod host;
pub mod parser;
pub mod resolve;
pub mod text;
pub mod walk;

pub use parser::{Directive, From, Stmt};
