//! Rules files: the statements that they hold, and the parser that reads
//! them.
//!
//! The language itself is defined in [`grammar`]; the functions here read it
//! and are proved to give what the grammar says.
use vstd::prelude::*;
use vstd::string::StrSliceExecFns;
use crate::filter::{Filter, FilterMap, Yield};
use crate::resolve::{
    file_map, resolves, Content, ContentView, FileData, ResolveError, ResolveFailure, SourceFile,
};
use crate::text::{chars_of, push_char};
use grammar::{
    blanks_end, body_end, collapse, directive_at, gap_end, kw_append, kw_create, kw_filter,
    kw_from, kw_literal, lemma_blanks_end_bounds, lemma_body_end_bounds, lemma_statement_at_bounds,
    line_of, newlines, parse_spec, source_at, starts_with_at, statement_at,
    statements_from, string_at, unescape_spec,
};

pub mod grammar;

verus! {

/// How a statement writes to its path.
#[derive(Debug, PartialEq, Eq, Structural, Clone, Copy)]
pub enum Directive {
    /// Replace whatever the path holds.
    Create,
    /// Add to the end of what the path holds.
    Append,
}

/// A condition on a statement. Reserved: the grammar has no production for
/// it, and the parser makes none.
#[derive(Debug, PartialEq, Eq, Clone)]
pub enum Conditional {
    /// The statement counts for the host of this name only.
    If(String),
}

/// The mathematical value of a [`Conditional`].
pub enum Condition {
    /// The statement counts for the host of this name only.
    If(Seq<char>),
}

impl View for Conditional {
    type V = Condition;

    open spec fn view(&self) -> Condition {
        match self {
            Conditional::If(name) => Condition::If(name@),
        }
    }
}

/// Where the bytes of a statement come from.
#[derive(Debug, PartialEq, Eq)]
pub enum From {
    /// The content of the file at this path.
    File(String),
    /// The filter of this name, applied to the inner source.
    Filter(String, Box<From>),
    /// These bytes.
    Literal(Vec<u8>),
}

/// The mathematical value of a [`From`]: a source expression.
pub enum SourceExpr {
    /// The content of the file at this path.
    File(Seq<char>),
    /// The filter of this name, applied to the inner source.
    Filter(Seq<char>, Box<SourceExpr>),
    /// These bytes.
    Literal(Seq<u8>),
}

impl SourceExpr {
    /// The path of the file that the expression reads: that of the source
    /// that its filters, if any, are applied to, where that is a file.
    pub open spec fn file(self) -> Option<Seq<char>>
        decreases self,
    {
        match self {
            SourceExpr::File(path) => Some(path),
            SourceExpr::Filter(_, inner) => inner.file(),
            SourceExpr::Literal(_) => None,
        }
    }
}

impl From {
    /// The expression that this source stands for.
    pub open spec fn expr(&self) -> SourceExpr
        decreases self,
    {
        match self {
            From::File(path) => SourceExpr::File(path@),
            From::Filter(name, inner) => SourceExpr::Filter(name@, Box::new(inner.expr())),
            From::Literal(bytes) => SourceExpr::Literal(bytes@),
        }
    }

    /// The path of the file that the source reads, if it reads one.
    pub fn file(&self) -> (r: Option<&String>)
        ensures
            match r {
                Some(path) => self@.file() == Some(path@),
                None => self@.file() is None,
            },
        decreases self,
    {
        match self {
            From::File(path) => Some(path),
            From::Filter(_, inner) => inner.file(),
            From::Literal(_) => None,
        }
    }

    /// A copy of this source.
    pub fn duplicate(&self) -> (r: From)
        ensures
            r@ == self@,
        decreases self,
    {
        match self {
            From::File(path) => From::File(path.clone()),
            From::Filter(name, inner) => From::Filter(name.clone(), Box::new(inner.duplicate())),
            From::Literal(bytes) => From::Literal(bytes.clone()),
        }
    }
}

impl View for From {
    type V = SourceExpr;

    open spec fn view(&self) -> SourceExpr {
        self.expr()
    }
}

impl Clone for From {
    fn clone(&self) -> (r: From)
        ensures
            r@ == self@,
    {
        self.duplicate()
    }
}

/// One line of a rules file.
#[derive(Debug, PartialEq, Eq, Clone)]
pub struct Stmt {
    /// The condition under which the statement counts; the parser gives none.
    pub cond: Option<Conditional>,
    /// How the statement writes to its path.
    pub kind: Directive,
    /// The path that it writes to.
    pub path: String,
    /// Where the bytes come from.
    pub from: From,
}

/// The mathematical value of a [`Stmt`].
pub struct Statement {
    /// The condition under which the statement counts.
    pub cond: Option<Condition>,
    /// How the statement writes to its path.
    pub kind: Directive,
    /// The path that it writes to.
    pub path: Seq<char>,
    /// Where the bytes come from.
    pub from: SourceExpr,
}

impl View for Stmt {
    type V = Statement;

    open spec fn view(&self) -> Statement {
        Statement {
            cond: match self.cond {
                Some(cond) => Some(cond@),
                None => None,
            },
            kind: self.kind,
            path: self.path@,
            from: self.from@,
        }
    }
}

/// Why a rules file was not accepted: where its first malformed statement
/// starts.
#[derive(Debug, PartialEq, Eq, Structural, Clone, Copy)]
pub struct ParseError {
    /// The line on which that statement starts, counted from 1.
    pub line: usize,
    /// The index of its first character in the text, counted in characters
    /// from 0.
    pub offset: usize,
}

/// The values of the statements of `v`, in order.
pub open spec fn statements_of(v: Seq<Stmt>) -> Seq<Statement> {
    v.map_values(|stmt: Stmt| stmt@)
}

/// Whether `c` is a blank.
pub fn is_space(c: char) -> (r: bool)
    ensures
        r == grammar::is_space(c),
{
    c == ' ' || c == '\t'
}

/// The index of the first character at or after `pos` that is no blank.
fn skip_blanks(text: &[char], pos: usize) -> (end: usize)
    ensures
        end == blanks_end(text@, pos as int),
{
    let mut i = pos;
    while i < text.len() && is_space(text[i])
        invariant
            pos <= i,
            blanks_end(text@, pos as int) == blanks_end(text@, i as int),
        decreases text.len() - i,
    {
        i += 1;
    }
    i
}

/// Skips the blanks that must stand at `pos`.
fn skip_gap(text: &[char], pos: usize) -> (r: Option<usize>)
    ensures
        match r {
            Some(end) => gap_end(text@, pos as int) == Some(end as int),
            None => gap_end(text@, pos as int) is None,
        },
{
    let end = skip_blanks(text, pos);
    if end > pos {
        Some(end)
    } else {
        None
    }
}

/// Whether `word` stands in `text` at `pos`.
fn keyword_at(text: &[char], pos: usize, word: &[char]) -> (r: bool)
    ensures
        r == starts_with_at(text@, pos as int, word@),
        r ==> pos + word@.len() <= usize::MAX,
{
    if word.len() > text.len() || pos > text.len() - word.len() {
        return false;
    }
    let mut k: usize = 0;
    while k < word.len()
        invariant
            k <= word.len(),
            pos + word.len() <= text.len(),
            text@.subrange(pos as int, pos + k) == word@.take(k as int),
        decreases word.len() - k,
    {
        if text[pos + k] != word[k] {
            assert(text@.subrange(pos as int, pos + word.len())[k as int] != word@[k as int]);
            return false;
        }
        assert(text@.subrange(pos as int, pos + k + 1) =~= text@.subrange(
            pos as int,
            pos + k,
        ).push(text@[pos + k]));
        assert(word@.take(k + 1) =~= word@.take(k as int).push(word@[k as int]));
        k += 1;
    }
    assert(word@.take(k as int) =~= word@);
    true
}

/// Reads on inside a quoted string from `start`, to just past the quote that
/// closes it.
fn scan_body(text: &[char], start: usize, multiline: bool) -> (r: Option<usize>)
    ensures
        match r {
            Some(end) => body_end(text@, start as int, multiline) == Some(end as int),
            None => body_end(text@, start as int, multiline) is None,
        },
{
    let mut i = start;
    loop
        invariant
            start <= i,
            body_end(text@, start as int, multiline) == body_end(text@, i as int, multiline),
        decreases text.len() - i,
    {
        if i >= text.len() {
            return None;
        }
        let c = text[i];
        if c == '\'' {
            if i + 1 < text.len() && text[i + 1] == '\'' {
                i += 2;
            } else {
                return Some(i + 1);
            }
        } else if c == '\n' && !multiline {
            return None;
        } else {
            i += 1;
        }
    }
}

/// The characters of `text` from `lo` to `hi`, with doubled quotes made
/// single.
fn collapse_range(text: &[char], lo: usize, hi: usize) -> (out: String)
    requires
        lo <= hi <= text.len(),
    ensures
        out@ == collapse(text@.subrange(lo as int, hi as int)),
{
    let mut out = String::new();
    let mut i = lo;
    while i < hi
        invariant
            lo <= i <= hi <= text.len(),
            collapse(text@.subrange(lo as int, hi as int)) == out@ + collapse(
                text@.subrange(i as int, hi as int),
            ),
        decreases hi - i,
    {
        let ghost rest = text@.subrange(i as int, hi as int);
        let c = text[i];
        if c == '\'' && i + 1 < hi && text[i + 1] == '\'' {
            assert(rest.subrange(2, rest.len() as int) =~= text@.subrange(i + 2, hi as int));
            push_char(&mut out, '\'');
            i += 2;
        } else {
            assert(rest.subrange(1, rest.len() as int) =~= text@.subrange(i + 1, hi as int));
            push_char(&mut out, c);
            i += 1;
        }
    }
    out
}

/// What a quoted string stands for: `s` without its first and last character,
/// and with each pair of quotes, taken from the left, made one quote. A `s`
/// of fewer than two characters is no quoted string and gives nothing.
pub fn unescape(s: &str) -> (r: Option<String>)
    ensures
        match r {
            Some(out) => s@.len() >= 2 && out@ == unescape_spec(s@),
            None => s@.len() < 2,
        },
{
    let chars = chars_of(s);
    if chars.len() < 2 {
        None
    } else {
        Some(collapse_range(chars.as_slice(), 1, chars.len() - 1))
    }
}

/// Reads the quoted string at `pos`: what it stands for, and the index just
/// past it.
fn parse_string(text: &[char], pos: usize, multiline: bool) -> (r: Option<(String, usize)>)
    ensures
        match r {
            Some((content, end)) => string_at(text@, pos as int, multiline) == Some(
                (content@, end as int),
            ),
            None => string_at(text@, pos as int, multiline) is None,
        },
{
    if pos >= text.len() || text[pos] != '\'' {
        return None;
    }
    match scan_body(text, pos + 1, multiline) {
        Some(end) => {
            proof {
                lemma_body_end_bounds(text@, pos + 1, multiline);
                assert(text@.subrange(pos as int, end as int).subrange(1, end - pos - 1)
                    =~= text@.subrange(pos + 1, end - 1));
            }
            let content = collapse_range(text, pos + 1, end - 1);
            Some((content, end))
        },
        None => None,
    }
}

/// Reads the directive keyword at `pos`.
pub fn parse_kind(text: &[char], pos: usize) -> (r: Option<(Directive, usize)>)
    ensures
        match r {
            Some((kind, end)) => directive_at(text@, pos as int) == Some((kind, end as int)),
            None => directive_at(text@, pos as int) is None,
        },
{
    let create = ['c', 'r', 'e', 'a', 't', 'e'];
    let append = ['a', 'p', 'p', 'e', 'n', 'd'];
    assert(create@ =~= kw_create());
    assert(append@ =~= kw_append());
    if keyword_at(text, pos, create.as_slice()) {
        Some((Directive::Create, pos + 6))
    } else if keyword_at(text, pos, append.as_slice()) {
        Some((Directive::Append, pos + 6))
    } else {
        None
    }
}

/// Reads the source clause at `pos`: the source, and the index just past it.
pub fn parse_from(text: &[char], pos: usize) -> (r: Option<(From, usize)>)
    ensures
        match r {
            Some((from, end)) => source_at(text@, pos as int) == Some((from@, end as int)),
            None => source_at(text@, pos as int) is None,
        },
    decreases text.len() - pos,
{
    let from = ['f', 'r', 'o', 'm'];
    let literal = ['l', 'i', 't', 'e', 'r', 'a', 'l'];
    let filter = ['f', 'i', 'l', 't', 'e', 'r'];
    assert(from@ =~= kw_from());
    assert(literal@ =~= kw_literal());
    assert(filter@ =~= kw_filter());
    if keyword_at(text, pos, from.as_slice()) {
        let start = match skip_gap(text, pos + 4) {
            Some(start) => start,
            None => return None,
        };
        match parse_string(text, start, false) {
            Some((path, end)) => Some((From::File(path), end)),
            None => None,
        }
    } else if keyword_at(text, pos, literal.as_slice()) {
        let start = match skip_gap(text, pos + 7) {
            Some(start) => start,
            None => return None,
        };
        match parse_string(text, start, true) {
            Some((content, end)) => Some((From::Literal(content.as_str().as_bytes_vec()), end)),
            None => None,
        }
    } else if keyword_at(text, pos, filter.as_slice()) {
        let start = match skip_gap(text, pos + 6) {
            Some(start) => start,
            None => return None,
        };
        let (name, after) = match parse_string(text, start, false) {
            Some(found) => found,
            None => return None,
        };
        let inner_start = match skip_gap(text, after) {
            Some(inner_start) => inner_start,
            None => return None,
        };
        proof {
            lemma_body_end_bounds(text@, start + 1, false);
            lemma_blanks_end_bounds(text@, after as int);
        }
        match parse_from(text, inner_start) {
            Some((inner, end)) => Some((From::Filter(name, Box::new(inner)), end)),
            None => None,
        }
    } else {
        None
    }
}

/// Reads the statement at `pos`: the statement, and the index just past the
/// line break that ends it.
pub fn parse_stmt(text: &[char], pos: usize) -> (r: Option<(Stmt, usize)>)
    ensures
        match r {
            Some((stmt, end)) => statement_at(text@, pos as int) == Some((stmt@, end as int)),
            None => statement_at(text@, pos as int) is None,
        },
{
    let (kind, after_kind) = match parse_kind(text, pos) {
        Some(found) => found,
        None => return None,
    };
    let path_start = match skip_gap(text, after_kind) {
        Some(start) => start,
        None => return None,
    };
    let (path, after_path) = match parse_string(text, path_start, false) {
        Some(found) => found,
        None => return None,
    };
    let from_start = match skip_gap(text, after_path) {
        Some(start) => start,
        None => return None,
    };
    let (from, end) = match parse_from(text, from_start) {
        Some(found) => found,
        None => return None,
    };
    if end < text.len() && text[end] == '\n' {
        Some((Stmt { cond: None, kind, path, from }, end + 1))
    } else {
        None
    }
}

/// The line of `text` that index `at` is on, counted from 1.
fn line_at(text: &[char], at: usize) -> (line: usize)
    requires
        at < text.len(),
    ensures
        line == line_of(text@, at as int),
{
    let mut count: usize = 0;
    let mut k: usize = 0;
    assert(text@.take(0) =~= Seq::<char>::empty());
    while k < at
        invariant
            k <= at < text.len(),
            count <= k,
            count == newlines(text@.take(k as int)),
        decreases at - k,
    {
        assert(text@.take(k + 1).drop_last() =~= text@.take(k as int));
        if text[k] == '\n' {
            count += 1;
        }
        k += 1;
    }
    count + 1
}

/// Reads a rules file given as characters.
pub fn parse_chars(text: &[char]) -> (r: Result<Vec<Stmt>, ParseError>)
    ensures
        match r {
            Ok(stmts) => parse_spec(text@) == Ok::<Seq<Statement>, ParseError>(
                statements_of(stmts@),
            ),
            Err(e) => parse_spec(text@) == Err::<Seq<Statement>, ParseError>(e),
        },
{
    let mut stmts: Vec<Stmt> = Vec::new();
    let mut pos: usize = 0;
    assert(statements_of(stmts@) =~= Seq::<Statement>::empty());
    while pos < text.len()
        invariant
            match statements_from(text@, pos as int) {
                Ok(rest) => statements_from(text@, 0) == Ok::<Seq<Statement>, int>(
                    statements_of(stmts@) + rest,
                ),
                Err(at) => statements_from(text@, 0) == Err::<Seq<Statement>, int>(at),
            },
        decreases text.len() - pos,
    {
        match parse_stmt(text, pos) {
            Some((stmt, next)) => {
                proof {
                    lemma_statement_at_bounds(text@, pos as int);
                    assert(statements_of(stmts@.push(stmt)) =~= statements_of(stmts@).push(stmt@));
                    match statements_from(text@, next as int) {
                        Ok(rest) => {
                            assert(statements_of(stmts@) + (seq![stmt@] + rest) =~= statements_of(
                                stmts@,
                            ).push(stmt@) + rest);
                        },
                        Err(at) => {},
                    }
                }
                stmts.push(stmt);
                pos = next;
            },
            None => {
                return Err(ParseError { line: line_at(text, pos), offset: pos });
            },
        }
    }
    assert(statements_of(stmts@) + Seq::<Statement>::empty() =~= statements_of(stmts@));
    Ok(stmts)
}

/// Reads a rules file: its statements in order, or where its first malformed
/// statement starts.
pub fn parse(text: &str) -> (r: Result<Vec<Stmt>, ParseError>)
    ensures
        match r {
            Ok(stmts) => parse_spec(text@) == Ok::<Seq<Statement>, ParseError>(
                statements_of(stmts@),
            ),
            Err(e) => parse_spec(text@) == Err::<Seq<Statement>, ParseError>(e),
        },
{
    let chars = chars_of(text);
    parse_chars(chars.as_slice())
}

/// A statement with its source resolved into bytes.
#[derive(Debug, PartialEq, Eq, Clone)]
pub struct Resolved {
    /// How the statement writes to its path.
    pub kind: Directive,
    /// The path that it writes to.
    pub path: String,
    /// The bytes that it writes.
    pub content: Content,
}

/// The mathematical value of a [`Resolved`].
pub struct ResolvedView {
    /// How the statement writes to its path.
    pub kind: Directive,
    /// The path that it writes to.
    pub path: Seq<char>,
    /// The bytes that it writes.
    pub content: ContentView,
}

impl View for Resolved {
    type V = ResolvedView;

    open spec fn view(&self) -> ResolvedView {
        ResolvedView { kind: self.kind, path: self.path@, content: self.content@ }
    }
}

/// The value of what resolving a statement returns.
pub open spec fn resolved_of(r: Result<Resolved, ResolveError>) -> Result<
    ResolvedView,
    ResolveFailure,
> {
    match r {
        Ok(resolved) => Ok(resolved@),
        Err(e) => Err(e@),
    }
}

/// Whether the statement `stmt` may resolve to `out`: its kind and path stay,
/// and its source resolves to the content, or fails as `out` does.
pub open spec fn resolves_statement(
    filters: Map<Seq<char>, Yield>,
    files: Map<Seq<char>, FileData>,
    stmt: Statement,
    out: Result<ResolvedView, ResolveFailure>,
) -> bool {
    match out {
        Ok(resolved) => resolved.kind == stmt.kind && resolved.path == stmt.path && resolves(
            filters,
            files,
            stmt.from,
            Ok(resolved.content),
        ),
        Err(e) => resolves(filters, files, stmt.from, Err(e)),
    }
}

/// `v` from its last item to its first.
pub open spec fn reversed(v: Seq<Statement>) -> Seq<Statement> {
    Seq::new(v.len(), |i: int| v[v.len() - 1 - i])
}

/// The statements of one rules file, handed out one by one with their sources
/// resolved.
pub struct Rulesfile<'a, F: Filter> {
    /// The registry that resolves the sources.
    f: &'a FilterMap<F>,
    /// The statements not handed out yet, the next one last.
    vec: Vec<Stmt>,
}

impl<'a, F: Filter> View for Rulesfile<'a, F> {
    type V = Seq<Statement>;

    /// The statements not handed out yet, in the order of the file.
    closed spec fn view(&self) -> Seq<Statement> {
        reversed(statements_of(self.vec@))
    }
}

impl<'a, F: Filter> Rulesfile<'a, F> {
    /// The registry that resolves the sources.
    pub closed spec fn filters(&self) -> Map<Seq<char>, Yield> {
        self.f@
    }

    /// Reads the rules file `text`. Its sources will be resolved with `f`.
    pub fn new(f: &'a FilterMap<F>, text: &str) -> (r: Result<Rulesfile<'a, F>, ParseError>)
        ensures
            match r {
                Ok(file) => parse_spec(text@) == Ok::<Seq<Statement>, ParseError>(file@)
                    && file.filters() == f@,
                Err(e) => parse_spec(text@) == Err::<Seq<Statement>, ParseError>(e),
            },
    {
        let mut stmts = match parse(text) {
            Ok(stmts) => stmts,
            Err(e) => return Err(e),
        };
        let ghost parsed = statements_of(stmts@);
        let mut vec: Vec<Stmt> = Vec::new();
        while stmts.len() > 0
            invariant
                stmts.len() + vec.len() == parsed.len(),
                statements_of(stmts@) == parsed.take(stmts.len() as int),
                forall|i: int|
                    0 <= i < vec.len() ==> (#[trigger] vec[i])@ == parsed[parsed.len() - 1 - i],
            decreases stmts.len(),
        {
            let ghost before = stmts@;
            let stmt = stmts.pop().unwrap();
            assert(statements_of(stmts@) =~= parsed.take(stmts.len() as int)) by {
                assert(stmts@ =~= before.drop_last());
                assert forall|i: int| 0 <= i < stmts.len() implies statements_of(stmts@)[i]
                    == parsed[i] by {
                    assert(statements_of(before)[i] == parsed.take(before.len() as int)[i]);
                }
            }
            assert(stmt@ == parsed[stmts.len() as int]) by {
                assert(statements_of(before)[before.len() - 1] == parsed.take(
                    before.len() as int,
                )[before.len() - 1]);
            }
            vec.push(stmt);
        }
        let file = Rulesfile { f, vec };
        assert(file@ =~= parsed);
        Ok(file)
    }

    /// Hands out the next statement of the file, its source resolved with the
    /// registry and the files `files`; nothing once all are handed out.
    pub fn next(&mut self, files: &[SourceFile]) -> (r: Option<Result<Resolved, ResolveError>>)
        ensures
            final(self).filters() == old(self).filters(),
            match r {
                Some(out) => old(self)@.len() > 0 && final(self)@ == old(self)@.drop_first()
                    && resolves_statement(
                    old(self).filters(),
                    file_map(files@),
                    old(self)@[0],
                    resolved_of(out),
                ),
                None => old(self)@.len() == 0 && final(self)@ == old(self)@,
            },
    {
        let ghost before = self.vec@;
        match self.vec.pop() {
            Some(stmt) => {
                assert(self@ =~= reversed(statements_of(before)).drop_first());
                assert(reversed(statements_of(before))[0] == stmt@);
                match self.f.reify(&stmt.from, files) {
                    Ok(content) => Some(Ok(Resolved { kind: stmt.kind, path: stmt.path, content })),
                    Err(e) => Some(Err(e)),
                }
            },
            None => None,
        }
    }
}

} // verus!
