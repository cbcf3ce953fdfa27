//! The resolution of a source expression into bytes.
use vstd::prelude::*;
use crate::filter::cat::Cat;
use crate::filter::{functional, output_of, yield_of, Filter, FilterError, FilterMap, Yield};
use crate::parser::{From, SourceExpr};

verus! {

/// A source file as the caller read it.
#[derive(Debug, PartialEq, Eq, Clone)]
pub struct SourceFile {
    /// The path that statements name it by.
    pub path: String,
    /// All of its bytes.
    pub content: Vec<u8>,
    /// When it was last modified, in seconds since the epoch.
    pub mtime: u64,
}

/// What is known of one source file.
pub struct FileData {
    /// All of its bytes.
    pub content: Seq<u8>,
    /// When it was last modified, in seconds since the epoch.
    pub mtime: u64,
}

/// The files that `files` makes readable, by path. Of two with one path the
/// first counts.
pub open spec fn file_map(files: Seq<SourceFile>) -> Map<Seq<char>, FileData>
    decreases files.len(),
{
    if files.len() == 0 {
        Map::empty()
    } else {
        file_map(files.drop_first()).insert(
            files[0].path@,
            FileData { content: files[0].content@, mtime: files[0].mtime },
        )
    }
}

/// The bytes that a source expression came to.
#[derive(Debug, PartialEq, Eq, Clone)]
pub struct Content {
    /// The bytes.
    pub bytes: Vec<u8>,
    /// The modification time of the file they are the unchanged content of;
    /// none where they were written in a rules file or made by a filter.
    pub mtime: Option<u64>,
}

/// The mathematical value of a [`Content`].
pub struct ContentView {
    /// The bytes.
    pub bytes: Seq<u8>,
    /// The modification time of the file they are the unchanged content of;
    /// none where they were written in a rules file or made by a filter.
    pub mtime: Option<u64>,
}

impl View for Content {
    type V = ContentView;

    open spec fn view(&self) -> ContentView {
        ContentView { bytes: self.bytes@, mtime: self.mtime }
    }
}

/// Why a source expression came to no bytes.
#[derive(Debug, PartialEq, Eq, Clone)]
pub enum ResolveError {
    /// The file at this path could not be read.
    Io(String),
    /// A filter failed.
    Filter(FilterError),
}

/// The mathematical value of a [`ResolveError`].
pub enum ResolveFailure {
    /// The file at this path could not be read.
    Io(Seq<char>),
    /// A filter failed.
    Filter(FilterError),
}

impl View for ResolveError {
    type V = ResolveFailure;

    open spec fn view(&self) -> ResolveFailure {
        match self {
            ResolveError::Io(path) => ResolveFailure::Io(path@),
            ResolveError::Filter(e) => ResolveFailure::Filter(*e),
        }
    }
}

/// The value of what resolution returns.
pub open spec fn outcome_of(r: Result<Content, ResolveError>) -> Result<
    ContentView,
    ResolveFailure,
> {
    match r {
        Ok(content) => Ok(content@),
        Err(e) => Err(e@),
    }
}

/// Reading the file at `path`: its content with its modification time, or
/// the failure to read it.
pub open spec fn read(files: Map<Seq<char>, FileData>, path: Seq<char>) -> Result<
    ContentView,
    ResolveFailure,
> {
    if files.contains_key(path) {
        Ok(ContentView { bytes: files[path].content, mtime: Some(files[path].mtime) })
    } else {
        Err(ResolveFailure::Io(path))
    }
}

/// What becomes of the answer `output` of a filter: made bytes, or the
/// filter's failure.
pub open spec fn filtered(output: Result<Seq<u8>, FilterError>) -> Result<
    ContentView,
    ResolveFailure,
> {
    match output {
        Ok(bytes) => Ok(ContentView { bytes, mtime: None }),
        Err(e) => Err(ResolveFailure::Filter(e)),
    }
}

/// Whether a registered filter with the relation `by` may carry the result
/// `inner` of its inner source to `out`: a failure passes through, and bytes
/// become what the filter answers them with.
pub open spec fn follows(
    by: Yield,
    inner: Result<ContentView, ResolveFailure>,
    out: Result<ContentView, ResolveFailure>,
) -> bool {
    match inner {
        Ok(content) => exists|output: Result<Seq<u8>, FilterError>|
            by.admits(content.bytes, output) && out == #[trigger] filtered(output),
        Err(e) => out == Err::<ContentView, ResolveFailure>(e),
    }
}

/// Whether `expr` may resolve to `out` under the registry `filters` and the
/// readable files `files`.
///
/// A literal resolves to its bytes and a file to its content. A filter
/// resolves its inner source first; a registered name then applies its
/// transform, and a name that is not registered leaves the inner result as
/// it is.
pub open spec fn resolves(
    filters: Map<Seq<char>, Yield>,
    files: Map<Seq<char>, FileData>,
    expr: SourceExpr,
    out: Result<ContentView, ResolveFailure>,
) -> bool
    decreases expr,
{
    match expr {
        SourceExpr::Literal(bytes) => out == Ok::<ContentView, ResolveFailure>(
            ContentView { bytes, mtime: None },
        ),
        SourceExpr::File(path) => out == read(files, path),
        SourceExpr::Filter(name, inner) => if filters.contains_key(name) {
            exists|mid: Result<ContentView, ResolveFailure>|
                resolves(filters, files, *inner, mid) && #[trigger] follows(
                    filters[name],
                    mid,
                    out,
                )
        } else {
            resolves(filters, files, *inner, out)
        },
    }
}

/// Looks `path` up in `files`.
pub fn find_file<'a>(files: &'a [SourceFile], path: &String) -> (r: Option<&'a SourceFile>)
    ensures
        match r {
            Some(file) => file_map(files@).contains_key(path@) && file_map(files@)[path@]
                == (FileData { content: file.content@, mtime: file.mtime }),
            None => !file_map(files@).contains_key(path@),
        },
{
    let mut i: usize = 0;
    assert(files@.skip(0) =~= files@);
    while i < files.len()
        invariant
            i <= files.len(),
            file_map(files@).contains_key(path@) == file_map(files@.skip(i as int)).contains_key(
                path@,
            ),
            file_map(files@).contains_key(path@) ==> file_map(files@)[path@] == file_map(
                files@.skip(i as int),
            )[path@],
        decreases files.len() - i,
    {
        assert(files@.skip(i as int).drop_first() =~= files@.skip(i + 1));
        if files[i].path == *path {
            return Some(&files[i]);
        }
        i += 1;
    }
    None
}

/// What becomes of the answer of a filter: made bytes, or the filter's
/// failure.
pub fn carry(output: Result<Vec<u8>, FilterError>) -> (r: Result<Content, ResolveError>)
    ensures
        outcome_of(r) == filtered(output_of(output)),
{
    match output {
        Ok(bytes) => Ok(Content { bytes, mtime: None }),
        Err(e) => Err(ResolveError::Filter(e)),
    }
}

impl<F: Filter> FilterMap<F> {
    /// Resolves `from` into bytes: literals as they stand, files from `files`,
    /// filters from the inside out.
    pub fn reify(&self, from: &From, files: &[SourceFile]) -> (r: Result<Content, ResolveError>)
        ensures
            resolves(self@, file_map(files@), from@, outcome_of(r)),
        decreases from,
    {
        match from {
            From::Literal(bytes) => Ok(Content { bytes: bytes.clone(), mtime: None }),
            From::File(path) => match find_file(files, path) {
                Some(file) => Ok(Content { bytes: file.content.clone(), mtime: Some(file.mtime) }),
                None => Err(ResolveError::Io(path.clone())),
            },
            From::Filter(name, inner) => {
                let mid = self.reify(inner, files);
                match self.get(name.as_str()) {
                    Some(filter) => {
                        let r = match mid {
                            Ok(content) => carry(filter.apply(content.bytes.as_slice())),
                            Err(e) => Err(e),
                        };
                        assert(follows(self@[name@], outcome_of(mid), outcome_of(r)));
                        r
                    },
                    None => mid,
                }
            },
        }
    }
}

/// A filter under a name that is not registered changes nothing: the
/// expression resolves as its inner source does, and no error comes of the
/// name.
pub proof fn lemma_unknown_filter_passes(
    filters: Map<Seq<char>, Yield>,
    files: Map<Seq<char>, FileData>,
    name: Seq<char>,
    inner: SourceExpr,
    out: Result<ContentView, ResolveFailure>,
)
    requires
        !filters.contains_key(name),
    ensures
        resolves(filters, files, SourceExpr::Filter(name, Box::new(inner)), out) == resolves(
            filters,
            files,
            inner,
            out,
        ),
{
}

/// The pass-through filter under a registered name hands the bytes of its
/// inner source on unchanged, as made bytes.
pub proof fn lemma_cat_passes(
    filters: Map<Seq<char>, Yield>,
    files: Map<Seq<char>, FileData>,
    name: Seq<char>,
    inner: SourceExpr,
    bytes: Seq<u8>,
    mtime: Option<u64>,
)
    requires
        filters.contains_key(name),
        filters[name] == yield_of(Cat),
        resolves(filters, files, inner, Ok(ContentView { bytes, mtime })),
    ensures
        resolves(
            filters,
            files,
            SourceExpr::Filter(name, Box::new(inner)),
            Ok(ContentView { bytes, mtime: None }),
        ),
{
    let mid = Ok::<ContentView, ResolveFailure>(ContentView { bytes, mtime });
    let out = Ok::<ContentView, ResolveFailure>(ContentView { bytes, mtime: None });
    assert(out == filtered(Ok(bytes)));
    assert(follows(filters[name], mid, out));
}

/// Resolution is a function where the registered filters are: an expression
/// then resolves to one result at most, so that a result may be kept and used
/// again.
pub proof fn lemma_resolution_is_a_function(
    filters: Map<Seq<char>, Yield>,
    files: Map<Seq<char>, FileData>,
    expr: SourceExpr,
    a: Result<ContentView, ResolveFailure>,
    b: Result<ContentView, ResolveFailure>,
)
    requires
        forall|name: Seq<char>| filters.contains_key(name) ==> functional(#[trigger] filters[name]),
        resolves(filters, files, expr, a),
        resolves(filters, files, expr, b),
    ensures
        a == b,
    decreases expr,
{
    match expr {
        SourceExpr::Filter(name, inner) => {
            if filters.contains_key(name) {
                let by = filters[name];
                let mid_a = choose|mid: Result<ContentView, ResolveFailure>|
                    resolves(filters, files, *inner, mid) && #[trigger] follows(by, mid, a);
                let mid_b = choose|mid: Result<ContentView, ResolveFailure>|
                    resolves(filters, files, *inner, mid) && #[trigger] follows(by, mid, b);
                lemma_resolution_is_a_function(filters, files, *inner, mid_a, mid_b);
                match mid_a {
                    Ok(content) => {
                        let out_a = choose|output: Result<Seq<u8>, FilterError>|
                            by.admits(content.bytes, output) && a == #[trigger] filtered(output);
                        let out_b = choose|output: Result<Seq<u8>, FilterError>|
                            by.admits(content.bytes, output) && b == #[trigger] filtered(output);
                        assert(functional(by));
                        assert(out_a == out_b);
                    },
                    Err(e) => {},
                }
            } else {
                lemma_resolution_is_a_function(filters, files, *inner, a, b);
            }
        },
        _ => {},
    }
}

/// Resolution reads no file but the one that the expression names: where two
/// sets of readable files agree on that one, the expression resolves alike
/// under both.
pub proof fn lemma_resolution_reads_one_file(
    filters: Map<Seq<char>, Yield>,
    files: Map<Seq<char>, FileData>,
    others: Map<Seq<char>, FileData>,
    expr: SourceExpr,
    out: Result<ContentView, ResolveFailure>,
)
    requires
        expr.file() matches Some(path) ==> read(files, path) == read(others, path),
    ensures
        resolves(filters, files, expr, out) == resolves(filters, others, expr, out),
    decreases expr,
{
    match expr {
        SourceExpr::Filter(name, inner) => {
            if filters.contains_key(name) {
                assert forall|mid: Result<ContentView, ResolveFailure>|
                    resolves(filters, files, *inner, mid) == resolves(
                        filters,
                        others,
                        *inner,
                        mid,
                    ) by {
                    lemma_resolution_reads_one_file(filters, files, others, *inner, mid);
                }
                if resolves(filters, files, expr, out) {
                    let mid = choose|mid: Result<ContentView, ResolveFailure>|
                        resolves(filters, files, *inner, mid) && #[trigger] follows(
                            filters[name],
                            mid,
                            out,
                        );
                    assert(resolves(filters, others, *inner, mid));
                }
                if resolves(filters, others, expr, out) {
                    let mid = choose|mid: Result<ContentView, ResolveFailure>|
                        resolves(filters, others, *inner, mid) && #[trigger] follows(
                            filters[name],
                            mid,
                            out,
                        );
                    assert(resolves(filters, files, *inner, mid));
                }
            } else {
                lemma_resolution_reads_one_file(filters, files, others, *inner, out);
            }
        },
        _ => {},
    }
}

} // verus!
