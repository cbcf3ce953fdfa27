//! The whole build: rules files in, the entries of the archive out.
use vstd::prelude::*;
use crate::archive::{
    entries_of, lemma_apply_entry, lemma_apply_keeps_others, lemma_apply_paths_and_warnings,
    warned_paths, Builder, Entry, EntryView, Staging, Warning,
};
use crate::parser::Directive;
use crate::filter::{functional, Filter, FilterMap, Yield};
use crate::resolve::{
    file_map, lemma_resolution_is_a_function, resolves, ContentView, FileData, ResolveError,
    ResolveFailure, SourceFile,
};
use crate::parser::grammar::parse_spec;
use crate::parser::{parse, statements_of, ParseError, Rulesfile, Statement, Stmt};

verus! {

/// A rules file that was left out of the build, and why.
#[derive(Debug, PartialEq, Eq, Structural, Clone, Copy)]
pub struct Diagnostic {
    /// Which of the rules files, counted from 0 in the order given.
    pub file: usize,
    /// Where its first malformed statement starts.
    pub error: ParseError,
}

/// What a build gives.
#[derive(Debug, PartialEq, Eq, Clone)]
pub struct Outcome {
    /// The entries of the archive: one for each path, in the order in which
    /// the paths were first written to.
    pub entries: Vec<Entry>,
    /// The duplicate-path warnings, in order.
    pub warnings: Vec<Warning>,
    /// The rules files that were left out, in order.
    pub diagnostics: Vec<Diagnostic>,
}

/// The mathematical value of an [`Outcome`].
pub struct OutcomeView {
    /// The entries of the archive, in the order in which their paths were
    /// first written to.
    pub entries: Seq<EntryView>,
    /// The path of each duplicate-path warning, in order.
    pub warnings: Seq<Seq<char>>,
    /// The rules files that were left out, in order.
    pub diagnostics: Seq<Diagnostic>,
}

impl View for Outcome {
    type V = OutcomeView;

    open spec fn view(&self) -> OutcomeView {
        OutcomeView {
            entries: entries_of(self.entries@),
            warnings: warned_paths(self.warnings@),
            diagnostics: self.diagnostics@,
        }
    }
}

/// The value of what a build returns.
pub open spec fn built_of(r: Result<Outcome, ResolveError>) -> Result<OutcomeView, ResolveFailure> {
    match r {
        Ok(outcome) => Ok(outcome@),
        Err(e) => Err(e@),
    }
}

/// The texts of `rules`, in order.
pub open spec fn texts_of(rules: Seq<String>) -> Seq<Seq<char>> {
    rules.map_values(|text: String| text@)
}

/// The statements of the well-formed files among `texts`, in the order of the
/// files and, within a file, of its lines. A malformed file gives none.
pub open spec fn accepted(texts: Seq<Seq<char>>) -> Seq<Statement>
    decreases texts.len(),
{
    if texts.len() == 0 {
        Seq::empty()
    } else {
        accepted(texts.drop_last()) + match parse_spec(texts.last()) {
            Ok(stmts) => stmts,
            Err(_) => Seq::empty(),
        }
    }
}

/// The malformed files among `texts`, in order, each with its parse error.
pub open spec fn rejected(texts: Seq<Seq<char>>) -> Seq<Diagnostic>
    decreases texts.len(),
{
    if texts.len() == 0 {
        Seq::empty()
    } else {
        match parse_spec(texts.last()) {
            Ok(_) => rejected(texts.drop_last()),
            Err(error) => rejected(texts.drop_last()).push(
                Diagnostic { file: (texts.len() - 1) as usize, error },
            ),
        }
    }
}

/// The state after the statements `stmts`, applied in order to the empty
/// state, the source of each having resolved to the content at its index in
/// `contents`.
pub open spec fn staged(stmts: Seq<Statement>, contents: Seq<ContentView>, now: u64) -> Staging
    decreases stmts.len(),
{
    if stmts.len() == 0 {
        Staging::empty()
    } else {
        staged(stmts.drop_last(), contents.drop_last(), now).apply(
            stmts.last().kind,
            stmts.last().path,
            contents.last(),
            now,
        )
    }
}

/// Each statement of `stmts` may resolve to the content at its index in
/// `contents`.
pub open spec fn resolve_to(
    filters: Map<Seq<char>, Yield>,
    files: Map<Seq<char>, FileData>,
    stmts: Seq<Statement>,
    contents: Seq<ContentView>,
) -> bool {
    &&& contents.len() == stmts.len()
    &&& forall|i: int|
        0 <= i < stmts.len() ==> resolves(
            filters,
            files,
            (#[trigger] stmts[i]).from,
            Ok(contents[i]),
        )
}

/// The statements of `stmts` before index `at` may all resolve, and the one
/// at `at` may then fail with `failure`.
pub open spec fn fails_at(
    filters: Map<Seq<char>, Yield>,
    files: Map<Seq<char>, FileData>,
    stmts: Seq<Statement>,
    at: int,
    failure: ResolveFailure,
) -> bool {
    &&& 0 <= at < stmts.len()
    &&& resolves(filters, files, stmts[at].from, Err(failure))
    &&& exists|contents: Seq<ContentView>| #[trigger]
        resolve_to(filters, files, stmts.take(at), contents)
}

/// Whether the build of the rules files `texts` may end in `out`.
///
/// A malformed file is left out and gives a diagnostic. The statements of the
/// others are resolved and applied in order. The first source that fails to
/// resolve ends the build with its error, and nothing else comes of it.
pub open spec fn builds(
    filters: Map<Seq<char>, Yield>,
    files: Map<Seq<char>, FileData>,
    texts: Seq<Seq<char>>,
    now: u64,
    out: Result<OutcomeView, ResolveFailure>,
) -> bool {
    match out {
        Ok(outcome) => exists|contents: Seq<ContentView>| #[trigger]
            resolve_to(filters, files, accepted(texts), contents) && outcome == (OutcomeView {
                entries: staged(accepted(texts), contents, now).entries,
                warnings: staged(accepted(texts), contents, now).warnings,
                diagnostics: rejected(texts),
            }),
        Err(failure) => exists|at: int| #[trigger]
            fails_at(filters, files, accepted(texts), at, failure),
    }
}

/// The statements of the files `first` and then `second` are those of the
/// first and then those of the second.
pub proof fn lemma_accepted_concat(first: Seq<Seq<char>>, second: Seq<Seq<char>>)
    ensures
        accepted(first + second) == accepted(first) + accepted(second),
    decreases second.len(),
{
    if second.len() == 0 {
        assert(first + second =~= first);
        assert(accepted(first) + accepted(second) =~= accepted(first));
    } else {
        lemma_accepted_concat(first, second.drop_last());
        assert((first + second).drop_last() =~= first + second.drop_last());
        let own = match parse_spec(second.last()) {
            Ok(stmts) => stmts,
            Err(_) => Seq::empty(),
        };
        assert((accepted(first) + accepted(second.drop_last())) + own =~= accepted(first) + (
        accepted(second.drop_last()) + own));
    }
}

/// Malformed file is skipped, not fatal: a malformed file among `texts` gives
/// a diagnostic with its index and its parse error, and the statements of the
/// build are those of the build without that file.
pub proof fn lemma_malformed_file_is_left_out(texts: Seq<Seq<char>>, at: int)
    requires
        0 <= at < texts.len(),
        parse_spec(texts[at]) is Err,
    ensures
        accepted(texts) == accepted(texts.remove(at)),
        rejected(texts).contains(
            Diagnostic { file: at as usize, error: parse_spec(texts[at])->Err_0 },
        ),
    decreases texts.len(),
{
    let before = texts.take(at);
    let after = texts.skip(at + 1);
    let own = seq![texts[at]];
    assert(texts =~= (before + own) + after);
    assert(texts.remove(at) =~= before + after);
    lemma_accepted_concat(before + own, after);
    lemma_accepted_concat(before, own);
    lemma_accepted_concat(before, after);
    assert(accepted(own) =~= Seq::<Statement>::empty()) by {
        assert(own.drop_last() =~= Seq::<Seq<char>>::empty());
        assert(accepted(own.drop_last()) =~= Seq::<Statement>::empty());
    }
    assert((accepted(before) + accepted(own)) + accepted(after) =~= accepted(before) + accepted(
        after,
    ));
    let diagnostic = Diagnostic { file: at as usize, error: parse_spec(texts[at])->Err_0 };
    if at == texts.len() - 1 {
        let all = rejected(texts);
        assert(all[all.len() - 1] == diagnostic);
    } else {
        lemma_malformed_file_is_left_out(texts.drop_last(), at);
        let fewer = rejected(texts.drop_last());
        let i = choose|i: int| 0 <= i < fewer.len() && fewer[i] == diagnostic;
        assert(rejected(texts)[i] == diagnostic);
    }
}

/// A well-formed file among `texts` gives its statements to the build, in
/// their order, after those of the files before it and before those of the
/// files after it.
pub proof fn lemma_wellformed_file_is_taken(texts: Seq<Seq<char>>, at: int)
    requires
        0 <= at < texts.len(),
        parse_spec(texts[at]) is Ok,
    ensures
        accepted(texts) == accepted(texts.take(at)) + parse_spec(texts[at])->Ok_0 + accepted(
            texts.skip(at + 1),
        ),
{
    let before = texts.take(at);
    let after = texts.skip(at + 1);
    let own = seq![texts[at]];
    assert(texts =~= (before + own) + after);
    lemma_accepted_concat(before + own, after);
    lemma_accepted_concat(before, own);
    assert(accepted(own) =~= parse_spec(texts[at])->Ok_0) by {
        assert(own.drop_last() =~= Seq::<Seq<char>>::empty());
        assert(accepted(own.drop_last()) =~= Seq::<Statement>::empty());
    }
}

/// The paths that the statements `stmts` write to, each once, in the order in
/// which they are first written to.
pub open spec fn first_written(stmts: Seq<Statement>) -> Seq<Seq<char>>
    decreases stmts.len(),
{
    if stmts.len() == 0 {
        Seq::empty()
    } else if first_written(stmts.drop_last()).contains(stmts.last().path) {
        first_written(stmts.drop_last())
    } else {
        first_written(stmts.drop_last()).push(stmts.last().path)
    }
}

/// The path of each statement of `stmts` that writes to a path that an
/// earlier one wrote to, in order.
pub open spec fn written_again(stmts: Seq<Statement>) -> Seq<Seq<char>>
    decreases stmts.len(),
{
    if stmts.len() == 0 {
        Seq::empty()
    } else if first_written(stmts.drop_last()).contains(stmts.last().path) {
        written_again(stmts.drop_last()).push(stmts.last().path)
    } else {
        written_again(stmts.drop_last())
    }
}

/// The entry that `path` holds after the statements `stmts`, the source of
/// each having resolved to the content at its index in `contents`: what the
/// last statement for the path makes of what those before it made. None
/// where no statement writes to the path.
pub open spec fn written(
    stmts: Seq<Statement>,
    contents: Seq<ContentView>,
    now: u64,
    path: Seq<char>,
) -> Option<EntryView>
    decreases stmts.len(),
{
    if stmts.len() == 0 {
        None
    } else if stmts.last().path != path {
        written(stmts.drop_last(), contents.drop_last(), now, path)
    } else {
        Some(
            match stmts.last().kind {
                Directive::Create => EntryView {
                    path,
                    content: contents.last().bytes,
                    mtime: match contents.last().mtime {
                        Some(mtime) => mtime,
                        None => now,
                    },
                },
                Directive::Append => EntryView {
                    path,
                    content: match written(stmts.drop_last(), contents.drop_last(), now, path) {
                        Some(before) => before.content + contents.last().bytes,
                        None => contents.last().bytes,
                    },
                    mtime: now,
                },
            },
        )
    }
}

/// What a build comes to, whatever the sources resolved to: one entry for
/// each path, in the order in which the paths were first written to; one
/// warning for each statement that writes to a path written to before, in
/// order; and for each path the bytes of its last create and of the appends
/// after it, with the time of the source file where a create took a file
/// unchanged and nothing was appended, and the time of the build otherwise.
pub proof fn lemma_staged(
    stmts: Seq<Statement>,
    contents: Seq<ContentView>,
    now: u64,
    path: Seq<char>,
)
    ensures
        staged(stmts, contents, now).wf(),
        staged(stmts, contents, now).paths() == first_written(stmts),
        staged(stmts, contents, now).warnings == written_again(stmts),
        staged(stmts, contents, now).entry(path) == written(stmts, contents, now, path),
    decreases stmts.len(),
{
    if stmts.len() > 0 {
        let before = staged(stmts.drop_last(), contents.drop_last(), now);
        let last = stmts.last();
        lemma_staged(stmts.drop_last(), contents.drop_last(), now, path);
        lemma_apply_paths_and_warnings(before, last.kind, last.path, contents.last(), now);
        assert(before.seen(last.path) == before.paths().contains(last.path)) by {
            if before.seen(last.path) {
                let i = choose|i: int|
                    0 <= i < before.entries.len() && (#[trigger] before.entries[i]).path
                        == last.path;
                assert(before.paths()[i] == last.path);
            }
            if before.paths().contains(last.path) {
                let i = choose|i: int|
                    0 <= i < before.paths().len() && before.paths()[i] == last.path;
                assert(before.entries[i].path == last.path);
            }
        }
        if last.path == path {
            lemma_apply_entry(before, last.kind, last.path, contents.last(), now);
            assert(Seq::<u8>::empty() + contents.last().bytes =~= contents.last().bytes);
        } else {
            lemma_apply_keeps_others(before, last.kind, last.path, contents.last(), now, path);
        }
    } else {
        assert(Staging::empty().paths() =~= Seq::<Seq<char>>::empty());
    }
}

/// A build is a function where the registered filters are: the same rules
/// files, files and time then give one outcome at most.
pub proof fn lemma_build_is_a_function(
    filters: Map<Seq<char>, Yield>,
    files: Map<Seq<char>, FileData>,
    texts: Seq<Seq<char>>,
    now: u64,
    a: Result<OutcomeView, ResolveFailure>,
    b: Result<OutcomeView, ResolveFailure>,
)
    requires
        forall|name: Seq<char>| filters.contains_key(name) ==> functional(#[trigger] filters[name]),
        builds(filters, files, texts, now, a),
        builds(filters, files, texts, now, b),
    ensures
        a == b,
{
    let stmts = accepted(texts);
    match (a, b) {
        (Ok(_), Ok(_)) => {
            let first = choose|contents: Seq<ContentView>| #[trigger]
                resolve_to(filters, files, stmts, contents) && a->Ok_0 == (OutcomeView {
                    entries: staged(stmts, contents, now).entries,
                    warnings: staged(stmts, contents, now).warnings,
                    diagnostics: rejected(texts),
                });
            let second = choose|contents: Seq<ContentView>| #[trigger]
                resolve_to(filters, files, stmts, contents) && b->Ok_0 == (OutcomeView {
                    entries: staged(stmts, contents, now).entries,
                    warnings: staged(stmts, contents, now).warnings,
                    diagnostics: rejected(texts),
                });
            lemma_resolve_to_one(filters, files, stmts, first, second);
        },
        (Err(_), Err(_)) => {
            let i = choose|at: int| #[trigger] fails_at(filters, files, stmts, at, a->Err_0);
            let j = choose|at: int| #[trigger] fails_at(filters, files, stmts, at, b->Err_0);
            lemma_fails_once(filters, files, stmts, i, a->Err_0, j, b->Err_0);
            lemma_fails_once(filters, files, stmts, j, b->Err_0, i, a->Err_0);
            lemma_resolution_is_a_function(
                filters,
                files,
                stmts[i].from,
                Err(a->Err_0),
                Err(b->Err_0),
            );
        },
        (Ok(_), Err(_)) => {
            lemma_ends_one_way(filters, files, texts, now, a, b);
        },
        (Err(_), Ok(_)) => {
            lemma_ends_one_way(filters, files, texts, now, b, a);
        },
    }
}

/// Where the registered filters are functions, statements resolve to one
/// list of contents at most.
proof fn lemma_resolve_to_one(
    filters: Map<Seq<char>, Yield>,
    files: Map<Seq<char>, FileData>,
    stmts: Seq<Statement>,
    first: Seq<ContentView>,
    second: Seq<ContentView>,
)
    requires
        forall|name: Seq<char>| filters.contains_key(name) ==> functional(#[trigger] filters[name]),
        resolve_to(filters, files, stmts, first),
        resolve_to(filters, files, stmts, second),
    ensures
        first == second,
{
    assert forall|i: int| 0 <= i < stmts.len() implies first[i] == second[i] by {
        lemma_resolution_is_a_function(
            filters,
            files,
            stmts[i].from,
            Ok(first[i]),
            Ok(second[i]),
        );
    }
    assert(first =~= second);
}

/// Where the registered filters are functions, a build that fails at one
/// statement fails at no later one.
proof fn lemma_fails_once(
    filters: Map<Seq<char>, Yield>,
    files: Map<Seq<char>, FileData>,
    stmts: Seq<Statement>,
    i: int,
    failure: ResolveFailure,
    j: int,
    other: ResolveFailure,
)
    requires
        forall|name: Seq<char>| filters.contains_key(name) ==> functional(#[trigger] filters[name]),
        fails_at(filters, files, stmts, i, failure),
        fails_at(filters, files, stmts, j, other),
    ensures
        j <= i,
{
    if i < j {
        let contents = choose|contents: Seq<ContentView>| #[trigger]
            resolve_to(filters, files, stmts.take(j), contents);
        assert(stmts.take(j)[i] == stmts[i]);
        lemma_resolution_is_a_function(
            filters,
            files,
            stmts[i].from,
            Err(failure),
            Ok(contents[i]),
        );
    }
}

/// Where the registered filters are functions, a build does not both give an
/// outcome and fail: the two would be one.
proof fn lemma_ends_one_way(
    filters: Map<Seq<char>, Yield>,
    files: Map<Seq<char>, FileData>,
    texts: Seq<Seq<char>>,
    now: u64,
    good: Result<OutcomeView, ResolveFailure>,
    bad: Result<OutcomeView, ResolveFailure>,
)
    requires
        forall|name: Seq<char>| filters.contains_key(name) ==> functional(#[trigger] filters[name]),
        good is Ok,
        bad is Err,
        builds(filters, files, texts, now, good),
        builds(filters, files, texts, now, bad),
    ensures
        good == bad,
{
    let stmts = accepted(texts);
    let contents = choose|contents: Seq<ContentView>| #[trigger]
        resolve_to(filters, files, stmts, contents) && good->Ok_0 == (OutcomeView {
            entries: staged(stmts, contents, now).entries,
            warnings: staged(stmts, contents, now).warnings,
            diagnostics: rejected(texts),
        });
    let at = choose|at: int| #[trigger] fails_at(filters, files, stmts, at, bad->Err_0);
    lemma_resolution_is_a_function(
        filters,
        files,
        stmts[at].from,
        Err(bad->Err_0),
        Ok(contents[at]),
    );
}

/// The statements accepted from the first files of a build stay where they
/// are when more files follow.
proof fn lemma_accepted_prefix(texts: Seq<Seq<char>>, n: int)
    requires
        0 <= n <= texts.len(),
    ensures
        accepted(texts.take(n)).len() <= accepted(texts).len(),
        accepted(texts).take(accepted(texts.take(n)).len() as int) == accepted(texts.take(n)),
{
    assert(texts =~= texts.take(n) + texts.skip(n));
    lemma_accepted_concat(texts.take(n), texts.skip(n));
    let first = accepted(texts.take(n));
    assert((first + accepted(texts.skip(n))).take(first.len() as int) =~= first);
}

/// Some statement of `stmts` reads the file at `path`.
pub open spec fn reads(stmts: Seq<Statement>, path: Seq<char>) -> bool {
    exists|i: int| 0 <= i < stmts.len() && (#[trigger] stmts[i]).from.file() == Some(path)
}

/// `found`, and after it the path of the file that `stmt` reads, if it reads
/// one and `found` does not hold it.
pub open spec fn with_source(found: Seq<Seq<char>>, stmt: Statement) -> Seq<Seq<char>> {
    match stmt.from.file() {
        Some(path) => if found.contains(path) {
            found
        } else {
            found.push(path)
        },
        None => found,
    }
}

/// The paths of the files that the statements `stmts` read, each once, in the
/// order in which they are first read.
pub open spec fn first_read(stmts: Seq<Statement>) -> Seq<Seq<char>>
    decreases stmts.len(),
{
    if stmts.len() == 0 {
        Seq::empty()
    } else {
        with_source(first_read(stmts.drop_last()), stmts.last())
    }
}

/// The texts of `paths`, in order.
pub open spec fn paths_of(paths: Seq<String>) -> Seq<Seq<char>> {
    paths.map_values(|path: String| path@)
}

/// The files first read are the files read, each once.
pub proof fn lemma_first_read(stmts: Seq<Statement>, path: Seq<char>)
    ensures
        first_read(stmts).no_duplicates(),
        first_read(stmts).contains(path) <==> reads(stmts, path),
    decreases stmts.len(),
{
    if stmts.len() > 0 {
        let before = stmts.drop_last();
        let found = first_read(before);
        let last = stmts.last();
        lemma_first_read(before, path);
        assert(stmts =~= before.push(last));
        if reads(before, path) {
            let k = choose|k: int|
                0 <= k < before.len() && (#[trigger] before[k]).from.file() == Some(path);
            assert(stmts[k] == before[k]);
        }
        if reads(stmts, path) {
            let k = choose|k: int|
                0 <= k < stmts.len() && (#[trigger] stmts[k]).from.file() == Some(path);
            if k < before.len() {
                assert(before[k] == stmts[k]);
            }
        }
        match last.from.file() {
            Some(own) => {
                if !found.contains(own) {
                    let more = found.push(own);
                    assert(more[found.len() as int] == own);
                    if found.contains(path) {
                        let j = choose|j: int| 0 <= j < found.len() && found[j] == path;
                        assert(more[j] == path);
                    }
                    assert forall|i: int, j: int| 0 <= i < j < more.len() implies more[i]
                        != more[j] by {
                        if j == found.len() {
                            assert(found[i] == more[i]);
                        }
                    }
                }
            },
            None => {},
        }
    }
}

/// Whether `found` holds `path`.
fn holds(found: &Vec<String>, path: &String) -> (r: bool)
    ensures
        r == paths_of(found@).contains(path@),
{
    let mut k: usize = 0;
    while k < found.len()
        invariant
            k <= found.len(),
            forall|j: int| 0 <= j < k ==> (#[trigger] paths_of(found@)[j]) != path@,
        decreases found.len() - k,
    {
        assert(paths_of(found@)[k as int] == found[k as int]@);
        if found[k] == *path {
            return true;
        }
        k += 1;
    }
    false
}

/// Adds to `found` the path of the file that `stmt` reads, if it reads one
/// and `found` does not hold it.
fn add_source(found: &mut Vec<String>, stmt: &Stmt)
    ensures
        paths_of(final(found)@) == with_source(paths_of(old(found)@), stmt@),
{
    let ghost before = paths_of(found@);
    match stmt.from.file() {
        Some(path) => {
            if !holds(found, path) {
                found.push(path.clone());
                assert(paths_of(found@) =~= before.push(path@));
            }
        },
        None => {},
    }
}

/// The paths of the source files that a build of the rules files `rules`
/// reads, each once, in the order in which its statements first read them:
/// what the caller has to make readable.
pub fn sources(rules: &[String]) -> (r: Vec<String>)
    ensures
        paths_of(r@) == first_read(accepted(texts_of(rules@))),
{
    let ghost texts = texts_of(rules@);
    let mut found: Vec<String> = Vec::new();
    let mut t: usize = 0;
    assert(texts.take(0) =~= Seq::<Seq<char>>::empty());
    assert(paths_of(found@) =~= Seq::<Seq<char>>::empty());
    while t < rules.len()
        invariant
            t <= rules.len(),
            texts == texts_of(rules@),
            paths_of(found@) == first_read(accepted(texts.take(t as int))),
        decreases rules.len() - t,
    {
        let ghost before = accepted(texts.take(t as int));
        proof {
            assert(texts.take(t + 1).drop_last() =~= texts.take(t as int));
            assert(texts.take(t + 1).last() == rules[t as int]@);
        }
        match parse(rules[t].as_str()) {
            Ok(stmts) => {
                let ghost own = statements_of(stmts@);
                let mut i: usize = 0;
                assert(before + own.take(0) =~= before);
                while i < stmts.len()
                    invariant
                        i <= stmts.len(),
                        own == statements_of(stmts@),
                        paths_of(found@) == first_read(before + own.take(i as int)),
                    decreases stmts.len() - i,
                {
                    proof {
                        let next = before + own.take(i + 1);
                        assert(next.drop_last() =~= before + own.take(i as int));
                        assert(next.last() == stmts[i as int]@);
                    }
                    add_source(&mut found, &stmts[i]);
                    i += 1;
                }
                assert(own.take(stmts.len() as int) =~= own);
            },
            Err(_) => {
                assert(before + Seq::<Statement>::empty() =~= before);
            },
        }
        t += 1;
    }
    assert(texts.take(rules.len() as int) =~= texts);
    found
}

/// Builds the archive of the rules files `rules`: parses each, resolves the
/// sources of its statements with `filters` and `files`, and applies the
/// statements in order. Content that is not a source file's, unchanged, gets
/// the time `now`.
pub fn compile<F: Filter>(
    rules: &[String],
    filters: &FilterMap<F>,
    files: &[SourceFile],
    now: u64,
) -> (r: Result<Outcome, ResolveError>)
    ensures
        builds(filters@, file_map(files@), texts_of(rules@), now, built_of(r)),
{
    let ghost texts = texts_of(rules@);
    let ghost all = accepted(texts);
    let mut builder = Builder::new();
    let mut diagnostics: Vec<Diagnostic> = Vec::new();
    let ghost mut contents: Seq<ContentView> = Seq::empty();
    let mut t: usize = 0;
    assert(texts.take(0) =~= Seq::<Seq<char>>::empty());
    while t < rules.len()
        invariant
            t <= rules.len(),
            texts == texts_of(rules@),
            all == accepted(texts),
            resolve_to(filters@, file_map(files@), accepted(texts.take(t as int)), contents),
            builder@ == staged(accepted(texts.take(t as int)), contents, now),
            diagnostics@ == rejected(texts.take(t as int)),
        decreases rules.len() - t,
    {
        let ghost before = accepted(texts.take(t as int));
        proof {
            assert(texts.take(t + 1).drop_last() =~= texts.take(t as int));
            assert(texts.take(t + 1).last() == rules[t as int]@);
            lemma_accepted_prefix(texts, t + 1);
        }
        match Rulesfile::new(filters, rules[t].as_str()) {
            Ok(mut file) => {
                let ghost parsed = file@;
                let ghost mut taken: int = 0;
                assert(parsed.take(0) =~= Seq::<Statement>::empty());
                assert(before + parsed.take(0) =~= before);
                assert(parsed.skip(0) =~= parsed);
                loop
                    invariant
                        0 <= taken <= parsed.len(),
                        file@ == parsed.skip(taken),
                        file.filters() == filters@,
                        texts == texts_of(rules@),
                        all == accepted(texts),
                        accepted(texts.take(t + 1)) == before + parsed,
                        accepted(texts.take(t + 1)).len() <= all.len(),
                        all.take(accepted(texts.take(t + 1)).len() as int) == accepted(
                            texts.take(t + 1),
                        ),
                        resolve_to(
                            filters@,
                            file_map(files@),
                            before + parsed.take(taken),
                            contents,
                        ),
                        builder@ == staged(before + parsed.take(taken), contents, now),
                    ensures
                        taken == parsed.len(),
                    decreases parsed.len() - taken,
                {
                    let ghost done = before + parsed.take(taken);
                    match file.next(files) {
                        Some(Ok(item)) => {
                            let ghost stmt = parsed[taken];
                            proof {
                                assert(parsed.skip(taken)[0] == stmt);
                                assert(parsed.skip(taken).drop_first() =~= parsed.skip(taken + 1));
                                assert(before + parsed.take(taken + 1) =~= done.push(stmt));
                                assert(done.push(stmt).drop_last() =~= done);
                                assert(contents.push(item.content@).drop_last() =~= contents);
                                assert forall|i: int|
                                    0 <= i < done.push(stmt).len() implies resolves(
                                    filters@,
                                    file_map(files@),
                                    (#[trigger] done.push(stmt)[i]).from,
                                    Ok(contents.push(item.content@)[i]),
                                ) by {
                                    if i < done.len() {
                                        assert(done[i] == done.push(stmt)[i]);
                                    }
                                }
                                contents = contents.push(item.content@);
                                taken = taken + 1;
                            }
                            builder.apply(item.kind, item.path, item.content, now);
                        },
                        Some(Err(e)) => {
                            proof {
                                let at = done.len() as int;
                                let whole = before + parsed;
                                assert(parsed.skip(taken)[0] == parsed[taken]);
                                assert(whole[at] == parsed[taken]);
                                assert(all.take(whole.len() as int)[at] == whole[at]);
                                assert(all.take(at) =~= done) by {
                                    assert(all.take(whole.len() as int).take(at) =~= all.take(at));
                                    assert(whole.take(at) =~= done);
                                }
                                assert(fails_at(filters@, file_map(files@), all, at, e@));
                            }
                            return Err(e);
                        },
                        None => {
                            proof {
                                assert(parsed.skip(taken).len() == 0);
                            }
                            break ;
                        },
                    }
                }
                proof {
                    assert(parsed.take(taken) =~= parsed);
                }
            },
            Err(error) => {
                proof {
                    assert(before + Seq::<Statement>::empty() =~= before);
                }
                diagnostics.push(Diagnostic { file: t, error });
            },
        }
        t += 1;
    }
    assert(texts.take(rules.len() as int) =~= texts);
    let (entries, warnings) = builder.into_parts();
    Ok(Outcome { entries, warnings, diagnostics })
}

} // verus!
