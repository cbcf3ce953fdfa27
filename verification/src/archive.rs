//! Staging: what each statement does to the content kept for its path, and
//! the entries that come of it.
use vstd::prelude::*;
use core::mem::swap;
use crate::resolve::{Content, ContentView};
use crate::parser::Directive;

verus! {

/// An entry of the archive.
#[derive(Debug, PartialEq, Eq, Clone)]
pub struct Entry {
    /// Where the entry goes, as the statement wrote it.
    pub path: String,
    /// Its bytes.
    pub content: Vec<u8>,
    /// Its modification time, in seconds since the epoch.
    pub mtime: u64,
}

/// The mathematical value of an [`Entry`].
pub struct EntryView {
    /// Where the entry goes, as the statement wrote it.
    pub path: Seq<char>,
    /// Its bytes.
    pub content: Seq<u8>,
    /// Its modification time, in seconds since the epoch.
    pub mtime: u64,
}

impl View for Entry {
    type V = EntryView;

    open spec fn view(&self) -> EntryView {
        EntryView { path: self.path@, content: self.content@, mtime: self.mtime }
    }
}

/// What a build has to say that is no error.
#[derive(Debug, PartialEq, Eq, Clone)]
pub enum Warning {
    /// A statement wrote to this path after another had.
    DuplicatePath(String),
}

impl Warning {
    /// The path that the warning is about.
    pub open spec fn path(&self) -> Seq<char> {
        match self {
            Warning::DuplicatePath(path) => path@,
        }
    }
}

/// The values of the entries of `entries`, in order.
pub open spec fn entries_of(entries: Seq<Entry>) -> Seq<EntryView> {
    entries.map_values(|entry: Entry| entry@)
}

/// The paths that the warnings of `warnings` are about, in order.
pub open spec fn warned_paths(warnings: Seq<Warning>) -> Seq<Seq<char>> {
    warnings.map_values(|warning: Warning| warning.path())
}

/// The entry that `entries` holds for `path`, if it holds one.
pub open spec fn held(entries: Seq<EntryView>, path: Seq<char>) -> Option<EntryView>
    decreases entries.len(),
{
    if entries.len() == 0 {
        None
    } else if entries.last().path == path {
        Some(entries.last())
    } else {
        held(entries.drop_last(), path)
    }
}

/// No two entries of `entries` have the same path.
pub open spec fn distinct_paths(entries: Seq<EntryView>) -> bool {
    forall|i: int, j: int|
        0 <= i < j < entries.len() ==> (#[trigger] entries[i]).path != (#[trigger] entries[j]).path
}

/// The state of a build between two statements.
pub struct Staging {
    /// The content kept for each path, in the order in which the paths were
    /// first written to.
    pub entries: Seq<EntryView>,
    /// The path of each duplicate-path warning given so far, in order.
    pub warnings: Seq<Seq<char>>,
}

impl Staging {
    /// The state before the first statement.
    pub open spec fn empty() -> Staging {
        Staging { entries: Seq::empty(), warnings: Seq::empty() }
    }

    /// The paths written to so far, in the order in which they were first
    /// written to.
    pub open spec fn paths(self) -> Seq<Seq<char>> {
        self.entries.map_values(|entry: EntryView| entry.path)
    }

    /// A statement has written to `path`.
    pub open spec fn seen(self, path: Seq<char>) -> bool {
        exists|i: int| 0 <= i < self.entries.len() && (#[trigger] self.entries[i]).path == path
    }

    /// Each path has one entry.
    pub open spec fn wf(self) -> bool {
        distinct_paths(self.entries)
    }

    /// The state with `entry` in place of the entry of its path, or after the
    /// others where its path has none yet. A path written to before gives a
    /// warning.
    pub open spec fn put(self, entry: EntryView) -> Staging {
        if self.seen(entry.path) {
            Staging {
                entries: self.entries.map_values(
                    |old: EntryView|
                        if old.path == entry.path {
                            entry
                        } else {
                            old
                        },
                ),
                warnings: self.warnings.push(entry.path),
            }
        } else {
            Staging { entries: self.entries.push(entry), warnings: self.warnings }
        }
    }

    /// The entry kept for `path`, if a statement has written to it.
    pub open spec fn entry(self, path: Seq<char>) -> Option<EntryView> {
        held(self.entries, path)
    }

    /// The bytes kept for `path`; none where no statement has written to it.
    pub open spec fn content(self, path: Seq<char>) -> Seq<u8> {
        match self.entry(path) {
            Some(entry) => entry.content,
            None => Seq::empty(),
        }
    }

    /// The entry that a statement of kind `kind` makes for `path`. A create
    /// gives it the new bytes, and the time of the source file where the
    /// bytes are that file's, unchanged, else `now`. An append gives it what
    /// the path held and then the new bytes, and the time `now`.
    pub open spec fn made(
        self,
        kind: Directive,
        path: Seq<char>,
        from: ContentView,
        now: u64,
    ) -> EntryView {
        match kind {
            Directive::Create => EntryView {
                path,
                content: from.bytes,
                mtime: match from.mtime {
                    Some(mtime) => mtime,
                    None => now,
                },
            },
            Directive::Append => EntryView {
                path,
                content: self.content(path) + from.bytes,
                mtime: now,
            },
        }
    }

    /// The state after a statement of kind `kind`: the entry that it makes is
    /// put for its path.
    pub open spec fn apply(
        self,
        kind: Directive,
        path: Seq<char>,
        from: ContentView,
        now: u64,
    ) -> Staging {
        self.put(self.made(kind, path, from, now))
    }

    /// The state after a create: `path` holds the new bytes, whatever it
    /// held.
    pub open spec fn create(self, path: Seq<char>, from: ContentView, now: u64) -> Staging {
        self.apply(Directive::Create, path, from, now)
    }

    /// The state after an append: `path` holds what it held, then the new
    /// bytes.
    pub open spec fn append(self, path: Seq<char>, from: ContentView, now: u64) -> Staging {
        self.apply(Directive::Append, path, from, now)
    }
}

/// No entry is held for a path that no entry has.
proof fn lemma_held_absent(entries: Seq<EntryView>, path: Seq<char>)
    requires
        forall|k: int| 0 <= k < entries.len() ==> (#[trigger] entries[k]).path != path,
    ensures
        held(entries, path) is None,
    decreases entries.len(),
{
    if entries.len() > 0 {
        let front = entries.drop_last();
        assert forall|k: int| 0 <= k < front.len() implies (#[trigger] front[k]).path != path by {
            assert(entries[k].path != path);
        }
        lemma_held_absent(front, path);
        assert(entries[entries.len() - 1].path != path);
    }
}

/// Where no two entries have one path, the entry held for the path of an
/// entry is that entry.
proof fn lemma_held_at(entries: Seq<EntryView>, i: int)
    requires
        distinct_paths(entries),
        0 <= i < entries.len(),
    ensures
        held(entries, entries[i].path) == Some(entries[i]),
    decreases entries.len(),
{
    if i < entries.len() - 1 {
        let front = entries.drop_last();
        assert forall|a: int, b: int| 0 <= a < b < front.len() implies (#[trigger] front[a]).path
            != (#[trigger] front[b]).path by {
            assert(entries[a].path != entries[b].path);
        }
        lemma_held_at(front, i);
        assert(entries[i].path != entries[entries.len() - 1].path);
    }
}

/// Putting an entry for a path that has one at `i` changes that entry and no
/// other.
proof fn lemma_put_seen(s: Staging, i: int, entry: EntryView)
    requires
        s.wf(),
        0 <= i < s.entries.len(),
        s.entries[i].path == entry.path,
    ensures
        s.put(entry) == (Staging {
            entries: s.entries.update(i, entry),
            warnings: s.warnings.push(entry.path),
        }),
        s.put(entry).wf(),
{
    let after = s.entries.update(i, entry);
    assert(s.seen(entry.path));
    assert forall|k: int| 0 <= k < s.entries.len() && k != i implies (#[trigger] s.entries[k]).path
        != entry.path by {
        if k < i {
            assert(s.entries[k].path != s.entries[i].path);
        } else {
            assert(s.entries[i].path != s.entries[k].path);
        }
    }
    assert(s.put(entry).entries =~= after);
    assert forall|a: int, b: int| 0 <= a < b < after.len() implies (#[trigger] after[a]).path != (
    #[trigger] after[b]).path by {
        assert(s.entries[a].path != s.entries[b].path);
    }
}

/// Putting an entry for a path that has none adds it after the others.
proof fn lemma_put_unseen(s: Staging, entry: EntryView)
    requires
        s.wf(),
        forall|k: int| 0 <= k < s.entries.len() ==> (#[trigger] s.entries[k]).path != entry.path,
    ensures
        s.put(entry) == (Staging { entries: s.entries.push(entry), warnings: s.warnings }),
        s.put(entry).wf(),
{
    let after = s.entries.push(entry);
    assert(!s.seen(entry.path));
    assert forall|a: int, b: int| 0 <= a < b < after.len() implies (#[trigger] after[a]).path != (
    #[trigger] after[b]).path by {
        if b == s.entries.len() {
            assert(s.entries[a].path != entry.path);
        } else {
            assert(s.entries[a].path != s.entries[b].path);
        }
    }
}

/// What a statement does to the paths and the warnings: a path written to
/// before keeps its place and gives one warning; a new path comes after the
/// others and gives none. Either way the path then holds one entry.
pub proof fn lemma_apply_paths_and_warnings(
    s: Staging,
    kind: Directive,
    path: Seq<char>,
    from: ContentView,
    now: u64,
)
    requires
        s.wf(),
    ensures
        s.apply(kind, path, from, now).wf(),
        s.apply(kind, path, from, now).seen(path),
        s.seen(path) ==> s.apply(kind, path, from, now).paths() == s.paths() && s.apply(
            kind,
            path,
            from,
            now,
        ).warnings == s.warnings.push(path),
        !s.seen(path) ==> s.apply(kind, path, from, now).paths() == s.paths().push(path)
            && s.apply(kind, path, from, now).warnings == s.warnings,
{
    let entry = s.made(kind, path, from, now);
    let after = s.put(entry);
    assert(after == s.apply(kind, path, from, now));
    if s.seen(path) {
        let i = choose|i: int| 0 <= i < s.entries.len() && (#[trigger] s.entries[i]).path == path;
        lemma_put_seen(s, i, entry);
        assert(after.entries[i].path == path);
        assert(after.paths() =~= s.paths());
    } else {
        lemma_put_unseen(s, entry);
        assert(after.entries[s.entries.len() as int].path == path);
        assert(after.paths() =~= s.paths().push(path));
    }
}

/// What a statement does to the entry of its path: it is the entry that the
/// statement makes. So a create leaves the path with the new bytes, and an
/// append with what it held and then the new bytes.
pub proof fn lemma_apply_entry(
    s: Staging,
    kind: Directive,
    path: Seq<char>,
    from: ContentView,
    now: u64,
)
    requires
        s.wf(),
    ensures
        s.apply(kind, path, from, now).entry(path) == Some(s.made(kind, path, from, now)),
        s.apply(kind, path, from, now).content(path) == match kind {
            Directive::Create => from.bytes,
            Directive::Append => s.content(path) + from.bytes,
        },
{
    let entry = s.made(kind, path, from, now);
    let after = s.put(entry);
    assert(after == s.apply(kind, path, from, now));
    if s.seen(path) {
        let i = choose|i: int| 0 <= i < s.entries.len() && (#[trigger] s.entries[i]).path == path;
        lemma_put_seen(s, i, entry);
        lemma_held_at(after.entries, i);
    } else {
        lemma_put_unseen(s, entry);
        lemma_held_at(after.entries, s.entries.len() as int);
    }
}

/// What a statement does to the entries of the other paths: nothing.
pub proof fn lemma_apply_keeps_others(
    s: Staging,
    kind: Directive,
    path: Seq<char>,
    from: ContentView,
    now: u64,
    other: Seq<char>,
)
    requires
        s.wf(),
        other != path,
    ensures
        s.apply(kind, path, from, now).entry(other) == s.entry(other),
{
    let entry = s.made(kind, path, from, now);
    let after = s.put(entry);
    assert(after == s.apply(kind, path, from, now));
    if s.seen(path) {
        let i = choose|i: int| 0 <= i < s.entries.len() && (#[trigger] s.entries[i]).path == path;
        lemma_put_seen(s, i, entry);
        lemma_held_update_other(s.entries, i, entry, other);
    } else {
        lemma_put_unseen(s, entry);
        assert(after.entries.drop_last() =~= s.entries);
    }
}

/// Duplicate-path warning: of two statements that write to one path, which
/// none had written to, the second gives one warning and the first none,
/// whatever their kinds. The path then holds what the second made of it: its
/// own bytes after a create, those of both in order after an append.
pub proof fn lemma_second_write_warns_once(
    s: Staging,
    path: Seq<char>,
    first: Directive,
    a: ContentView,
    t1: u64,
    second: Directive,
    b: ContentView,
    t2: u64,
)
    requires
        s.wf(),
        !s.seen(path),
    ensures
        s.apply(first, path, a, t1).warnings == s.warnings,
        s.apply(first, path, a, t1).apply(second, path, b, t2).warnings == s.warnings.push(path),
        s.apply(first, path, a, t1).apply(second, path, b, t2).paths() == s.paths().push(path),
        s.apply(first, path, a, t1).apply(second, path, b, t2).content(path) == match second {
            Directive::Create => b.bytes,
            Directive::Append => a.bytes + b.bytes,
        },
{
    let mid = s.apply(first, path, a, t1);
    lemma_apply_paths_and_warnings(s, first, path, a, t1);
    lemma_apply_paths_and_warnings(mid, second, path, b, t2);
    lemma_apply_entry(s, first, path, a, t1);
    lemma_apply_entry(mid, second, path, b, t2);
    assert forall|k: int| 0 <= k < s.entries.len() implies (#[trigger] s.entries[k]).path
        != path by {}
    lemma_held_absent(s.entries, path);
    assert(Seq::<u8>::empty() + a.bytes =~= a.bytes);
}

/// Append accumulation: two appends to a path that none had written to leave
/// one entry for it, after the others, with the bytes of the first and then
/// those of the second.
pub proof fn lemma_appends_accumulate(
    s: Staging,
    path: Seq<char>,
    a: ContentView,
    t1: u64,
    b: ContentView,
    t2: u64,
)
    requires
        s.wf(),
        !s.seen(path),
    ensures
        s.append(path, a, t1).append(path, b, t2).entries == s.entries.push(
            EntryView { path, content: a.bytes + b.bytes, mtime: t2 },
        ),
{
    assert forall|k: int| 0 <= k < s.entries.len() implies (#[trigger] s.entries[k]).path
        != path by {}
    lemma_held_absent(s.entries, path);
    assert(Seq::<u8>::empty() + a.bytes =~= a.bytes);
    let first = EntryView { path, content: a.bytes, mtime: t1 };
    lemma_put_unseen(s, first);
    let mid = s.append(path, a, t1);
    let at = s.entries.len() as int;
    assert(mid.entries[at] == first);
    lemma_held_at(mid.entries, at);
    let second = EntryView { path, content: a.bytes + b.bytes, mtime: t2 };
    lemma_put_seen(mid, at, second);
    assert(mid.entries.update(at, second) =~= s.entries.push(second));
}

/// Changing the entry of one path changes the entry held for no other.
proof fn lemma_held_update_other(
    entries: Seq<EntryView>,
    i: int,
    entry: EntryView,
    other: Seq<char>,
)
    requires
        0 <= i < entries.len(),
        entries[i].path == entry.path,
        other != entry.path,
    ensures
        held(entries.update(i, entry), other) == held(entries, other),
    decreases entries.len(),
{
    let after = entries.update(i, entry);
    if i == entries.len() - 1 {
        assert(after.drop_last() =~= entries.drop_last());
    } else {
        lemma_held_update_other(entries.drop_last(), i, entry, other);
        assert(after.drop_last() =~= entries.drop_last().update(i, entry));
    }
}

/// The time of an entry for a clock that reads `timestamp` seconds since the
/// epoch: the same number, and for a clock set before the epoch that number
/// taken modulo 2^64.
pub open spec fn mtime_of(timestamp: i64) -> u64 {
    if timestamp >= 0 {
        timestamp as u64
    } else {
        (timestamp + 0x1_0000_0000_0000_0000) as u64
    }
}

/// The time of an entry for a clock that reads `timestamp` seconds since the
/// epoch.
pub fn mtime(timestamp: i64) -> (r: u64)
    ensures
        r == mtime_of(timestamp),
{
    if timestamp >= 0 {
        timestamp as u64
    } else {
        let below: u64 = (-(timestamp + 1)) as u64;
        u64::MAX - below
    }
}

/// The state that `entries` and `warnings` stand for.
spec fn staging_of(entries: Seq<Entry>, warnings: Seq<Warning>) -> Staging {
    Staging { entries: entries_of(entries), warnings: warned_paths(warnings) }
}

/// The index of the entry for `path`.
fn find(entries: &Vec<Entry>, path: &String) -> (r: Option<usize>)
    ensures
        match r {
            Some(i) => i < entries.len() && entries[i as int].path@ == path@,
            None => forall|k: int|
                0 <= k < entries.len() ==> (#[trigger] entries[k]).path@ != path@,
        },
{
    let mut i: usize = 0;
    while i < entries.len()
        invariant
            i <= entries.len(),
            forall|k: int| 0 <= k < i ==> (#[trigger] entries[k]).path@ != path@,
        decreases entries.len() - i,
    {
        if entries[i].path == *path {
            return Some(i);
        }
        i += 1;
    }
    None
}

/// Puts `entry` in place of the entry of its path, which is at `at`, or after
/// the others where `at` is none.
fn put(entries: &mut Vec<Entry>, warnings: &mut Vec<Warning>, at: Option<usize>, entry: Entry)
    requires
        staging_of(old(entries)@, old(warnings)@).wf(),
        match at {
            Some(i) => i < old(entries).len() && old(entries)[i as int].path@ == entry.path@,
            None => forall|k: int|
                0 <= k < old(entries).len() ==> (#[trigger] old(entries)[k]).path@ != entry.path@,
        },
    ensures
        staging_of(final(entries)@, final(warnings)@) == staging_of(
            old(entries)@,
            old(warnings)@,
        ).put(entry@),
        staging_of(final(entries)@, final(warnings)@).wf(),
{
    let ghost before = staging_of(entries@, warnings@);
    match at {
        Some(i) => {
            proof {
                lemma_put_seen(before, i as int, entry@);
            }
            warnings.push(Warning::DuplicatePath(entry.path.clone()));
            entries.set(i, entry);
            assert(entries_of(entries@) =~= before.entries.update(i as int, entry@));
            assert(warned_paths(warnings@) =~= before.warnings.push(entry.path@));
        },
        None => {
            proof {
                assert forall|k: int| 0 <= k < before.entries.len() implies (
                #[trigger] before.entries[k]).path != entry.path@ by {
                    assert(entries[k].path@ != entry.path@);
                }
                lemma_put_unseen(before, entry@);
            }
            entries.push(entry);
            assert(entries_of(entries@) =~= before.entries.push(entry@));
        },
    }
}

/// Applies the statements of a build, one after the other, to the content
/// kept for their paths.
pub struct Builder {
    entries: Vec<Entry>,
    warnings: Vec<Warning>,
}

impl View for Builder {
    type V = Staging;

    closed spec fn view(&self) -> Staging {
        staging_of(self.entries@, self.warnings@)
    }
}

impl Builder {
    #[verifier::type_invariant]
    spec fn wf(self) -> bool {
        self@.wf()
    }

    /// A build before its first statement.
    pub fn new() -> (r: Builder)
        ensures
            r@ == Staging::empty(),
            r@.wf(),
    {
        let r = Builder { entries: Vec::new(), warnings: Vec::new() };
        assert(r@.entries =~= Seq::<EntryView>::empty());
        assert(r@.warnings =~= Seq::<Seq<char>>::empty());
        r
    }

    /// Does what a statement of kind `kind` does.
    fn write(&mut self, to: String, kind: Directive, from: Content, now: u64)
        ensures
            final(self)@ == old(self)@.apply(kind, to@, from@, now),
            final(self)@.wf(),
    {
        proof {
            use_type_invariant(&*self);
        }
        let ghost before = self@;
        let mut entries: Vec<Entry> = Vec::new();
        let mut warnings: Vec<Warning> = Vec::new();
        assert(staging_of(entries@, warnings@).wf());
        swap(&mut self.entries, &mut entries);
        swap(&mut self.warnings, &mut warnings);
        assert(staging_of(entries@, warnings@) == before);
        let at = find(&entries, &to);
        let entry = match kind {
            Directive::Create => Entry {
                path: to,
                content: from.bytes,
                mtime: match from.mtime {
                    Some(mtime) => mtime,
                    None => now,
                },
            },
            Directive::Append => {
                let content = match at {
                    Some(i) => {
                        proof {
                            lemma_held_at(before.entries, i as int);
                        }
                        let mut content = entries[i].content.clone();
                        let mut bytes = from.bytes;
                        content.append(&mut bytes);
                        content
                    },
                    None => {
                        proof {
                            assert forall|k: int| 0 <= k < before.entries.len() implies (
                            #[trigger] before.entries[k]).path != to@ by {
                                assert(entries[k].path@ != to@);
                            }
                            lemma_held_absent(before.entries, to@);
                            assert(Seq::<u8>::empty() + from.bytes@ =~= from.bytes@);
                        }
                        from.bytes
                    },
                };
                Entry { path: to, content, mtime: now }
            },
        };
        put(&mut entries, &mut warnings, at, entry);
        swap(&mut self.entries, &mut entries);
        swap(&mut self.warnings, &mut warnings);
    }

    /// Makes `from` the content of `to`, whatever it held. A path written to
    /// before gives a duplicate-path warning.
    pub fn create(&mut self, to: String, from: Content, now: u64)
        ensures
            final(self)@ == old(self)@.create(to@, from@, now),
            final(self)@.wf(),
    {
        self.write(to, Directive::Create, from, now)
    }

    /// Adds `from` to the end of the content of `to`. A path written to before
    /// gives a duplicate-path warning.
    pub fn append(&mut self, to: String, from: Content, now: u64)
        ensures
            final(self)@ == old(self)@.append(to@, from@, now),
            final(self)@.wf(),
    {
        self.write(to, Directive::Append, from, now)
    }

    /// Does what a statement of kind `kind` does.
    pub fn apply(&mut self, kind: Directive, to: String, from: Content, now: u64)
        ensures
            final(self)@ == old(self)@.apply(kind, to@, from@, now),
            final(self)@.wf(),
    {
        self.write(to, kind, from, now)
    }

    /// The warnings given so far, in order.
    pub fn warnings(&self) -> (r: &Vec<Warning>)
        ensures
            warned_paths(r@) == self@.warnings,
    {
        &self.warnings
    }

    /// The entries of the archive: one for each path, in the order in which
    /// the paths were first written to.
    pub fn finish(self) -> (r: Vec<Entry>)
        ensures
            entries_of(r@) == self@.entries,
    {
        self.entries
    }

    /// The entries of the archive, as `finish` gives them, and the warnings.
    pub fn into_parts(self) -> (r: (Vec<Entry>, Vec<Warning>))
        ensures
            entries_of(r.0@) == self@.entries,
            warned_paths(r.1@) == self@.warnings,
    {
        (self.entries, self.warnings)
    }
}

} // verus!
