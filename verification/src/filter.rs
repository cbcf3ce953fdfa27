//! Filters, and the registry that names them.
use vstd::prelude::*;
use cat::Cat;
use simple::Simple;

pub mod cat;
pub mod simple;
pub mod template;

verus! {

/// Why a filter gave no bytes.
#[derive(Debug, PartialEq, Eq, Structural, Clone, Copy)]
pub enum FilterError {
    /// The input could not be rendered as a template.
    Render,
}

/// The value of what a filter returns.
pub open spec fn output_of(r: Result<Vec<u8>, FilterError>) -> Result<Seq<u8>, FilterError> {
    match r {
        Ok(bytes) => Ok(bytes@),
        Err(e) => Err(e),
    }
}

/// A transform from bytes to bytes.
///
/// What is proved of the library holds for every implementation: one that
/// says nothing of itself is taken to answer any input with anything.
pub trait Filter {
    /// Whether the filter may answer `input` with `output`.
    open spec fn yields(&self, input: Seq<u8>, output: Result<Seq<u8>, FilterError>) -> bool {
        true
    }

    /// Applies the filter to `input`.
    fn apply(&self, input: &[u8]) -> (r: Result<Vec<u8>, FilterError>)
        ensures
            self.yields(input@, output_of(r)),
    ;
}

/// What a filter may answer, as a relation between input and output.
pub struct Yield {
    /// Whether the filter may answer the input with the output.
    pub relation: spec_fn(Seq<u8>, Result<Seq<u8>, FilterError>) -> bool,
}

impl Yield {
    /// Whether the filter may answer `input` with `output`.
    pub open spec fn admits(self, input: Seq<u8>, output: Result<Seq<u8>, FilterError>) -> bool {
        (self.relation)(input, output)
    }
}

/// The relation between the inputs and outputs of `filter`.
pub open spec fn yield_of<F: Filter>(filter: F) -> Yield {
    Yield {
        relation: |input: Seq<u8>, output: Result<Seq<u8>, FilterError>|
            filter.yields(input, output),
    }
}

/// A filter under its name.
struct Named<F: Filter> {
    name: String,
    filter: F,
}

/// No two entries of `entries` have the same name.
spec fn distinct<F: Filter>(entries: Seq<Named<F>>) -> bool {
    forall|i: int, j: int|
        0 <= i < j < entries.len() ==> #[trigger] entries[i].name@ != #[trigger] entries[j].name@
}

/// The mapping from names to transforms that `entries` stands for. Of two
/// entries with one name the later counts.
spec fn mapping<F: Filter>(entries: Seq<Named<F>>) -> Map<Seq<char>, Yield>
    decreases entries.len(),
{
    if entries.len() == 0 {
        Map::empty()
    } else {
        mapping(entries.drop_last()).insert(entries.last().name@, yield_of(entries.last().filter))
    }
}

/// A name that no entry has is not in the mapping.
proof fn lemma_mapping_absent<F: Filter>(entries: Seq<Named<F>>, name: Seq<char>)
    requires
        forall|k: int| 0 <= k < entries.len() ==> (#[trigger] entries[k].name@) != name,
    ensures
        !mapping(entries).contains_key(name),
    decreases entries.len(),
{
    if entries.len() > 0 {
        let front = entries.drop_last();
        assert forall|k: int| 0 <= k < front.len() implies (#[trigger] front[k].name@) != name by {
            assert(entries[k].name@ != name);
        }
        lemma_mapping_absent(front, name);
        assert(entries[entries.len() - 1].name@ != name);
    }
}

/// Where no two entries have one name, the mapping takes the name of an
/// entry to the transform of that entry.
proof fn lemma_mapping_at<F: Filter>(entries: Seq<Named<F>>, i: int)
    requires
        distinct(entries),
        0 <= i < entries.len(),
    ensures
        mapping(entries).contains_key(entries[i].name@),
        mapping(entries)[entries[i].name@] == yield_of(entries[i].filter),
    decreases entries.len(),
{
    let front = entries.drop_last();
    if i < entries.len() - 1 {
        assert(distinct(front)) by {
            assert forall|a: int, b: int| 0 <= a < b < front.len() implies #[trigger] front[a].name@
                != #[trigger] front[b].name@ by {
                assert(entries[a].name@ != entries[b].name@);
            }
        }
        lemma_mapping_at(front, i);
        assert(front[i].name@ == entries[i].name@);
        assert(entries[i].name@ != entries[entries.len() - 1].name@);
    }
}

/// An entry under a new name, added after the others, is inserted into the
/// mapping.
proof fn lemma_mapping_push<F: Filter>(entries: Seq<Named<F>>, named: Named<F>)
    requires
        distinct(entries),
        forall|k: int| 0 <= k < entries.len() ==> (#[trigger] entries[k].name@) != named.name@,
    ensures
        distinct(entries.push(named)),
        mapping(entries.push(named)) == mapping(entries).insert(
            named.name@,
            yield_of(named.filter),
        ),
{
    let after = entries.push(named);
    assert(distinct(after)) by {
        assert forall|i: int, j: int| 0 <= i < j < after.len() implies #[trigger] after[i].name@
            != #[trigger] after[j].name@ by {
            if j == entries.len() {
                assert(entries[i].name@ != named.name@);
            } else {
                assert(entries[i].name@ != entries[j].name@);
            }
        }
    }
    assert(after.drop_last() =~= entries);
}

/// An entry put in place of the entry of its name is inserted into the
/// mapping.
proof fn lemma_mapping_update<F: Filter>(entries: Seq<Named<F>>, k: int, named: Named<F>)
    requires
        distinct(entries),
        0 <= k < entries.len(),
        entries[k].name@ == named.name@,
    ensures
        distinct(entries.update(k, named)),
        mapping(entries.update(k, named)) == mapping(entries).insert(
            named.name@,
            yield_of(named.filter),
        ),
    decreases entries.len(),
{
    let after = entries.update(k, named);
    assert(distinct(after)) by {
        assert forall|i: int, j: int| 0 <= i < j < after.len() implies #[trigger] after[i].name@
            != #[trigger] after[j].name@ by {
            assert(entries[i].name@ != entries[j].name@);
        }
    }
    let front = entries.drop_last();
    let last = entries.last();
    let expected = mapping(entries).insert(named.name@, yield_of(named.filter));
    if k == entries.len() - 1 {
        assert(after.drop_last() =~= front);
        assert(mapping(after) =~= expected);
    } else {
        assert(distinct(front)) by {
            assert forall|a: int, b: int| 0 <= a < b < front.len() implies #[trigger] front[a].name@
                != #[trigger] front[b].name@ by {
                assert(entries[a].name@ != entries[b].name@);
            }
        }
        lemma_mapping_update(front, k, named);
        assert(after.drop_last() =~= front.update(k, named));
        assert(entries[k].name@ != entries[entries.len() - 1].name@);
        assert(mapping(after) =~= expected);
    }
}

/// Looks `name` up in `entries`.
fn find<F: Filter>(entries: &Vec<Named<F>>, name: &str) -> (r: Option<usize>)
    ensures
        match r {
            Some(i) => i < entries.len() && entries[i as int].name@ == name@,
            None => forall|k: int|
                0 <= k < entries.len() ==> (#[trigger] entries[k].name@) != name@,
        },
{
    let key = name.to_owned();
    let mut i: usize = 0;
    while i < entries.len()
        invariant
            i <= entries.len(),
            key@ == name@,
            forall|k: int| 0 <= k < i ==> (#[trigger] entries[k].name@) != name@,
        decreases entries.len() - i,
    {
        if entries[i].name == key {
            return Some(i);
        }
        i += 1;
    }
    None
}

/// Collects filters under their names.
pub struct Builder<F: Filter> {
    map: Vec<Named<F>>,
}

/// A name-to-filter mapping, as built; nothing changes it.
pub struct FilterMap<F: Filter>(Vec<Named<F>>);

impl<F: Filter> View for Builder<F> {
    type V = Map<Seq<char>, Yield>;

    closed spec fn view(&self) -> Map<Seq<char>, Yield> {
        mapping(self.map@)
    }
}

impl<F: Filter> View for FilterMap<F> {
    type V = Map<Seq<char>, Yield>;

    closed spec fn view(&self) -> Map<Seq<char>, Yield> {
        mapping(self.0@)
    }
}

impl<F: Filter> Builder<F> {
    #[verifier::type_invariant]
    spec fn wf(self) -> bool {
        distinct(self.map@)
    }

    /// A registry without filters.
    pub fn new() -> (r: Builder<F>)
        ensures
            r@ == Map::<Seq<char>, Yield>::empty(),
    {
        Builder { map: Vec::new() }
    }

    /// Registers `f` under `name`, in place of what stood there.
    pub fn add(self, name: &str, f: F) -> (r: Builder<F>)
        ensures
            r@ == self@.insert(name@, yield_of(f)),
    {
        proof {
            use_type_invariant(&self);
        }
        let mut map = self.map;
        let named = Named { name: name.to_owned(), filter: f };
        match find(&map, name) {
            Some(i) => {
                proof {
                    lemma_mapping_update(map@, i as int, named);
                }
                map.set(i, named);
            },
            None => {
                proof {
                    lemma_mapping_push(map@, named);
                }
                map.push(named);
            },
        }
        Builder { map }
    }

    /// The registry, closed.
    pub fn finish(self) -> (r: FilterMap<F>)
        ensures
            r@ == self@,
    {
        proof {
            use_type_invariant(&self);
        }
        FilterMap(self.map)
    }
}

impl<F: Filter> FilterMap<F> {
    #[verifier::type_invariant]
    spec fn wf(self) -> bool {
        distinct(self.0@)
    }

    /// The filter registered under `name`.
    pub fn get(&self, name: &str) -> (r: Option<&F>)
        ensures
            match r {
                Some(filter) => self@.contains_key(name@) && self@[name@] == yield_of(*filter),
                None => !self@.contains_key(name@),
            },
    {
        proof {
            use_type_invariant(self);
        }
        match find(&self.0, name) {
            Some(i) => {
                proof {
                    lemma_mapping_at(self.0@, i as int);
                }
                Some(&self.0[i].filter)
            },
            None => {
                proof {
                    lemma_mapping_absent(self.0@, name@);
                }
                None
            },
        }
    }
}

/// One of the two standard filters, so that a registry can hold both.
pub enum Standard {
    /// The filter that changes nothing.
    Cat(Cat),
    /// The templating filter.
    Simple(Simple),
}

impl Filter for Standard {
    open spec fn yields(&self, input: Seq<u8>, output: Result<Seq<u8>, FilterError>) -> bool {
        match self {
            Standard::Cat(cat) => cat.yields(input, output),
            Standard::Simple(simple) => simple.yields(input, output),
        }
    }

    fn apply(&self, input: &[u8]) -> (r: Result<Vec<u8>, FilterError>) {
        match self {
            Standard::Cat(cat) => cat.apply(input),
            Standard::Simple(simple) => simple.apply(input),
        }
    }
}

/// `by` answers each input with one output at most.
pub open spec fn functional(by: Yield) -> bool {
    forall|input: Seq<u8>, a: Result<Seq<u8>, FilterError>, b: Result<Seq<u8>, FilterError>|
        #![trigger by.admits(input, a), by.admits(input, b)]
        by.admits(input, a) && by.admits(input, b) ==> a == b
}

/// Each of the standard filters answers each input with one output.
pub proof fn lemma_standard_is_a_function(filter: Standard)
    ensures
        functional(yield_of(filter)),
{
}

} // verus!
