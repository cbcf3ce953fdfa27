//! The templating filter: its input is a template, rendered against a fixed
//! set of variables.
use vstd::prelude::*;
use vstd::string::StrSliceExecFns;
use vstd::utf8::{decode_utf8, encode_utf8, valid_utf8};
use vstd::utf8::encode_utf8_decode_utf8;
use crate::filter::template::{
    all_bound, bound, is_plain, lemma_bound_by_nothing, plain, render, rendered_text,
};
use crate::filter::{functional, output_of, yield_of, Filter, FilterError};
use crate::text::{chars_of, utf8_str};

verus! {

/// What becomes of the answer `out` of the template engine: the bytes of the
/// rendered text, or a render failure where it gave none.
pub open spec fn rendered(out: Option<String>) -> Result<Seq<u8>, FilterError> {
    match out {
        Some(text) => Ok(encode_utf8(text@)),
        None => Err(FilterError::Render),
    }
}

/// What becomes of the answer of the template engine: the bytes of the
/// rendered text, or a render failure where it gave none.
pub fn finish_render(out: Option<String>) -> (r: Result<Vec<u8>, FilterError>)
    ensures
        output_of(r) == rendered(out),
{
    match out {
        Some(text) => Ok(text.as_str().as_bytes_vec()),
        None => Err(FilterError::Render),
    }
}

/// `base` with the pairs of `pairs` bound onto it in order: of two pairs with
/// one name the later counts, and a pair counts over what `base` holds.
pub open spec fn onto(base: Map<Seq<char>, Seq<char>>, pairs: Seq<(String, String)>) -> Map<
    Seq<char>,
    Seq<char>,
>
    decreases pairs.len(),
{
    if pairs.len() == 0 {
        base
    } else {
        onto(base, pairs.drop_last()).insert(pairs.last().0@, pairs.last().1@)
    }
}

/// The variables that `pairs` binds.
pub open spec fn bindings(pairs: Seq<(String, String)>) -> Map<Seq<char>, Seq<char>> {
    onto(Map::empty(), pairs)
}

/// No two pairs of `pairs` have the same name.
pub open spec fn distinct(pairs: Seq<(String, String)>) -> bool {
    forall|i: int, j: int|
        0 <= i < j < pairs.len() ==> (#[trigger] pairs[i]).0@ != (#[trigger] pairs[j]).0@
}

/// A pair bound after the others is inserted into what they bind.
proof fn lemma_onto_push(
    base: Map<Seq<char>, Seq<char>>,
    pairs: Seq<(String, String)>,
    pair: (String, String),
)
    ensures
        onto(base, pairs.push(pair)) == onto(base, pairs).insert(pair.0@, pair.1@),
{
    assert(pairs.push(pair).drop_last() =~= pairs);
}

/// A pair put in place of the pair of its name is inserted into what the
/// pairs bind.
proof fn lemma_bindings_update(pairs: Seq<(String, String)>, k: int, pair: (String, String))
    requires
        distinct(pairs),
        0 <= k < pairs.len(),
        pairs[k].0@ == pair.0@,
    ensures
        distinct(pairs.update(k, pair)),
        bindings(pairs.update(k, pair)) == bindings(pairs).insert(pair.0@, pair.1@),
    decreases pairs.len(),
{
    let after = pairs.update(k, pair);
    assert(distinct(after)) by {
        assert forall|i: int, j: int| 0 <= i < j < after.len() implies (#[trigger] after[i]).0@
            != (#[trigger] after[j]).0@ by {
            assert(pairs[i].0@ != pairs[j].0@);
        }
    }
    let front = pairs.drop_last();
    let expected = bindings(pairs).insert(pair.0@, pair.1@);
    if k == pairs.len() - 1 {
        assert(after.drop_last() =~= front);
        assert(bindings(after) =~= expected);
    } else {
        assert(distinct(front)) by {
            assert forall|a: int, b: int| 0 <= a < b < front.len() implies (#[trigger] front[a]).0@
                != (#[trigger] front[b]).0@ by {
                assert(pairs[a].0@ != pairs[b].0@);
            }
        }
        lemma_bindings_update(front, k, pair);
        assert(after.drop_last() =~= front.update(k, pair));
        assert(pairs[k].0@ != pairs[pairs.len() - 1].0@);
        assert(bindings(after) =~= expected);
    }
}

/// Binding in two steps is binding in one: the pairs of `first` and then
/// those of `second`, bound onto `base`, give what the pairs of both in that
/// order give.
pub proof fn lemma_onto_concat(
    base: Map<Seq<char>, Seq<char>>,
    first: Seq<(String, String)>,
    second: Seq<(String, String)>,
)
    ensures
        onto(onto(base, first), second) == onto(base, first + second),
    decreases second.len(),
{
    if second.len() == 0 {
        assert(first + second =~= first);
    } else {
        lemma_onto_concat(base, first, second.drop_last());
        assert((first + second).drop_last() =~= first + second.drop_last());
    }
}

/// Binds `name` to `value` in `vars`, in place of what it was bound to.
fn bind(vars: &mut Vec<(String, String)>, name: &String, value: &String)
    requires
        distinct(old(vars)@),
    ensures
        distinct(final(vars)@),
        bindings(final(vars)@) == bindings(old(vars)@).insert(name@, value@),
{
    let mut i: usize = 0;
    while i < vars.len()
        invariant
            i <= vars.len(),
            vars@ == old(vars)@,
            distinct(vars@),
            forall|k: int| 0 <= k < i ==> (#[trigger] vars[k]).0@ != name@,
        decreases vars.len() - i,
    {
        if vars[i].0 == *name {
            proof {
                lemma_bindings_update(vars@, i as int, (*name, *value));
            }
            vars.set(i, (name.clone(), value.clone()));
            return ;
        }
        i += 1;
    }
    proof {
        lemma_onto_push(Map::empty(), vars@, (*name, *value));
        let after = vars@.push((*name, *value));
        assert forall|a: int, b: int| 0 <= a < b < after.len() implies (#[trigger] after[a]).0@
            != (#[trigger] after[b]).0@ by {
            if b == vars@.len() {
                assert(vars[a].0@ != name@);
            } else {
                assert(vars[a].0@ != vars[b].0@);
            }
        }
    }
    vars.push((name.clone(), value.clone()));
}

/// Collects the variables of a templating filter.
pub struct Builder {
    map: Vec<(String, String)>,
}

impl View for Builder {
    type V = Map<Seq<char>, Seq<char>>;

    closed spec fn view(&self) -> Map<Seq<char>, Seq<char>> {
        bindings(self.map@)
    }
}

impl Builder {
    #[verifier::type_invariant]
    spec fn wf(self) -> bool {
        distinct(self.map@)
    }

    /// A builder without variables.
    pub fn new() -> (r: Builder)
        ensures
            r@ == Map::<Seq<char>, Seq<char>>::empty(),
    {
        Builder { map: Vec::new() }
    }

    /// Binds the pairs of `m`, in order, onto the variables collected so far.
    pub fn mapper(self, m: &Vec<(String, String)>) -> (r: Builder)
        ensures
            r@ == onto(self@, m@),
    {
        proof {
            use_type_invariant(&self);
        }
        let mut map = self.map;
        let mut i: usize = 0;
        assert(m@.take(0) =~= Seq::<(String, String)>::empty());
        while i < m.len()
            invariant
                i <= m.len(),
                distinct(map@),
                bindings(map@) == onto(self@, m@.take(i as int)),
            decreases m.len() - i,
        {
            assert(m@.take(i + 1).drop_last() =~= m@.take(i as int));
            bind(&mut map, &m[i].0, &m[i].1);
            i += 1;
        }
        assert(m@.take(m.len() as int) =~= m@);
        Builder { map }
    }

    /// The filter that renders its input against the variables collected.
    pub fn finish(self) -> (r: Simple)
        ensures
            r.bound() == self@,
    {
        proof {
            use_type_invariant(&self);
        }
        Simple { vars: self.map }
    }
}

/// What the templating filter over the variables `vars` answers `input`
/// with. Input that is the UTF-8 of a plain template, all of whose
/// placeholders name variables that are bound, gives the UTF-8 of the
/// rendered text, or a render failure where the template engine reports an
/// error. Any other input gives a render failure.
pub open spec fn answer(vars: Map<Seq<char>, Seq<char>>, input: Seq<u8>) -> Result<
    Seq<u8>,
    FilterError,
> {
    if valid_utf8(input) && plain(decode_utf8(input)) && bound(vars, decode_utf8(input)) {
        match rendered_text(decode_utf8(input), vars) {
            Some(text) => Ok(encode_utf8(text)),
            None => Err(FilterError::Render),
        }
    } else {
        Err(FilterError::Render)
    }
}

/// The templating filter.
pub struct Simple {
    /// The variables, each name once.
    vars: Vec<(String, String)>,
}

impl Simple {
    #[verifier::type_invariant]
    spec fn wf(self) -> bool {
        distinct(self.vars@)
    }

    /// The variables that templates are rendered against.
    pub closed spec fn bound(&self) -> Map<Seq<char>, Seq<char>> {
        bindings(self.vars@)
    }
}

impl Filter for Simple {
    open spec fn yields(&self, input: Seq<u8>, output: Result<Seq<u8>, FilterError>) -> bool {
        output == answer(self.bound(), input)
    }

    fn apply(&self, input: &[u8]) -> (r: Result<Vec<u8>, FilterError>) {
        proof {
            use_type_invariant(self);
        }
        match utf8_str(input) {
            Some(template) => {
                proof {
                    encode_utf8_decode_utf8(template@);
                }
                let chars = chars_of(template);
                if is_plain(chars.as_slice()) && all_bound(chars.as_slice(), &self.vars) {
                    finish_render(render(template, &self.vars))
                } else {
                    Err(FilterError::Render)
                }
            },
            None => Err(FilterError::Render),
        }
    }
}

/// A template that names a variable that is not bound fails: whatever the
/// variables and the input, where the input is the UTF-8 of a plain template
/// with a placeholder whose name `vars` does not bind, the answer is a
/// render failure, and no bytes.
pub proof fn lemma_unbound_name_fails(vars: Map<Seq<char>, Seq<char>>, input: Seq<u8>)
    requires
        valid_utf8(input),
        plain(decode_utf8(input)),
        !bound(vars, decode_utf8(input)),
    ensures
        answer(vars, input) == Err::<Seq<u8>, FilterError>(FilterError::Render),
{
}

/// With no variables, a plain template that holds a placeholder fails with a
/// render failure, and gives no bytes.
pub proof fn lemma_no_variables_placeholder_fails(input: Seq<u8>, at: int)
    requires
        valid_utf8(input),
        plain(decode_utf8(input)),
        0 <= at,
        at + 1 < decode_utf8(input).len(),
        decode_utf8(input)[at] == '{',
        decode_utf8(input)[at + 1] == '{',
    ensures
        answer(Map::empty(), input) == Err::<Seq<u8>, FilterError>(FilterError::Render),
{
    if bound(Map::empty(), decode_utf8(input)) {
        lemma_bound_by_nothing(decode_utf8(input), 0, at);
    }
}

/// The templating filter answers each input with one output.
pub proof fn lemma_simple_is_a_function(filter: Simple)
    ensures
        functional(yield_of(filter)),
{
}

} // verus!
