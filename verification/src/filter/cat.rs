//! The filter that changes nothing.
use vstd::prelude::*;
use vstd::slice::slice_to_vec;
use crate::filter::{functional, yield_of, Filter, FilterError};

verus! {

/// The filter that hands its input on unchanged.
pub struct Cat;

impl Filter for Cat {
    open spec fn yields(&self, input: Seq<u8>, output: Result<Seq<u8>, FilterError>) -> bool {
        output == Ok::<Seq<u8>, FilterError>(input)
    }

    fn apply(&self, input: &[u8]) -> (r: Result<Vec<u8>, FilterError>) {
        Ok(slice_to_vec(input))
    }
}

/// The pass-through filter answers each input with one output.
pub proof fn lemma_cat_is_a_function()
    ensures
        functional(yield_of(Cat)),
{
}

} // verus!
