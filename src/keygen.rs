//! Random keys: sequences of symbols drawn uniformly from the alphabet.

use vstd::prelude::*;
use rand::Rng;
use crate::alphabet::{is_symbol, convert_to_char};
use crate::message::push_char;

verus! {

/// Relies on `rand::thread_rng` and `Rng::gen_range`: a value drawn from `0..bound`.
#[verifier::external_body]
fn random_below(bound: u8) -> (r: u8)
    requires
        bound > 0,
    ensures
        r < bound,
{
    rand::thread_rng().gen_range(0..bound)
}

/// A key of `length` symbols; each is the symbol of a value drawn from 0..26,
/// so that each of the 27 symbols comes with the same chance.
pub fn generate_key(length: usize) -> (r: String)
    ensures
        r@.len() == length,
        forall|i: int| 0 <= i < length ==> is_symbol(#[trigger] r@[i]),
{
    let mut r = String::new();
    let mut i: usize = 0;
    while i < length
        invariant
            i <= length,
            r@.len() == i,
            forall|j: int| 0 <= j < i ==> is_symbol(#[trigger] r@[j]),
        decreases length - i,
    {
        let v = random_below(27);
        let c = convert_to_char(v as i32);
        push_char(&mut r, c);
        i = i + 1;
    }
    r
}

} // verus!
