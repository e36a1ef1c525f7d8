//! The substitution applied to one (data, key) pair of symbol values.

use vstd::prelude::*;
use crate::alphabet::ALPHABET_SIZE;

verus! {

/// Which way the pad is applied.
#[derive(Clone, Copy, Debug, PartialEq, Eq, Structural)]
pub enum Direction {
    /// Adds the key to the data, modulo 27.
    Encrypt,
    /// Subtracts the key from the data, modulo 27.
    Decrypt,
}

/// The output value for data value `d` and key value `k`.
pub open spec fn transform(d: int, k: int, direction: Direction) -> int {
    match direction {
        Direction::Encrypt => (d + k) % 27,
        Direction::Decrypt => (d - k + 27) % 27,
    }
}

/// Computes the output value of one pair of symbol values.
pub fn transform_pair(d: i32, k: i32, direction: Direction) -> (r: i32)
    requires
        0 <= d < ALPHABET_SIZE,
        0 <= k < ALPHABET_SIZE,
    ensures
        r == transform(d as int, k as int, direction),
        0 <= r < ALPHABET_SIZE,
{
    match direction {
        Direction::Encrypt => (d + k) % ALPHABET_SIZE,
        Direction::Decrypt => (d - k + ALPHABET_SIZE) % ALPHABET_SIZE,
    }
}

/// Decrypting with a key undoes encrypting with it, and the other way round.
pub proof fn lemma_transform_inverse(d: int, k: int)
    requires
        0 <= d < 27,
        0 <= k < 27,
    ensures
        transform(transform(d, k, Direction::Encrypt), k, Direction::Decrypt) == d,
        transform(transform(d, k, Direction::Decrypt), k, Direction::Encrypt) == d,
        0 <= transform(d, k, Direction::Encrypt) < 27,
        0 <= transform(d, k, Direction::Decrypt) < 27,
{
}

} // verus!
