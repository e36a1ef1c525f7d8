//! The 27-symbol alphabet: `A`..`Z` stand for 0..25 and space for 26.

use vstd::prelude::*;

verus! {

/// Number of symbols in the alphabet.
pub const ALPHABET_SIZE: i32 = 27;

/// Whether `c` is one of the 27 symbols.
pub open spec fn is_symbol(c: char) -> bool {
    c == ' ' || ('A' <= c && c <= 'Z')
}

/// The value of a character: 0..25 for `A`..`Z`, 26 for space, -1 for anything else.
pub open spec fn symbol_value(c: char) -> int {
    if c == ' ' {
        26
    } else if 'A' <= c && c <= 'Z' {
        c as int - 'A' as int
    } else {
        -1
    }
}

/// The character of a value: `A`..`Z` for 0..25, space for 26, `?` for anything else.
pub open spec fn value_symbol(n: int) -> char {
    if 0 <= n && n <= 25 {
        (n + 'A' as int) as char
    } else if n == 26 {
        ' '
    } else {
        '?'
    }
}

/// Maps a character to its value in the alphabet, or -1 when it is not a symbol.
pub fn convert_to_num(c: char) -> (r: i32)
    ensures
        r == symbol_value(c),
        is_symbol(c) <==> 0 <= r < ALPHABET_SIZE,
{
    if c == ' ' {
        26
    } else if 'A' <= c && c <= 'Z' {
        (c as u32 - 'A' as u32) as i32
    } else {
        -1
    }
}

/// Maps a value back to its symbol, or to `?` when it lies outside 0..26.
pub fn convert_to_char(n: i32) -> (r: char)
    ensures
        r == value_symbol(n as int),
        0 <= n < ALPHABET_SIZE ==> is_symbol(r) && symbol_value(r) == n,
{
    if 0 <= n && n <= 25 {
        ((n as u8) + ('A' as u8)) as char
    } else if n == 26 {
        ' '
    } else {
        '?'
    }
}

} // verus!
