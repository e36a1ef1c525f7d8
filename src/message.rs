//! Whole messages: checking that a text is made of symbols, and interleaving
//! a data text with its key into the stream that goes on the wire.

use vstd::prelude::*;
use vstd::string::StringSliceAdditionalSpecFns;
use vstd::std_specs::iter::IteratorSpec;
use crate::alphabet::{is_symbol, symbol_value, value_symbol};
use crate::cipher::{Direction, transform, lemma_transform_inverse};
use crate::codec::{byte_chars, chunk_stream, chunk_output, pairs_output, pair_output, lemma_first_sentinel_at};

verus! {

/// Relies on `String::push`: appends one character.
#[verifier::external_body]
pub(crate) fn push_char(s: &mut String, c: char)
    ensures
        final(s)@ == old(s)@.push(c),
{
    s.push(c);
}

/// The bytes with every trailing newline removed.
pub open spec fn trim_newlines(s: Seq<u8>) -> Seq<u8>
    decreases s.len(),
{
    if s.len() > 0 && s.last() == 10 {
        trim_newlines(s.drop_last())
    } else {
        s
    }
}

/// The decimal digits of `n`, without leading zeros.
pub open spec fn decimal(n: nat) -> Seq<char>
    decreases n,
{
    if n < 10 {
        seq![(n + 48) as char]
    } else {
        decimal(n / 10) + seq![((n % 10) + 48) as char]
    }
}

/// The error that names a byte that is not a symbol and its position.
pub open spec fn invalid_character_message(b: u8, position: nat) -> Seq<char> {
    "Invalid character '"@ + seq![b as char] + "' (byte: "@ + decimal(b as nat)
        + ") at position "@ + decimal(position)
}

/// Relies on `format!`: a `char` is written as itself and an integer in decimal.
#[verifier::external_body]
fn invalid_character_error(b: u8, position: usize) -> (r: String)
    ensures
        r@ == invalid_character_message(b, position as nat),
{
    format!("Invalid character '{}' (byte: {}) at position {}", b as char, b, position)
}

/// Checks that the text, without its trailing newlines, holds only symbols.
/// The error names the first byte that is not one.
pub fn validate_buffer(buffer: &str) -> (r: Result<(), String>)
    ensures
        r is Ok <==> forall|i: int|
            0 <= i < trim_newlines(buffer.spec_bytes()).len() ==> is_symbol(
                #[trigger] trim_newlines(buffer.spec_bytes())[i] as char,
            ),
        r is Err ==> exists|i: int|
            0 <= i < trim_newlines(buffer.spec_bytes()).len() && !is_symbol(
                #[trigger] trim_newlines(buffer.spec_bytes())[i] as char,
            ) && (forall|j: int|
                0 <= j < i ==> is_symbol(trim_newlines(buffer.spec_bytes())[j] as char))
                && r->Err_0@ == invalid_character_message(
                trim_newlines(buffer.spec_bytes())[i],
                i as nat,
            ),
{
    let bytes = buffer.as_bytes();
    let ghost all = bytes@;
    let mut n: usize = bytes.len();
    assert(all.take(n as int) =~= all);
    while n > 0 && bytes[n - 1] == 10
        invariant
            all == buffer.spec_bytes(),
            bytes@ == all,
            n <= all.len(),
            trim_newlines(all) == trim_newlines(all.take(n as int)),
        decreases n,
    {
        assert(all.take(n as int).drop_last() =~= all.take(n - 1));
        n = n - 1;
    }
    let ghost t = all.take(n as int);
    assert(trim_newlines(t) == t);
    let mut i: usize = 0;
    while i < n
        invariant
            all == buffer.spec_bytes(),
            bytes@ == all,
            n <= all.len(),
            t == all.take(n as int),
            trim_newlines(all) == t,
            i <= n,
            forall|j: int| 0 <= j < i ==> is_symbol(t[j] as char),
        decreases n - i,
    {
        let b = bytes[i];
        if !(b >= 65 && b <= 90 || b == 32) {
            proof {
                assert(t[i as int] == b);
                assert(!is_symbol(b as char));
                assert(trim_newlines(buffer.spec_bytes())[i as int] == b);
            }
            return Err(invalid_character_error(b, i));
        }
        i = i + 1;
    }
    Ok(())
}

/// The two sequences zipped into one, data first at each position; as long as
/// twice the shorter of the two.
pub open spec fn interleave<A>(a: Seq<A>, b: Seq<A>) -> Seq<A> {
    let n = if a.len() <= b.len() {
        a.len()
    } else {
        b.len()
    };
    Seq::new(2 * n, |i: int| if i % 2 == 0 { a[i / 2] } else { b[i / 2] })
}

/// Zips a data text with its key into the stream that is sent: data character,
/// then key character, for as many positions as the shorter text has.
pub fn interleave_buffers(ct_buffer: &str, key_buffer: &str) -> (r: String)
    ensures
        r@ == interleave(ct_buffer@, key_buffer@),
{
    broadcast use vstd::string::next_postcondition;

    let mut data = ct_buffer.chars();
    let mut key = key_buffer.chars();
    let mut r = String::new();
    assert(ct_buffer@.skip(0) =~= ct_buffer@);
    assert(key_buffer@.skip(0) =~= key_buffer@);
    assert(r@ =~= interleave(ct_buffer@.take(0), key_buffer@.take(0)));
    let ghost n: int = if ct_buffer@.len() <= key_buffer@.len() {
        ct_buffer@.len() as int
    } else {
        key_buffer@.len() as int
    };
    let ghost mut i: int = 0;
    loop
        invariant
            n == (if ct_buffer@.len() <= key_buffer@.len() {
                ct_buffer@.len() as int
            } else {
                key_buffer@.len() as int
            }),
            0 <= i <= n,
            data.remaining() == ct_buffer@.skip(i),
            key.remaining() == key_buffer@.skip(i),
            r@ == interleave(ct_buffer@.take(i), key_buffer@.take(i)),
        decreases n - i,
    {
        let ghost before_d = data.remaining();
        let ghost before_k = key.remaining();
        let d = data.next();
        let k = key.next();
        proof {
            assert(before_d.len() == ct_buffer@.len() - i);
            assert(before_k.len() == key_buffer@.len() - i);
            if i < ct_buffer@.len() {
                assert(before_d[0] == ct_buffer@[i]);
            }
            if i < key_buffer@.len() {
                assert(before_k[0] == key_buffer@[i]);
            }
        }
        match (d, k) {
            (Some(x), Some(y)) => {
                push_char(&mut r, x);
                push_char(&mut r, y);
                proof {
                    assert(x == ct_buffer@[i] && y == key_buffer@[i]);
                    assert(data.remaining() =~= ct_buffer@.skip(i + 1));
                    assert(key.remaining() =~= key_buffer@.skip(i + 1));
                    i = i + 1;
                    assert(r@ =~= interleave(ct_buffer@.take(i), key_buffer@.take(i)));
                }
            },
            _ => {
                proof {
                    assert(i == n);
                    assert(r@ =~= interleave(ct_buffer@, key_buffer@));
                }
                return r;
            },
        }
    }
}

/// Every byte of the sequence is a symbol.
pub open spec fn all_symbols(s: Seq<u8>) -> bool {
    forall|i: int| 0 <= i < s.len() ==> is_symbol(#[trigger] s[i] as char)
}

/// The symbol byte that one pair of symbol bytes gives.
pub open spec fn pair_symbol(d: u8, k: u8, direction: Direction) -> u8 {
    value_symbol(transform(symbol_value(d as char), symbol_value(k as char), direction)) as u8
}

proof fn lemma_value_symbol(v: int)
    requires
        0 <= v < 27,
    ensures
        (value_symbol(v) as u8) as char == value_symbol(v),
        is_symbol(value_symbol(v)),
        symbol_value(value_symbol(v)) == v,
{
}

proof fn lemma_symbol_byte(b: u8)
    requires
        is_symbol(b as char),
    ensures
        0 <= symbol_value(b as char) < 27,
        value_symbol(symbol_value(b as char)) as u8 == b,
{
}

/// Over symbols, the pairs of an interleaved stream give one symbol per position.
proof fn lemma_pairs_interleave(p: Seq<u8>, k: Seq<u8>, direction: Direction)
    requires
        p.len() == k.len(),
        all_symbols(p),
        all_symbols(k),
    ensures
        pairs_output(byte_chars(interleave(p, k)), direction) == Seq::new(
            p.len(),
            |i: int| pair_symbol(p[i], k[i], direction),
        ),
    decreases p.len(),
{
    let s = byte_chars(interleave(p, k));
    let n = p.len();
    if n == 0 {
        assert(s.len() == 0);
        assert(Seq::new(0, |i: int| pair_symbol(p[i], k[i], direction)) =~= Seq::<u8>::empty());
    } else {
        let p1 = p.drop_last();
        let k1 = k.drop_last();
        lemma_pairs_interleave(p1, k1, direction);
        assert(s.take(s.len() - 2) =~= byte_chars(interleave(p1, k1)));
        assert(s[s.len() - 2] == p[n - 1] as char);
        assert(s[s.len() - 1] == k[n - 1] as char);
        assert(is_symbol(p[n - 1] as char) && is_symbol(k[n - 1] as char));
        assert(pair_output(p[n - 1] as char, k[n - 1] as char, direction) =~= seq![
            pair_symbol(p[n - 1], k[n - 1], direction),
        ]);
        assert(pairs_output(s, direction) =~= Seq::new(
            n,
            |i: int| pair_symbol(p[i], k[i], direction),
        ));
    }
}

/// One call of the codec on an interleaved stream of symbols gives one output
/// symbol per position of the data.
proof fn lemma_transform_message(
    p: Seq<u8>,
    k: Seq<u8>,
    sentinel: char,
    direction: Direction,
)
    requires
        p.len() <= k.len(),
        all_symbols(p),
        all_symbols(k),
        !is_symbol(sentinel),
    ensures
        chunk_output(None, interleave(p, k), sentinel, direction) == Seq::new(
            p.len(),
            |i: int| pair_symbol(p[i], k[i], direction),
        ),
{
    let kp = k.take(p.len() as int);
    assert(interleave(p, k) =~= interleave(p, kp));
    lemma_pairs_interleave(p, kp, direction);
    let b = chunk_stream(None, interleave(p, k));
    assert(b =~= byte_chars(interleave(p, kp)));
    assert forall|j: int| 0 <= j < b.len() implies b[j] != sentinel by {
        if j % 2 == 0 {
            assert(is_symbol(p[j / 2] as char));
        } else {
            assert(is_symbol(kp[j / 2] as char));
        }
    }
    lemma_first_sentinel_at(b, sentinel, b.len() as int);
    assert(b.take(b.len() as int) =~= b);
    assert(Seq::new(p.len(), |i: int| pair_symbol(p[i], kp[i], direction)) =~= Seq::new(
        p.len(),
        |i: int| pair_symbol(p[i], k[i], direction),
    ));
}

/// Decrypting with a key what was encrypted with it gives back the plaintext,
/// for any plaintext of symbols and any key of symbols at least as long, when
/// the sentinel is not a symbol. The ciphertext is made of symbols, one per
/// plaintext symbol.
pub proof fn lemma_round_trip(p: Seq<u8>, k: Seq<u8>, sentinel: char)
    requires
        p.len() <= k.len(),
        all_symbols(p),
        all_symbols(k),
        !is_symbol(sentinel),
    ensures
        chunk_output(None, interleave(p, k), sentinel, Direction::Encrypt).len() == p.len(),
        all_symbols(chunk_output(None, interleave(p, k), sentinel, Direction::Encrypt)),
        chunk_output(
            None,
            interleave(chunk_output(None, interleave(p, k), sentinel, Direction::Encrypt), k),
            sentinel,
            Direction::Decrypt,
        ) == p,
{
    let c = chunk_output(None, interleave(p, k), sentinel, Direction::Encrypt);
    lemma_transform_message(p, k, sentinel, Direction::Encrypt);
    assert forall|i: int| 0 <= i < c.len() implies is_symbol(#[trigger] c[i] as char) by {
        lemma_symbol_byte(p[i]);
        lemma_symbol_byte(k[i]);
        lemma_transform_inverse(symbol_value(p[i] as char), symbol_value(k[i] as char));
        lemma_value_symbol(transform(symbol_value(p[i] as char), symbol_value(k[i] as char), Direction::Encrypt));
    }
    lemma_transform_message(c, k, sentinel, Direction::Decrypt);
    assert forall|i: int| 0 <= i < p.len() implies #[trigger] pair_symbol(c[i], k[i], Direction::Decrypt) == p[i] by {
        let pv = symbol_value(p[i] as char);
        let kv = symbol_value(k[i] as char);
        lemma_symbol_byte(p[i]);
        lemma_symbol_byte(k[i]);
        lemma_transform_inverse(pv, kv);
        lemma_value_symbol(transform(pv, kv, Direction::Encrypt));
    }
    assert(Seq::new(p.len(), |i: int| pair_symbol(c[i], k[i], Direction::Decrypt)) =~= p);
}

} // verus!
