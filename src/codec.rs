//! The stream codec: turns chunks of an interleaved (data, key) byte stream
//! into output symbols, holding back a data byte whose key byte has not come yet.
//!
//! A pair in which either byte is not a symbol yields no output (it is
//! skipped), and the first sentinel ends the stream: nothing at or after it is
//! data, and no byte is carried past it.

use vstd::prelude::*;
use crate::alphabet::{is_symbol, symbol_value, value_symbol, convert_to_num, convert_to_char};
use crate::cipher::{Direction, transform, transform_pair};

verus! {

/// The bytes of a chunk, read as characters.
pub open spec fn byte_chars(data: Seq<u8>) -> Seq<char> {
    data.map_values(|b: u8| b as char)
}

/// The carried byte, if any, as a sequence.
pub open spec fn carry_seq(carry: Option<char>) -> Seq<char> {
    match carry {
        Some(c) => seq![c],
        None => seq![],
    }
}

/// What the codec sees for one call: the carried byte, then the chunk.
pub open spec fn chunk_stream(carry: Option<char>, data: Seq<u8>) -> Seq<char> {
    carry_seq(carry) + byte_chars(data)
}

/// The output of one (data, key) pair: one symbol, or nothing when either is not a symbol.
pub open spec fn pair_output(d: char, k: char, direction: Direction) -> Seq<u8> {
    if is_symbol(d) && is_symbol(k) {
        seq![value_symbol(transform(symbol_value(d), symbol_value(k), direction)) as u8]
    } else {
        seq![]
    }
}

/// The outputs of the complete pairs of `s`, in order; a trailing odd byte gives none.
pub open spec fn pairs_output(s: Seq<char>, direction: Direction) -> Seq<u8>
    decreases s.len(),
{
    if s.len() < 2 {
        seq![]
    } else if s.len() % 2 == 1 {
        pairs_output(s.drop_last(), direction)
    } else {
        pairs_output(s.take(s.len() - 2), direction) + pair_output(
            s[s.len() - 2],
            s[s.len() - 1],
            direction,
        )
    }
}

/// The index of the first `sentinel` in `s`, or the length of `s` when there is none.
pub open spec fn first_sentinel(s: Seq<char>, sentinel: char) -> int
    decreases s.len(),
{
    if s.len() == 0 {
        0
    } else if s[0] == sentinel {
        0
    } else {
        1 + first_sentinel(s.drop_first(), sentinel)
    }
}

/// Whether the stream of this call holds the sentinel.
pub open spec fn chunk_terminates(carry: Option<char>, data: Seq<u8>, sentinel: char) -> bool {
    let b = chunk_stream(carry, data);
    first_sentinel(b, sentinel) < b.len()
}

/// The output of one call: the complete pairs before the first sentinel.
pub open spec fn chunk_output(
    carry: Option<char>,
    data: Seq<u8>,
    sentinel: char,
    direction: Direction,
) -> Seq<u8> {
    let b = chunk_stream(carry, data);
    pairs_output(b.take(first_sentinel(b, sentinel)), direction)
}

/// The byte carried out of one call: the last byte of an odd stream with no sentinel.
pub open spec fn chunk_carry(carry: Option<char>, data: Seq<u8>, sentinel: char) -> Option<char> {
    let b = chunk_stream(carry, data);
    if chunk_terminates(carry, data, sentinel) {
        None
    } else if b.len() % 2 == 1 {
        Some(b.last())
    } else {
        None
    }
}

proof fn lemma_first_sentinel(s: Seq<char>, sentinel: char)
    ensures
        0 <= first_sentinel(s, sentinel) <= s.len(),
        forall|j: int| 0 <= j < first_sentinel(s, sentinel) ==> s[j] != sentinel,
        first_sentinel(s, sentinel) < s.len() ==> s[first_sentinel(s, sentinel)] == sentinel,
    decreases s.len(),
{
    if s.len() > 0 && s[0] != sentinel {
        lemma_first_sentinel(s.drop_first(), sentinel);
        assert forall|j: int| 0 <= j < first_sentinel(s, sentinel) implies s[j] != sentinel by {
            if j > 0 {
                assert(s[j] == s.drop_first()[j - 1]);
            }
        }
    }
}

/// The first sentinel is the one position that has a sentinel and none before it.
pub(crate) proof fn lemma_first_sentinel_at(s: Seq<char>, sentinel: char, p: int)
    requires
        0 <= p <= s.len(),
        forall|j: int| 0 <= j < p ==> s[j] != sentinel,
        p == s.len() || s[p] == sentinel,
    ensures
        first_sentinel(s, sentinel) == p,
{
    lemma_first_sentinel(s, sentinel);
}

proof fn lemma_pairs_output_len(s: Seq<char>, direction: Direction)
    ensures
        pairs_output(s, direction).len() <= s.len() / 2,
    decreases s.len(),
{
    if s.len() >= 2 {
        if s.len() % 2 == 1 {
            lemma_pairs_output_len(s.drop_last(), direction);
        } else {
            lemma_pairs_output_len(s.take(s.len() - 2), direction);
        }
    }
}

/// Output of one pair, as a byte, or `None` when the pair yields nothing.
fn transform_symbols(d: char, k: char, direction: Direction) -> (r: Option<u8>)
    ensures
        match r {
            Some(b) => pair_output(d, k, direction) == seq![b],
            None => pair_output(d, k, direction) == Seq::<u8>::empty(),
        },
{
    let dv = convert_to_num(d);
    let kv = convert_to_num(k);
    if dv >= 0 && kv >= 0 {
        let v = transform_pair(dv, kv, direction);
        Some(convert_to_char(v) as u8)
    } else {
        None
    }
}

/// Appends the output of one pair at position `w` of `write_buffer`; returns the new position.
fn emit_pair(write_buffer: &mut [u8], w: usize, d: char, k: char, direction: Direction) -> (nw: usize)
    requires
        w < old(write_buffer)@.len(),
    ensures
        final(write_buffer)@.len() == old(write_buffer)@.len(),
        nw <= w + 1,
        final(write_buffer)@.take(nw as int) == old(write_buffer)@.take(w as int) + pair_output(
            d,
            k,
            direction,
        ),
{
    let ghost before = write_buffer@.take(w as int);
    match transform_symbols(d, k, direction) {
        Some(v) => {
            write_buffer[w] = v;
            assert(write_buffer@.take(w + 1) =~= before + seq![v]);
            w + 1
        },
        None => {
            assert(write_buffer@.take(w as int) =~= before + Seq::<u8>::empty());
            w
        },
    }
}

/// Zeroes `write_buffer` from position `w` on.
fn clear_from(write_buffer: &mut [u8], w: usize)
    requires
        w <= old(write_buffer)@.len(),
    ensures
        final(write_buffer)@.len() == old(write_buffer)@.len(),
        final(write_buffer)@.take(w as int) == old(write_buffer)@.take(w as int),
        forall|j: int| w <= j < final(write_buffer)@.len() ==> final(write_buffer)@[j] == 0,
{
    let ghost kept = write_buffer@.take(w as int);
    let mut j: usize = w;
    while j < write_buffer.len()
        invariant
            w <= j <= write_buffer@.len(),
            write_buffer@.len() == old(write_buffer)@.len(),
            write_buffer@.take(w as int) == kept,
            forall|t: int| w <= t < j ==> write_buffer@[t] == 0,
        decreases write_buffer@.len() - j,
    {
        write_buffer[j] = 0;
        j = j + 1;
        assert(write_buffer@.take(w as int) =~= kept);
    }
}

/// Transforms one chunk: writes the output symbols to the front of `write_buffer`,
/// zeroes the rest of it, and returns the byte to carry into the next call together
/// with the number of bytes written.
pub fn transform_data(
    data: &[u8],
    write_buffer: &mut [u8],
    dangling: Option<char>,
    term_sig: char,
    direction: Direction,
) -> (r: (Option<char>, usize))
    requires
        old(write_buffer)@.len() >= (data@.len() + 1) / 2,
    ensures
        r.1 == chunk_output(dangling, data@, term_sig, direction).len(),
        r.1 <= old(write_buffer)@.len(),
        final(write_buffer)@.len() == old(write_buffer)@.len(),
        final(write_buffer)@.take(r.1 as int) == chunk_output(dangling, data@, term_sig, direction),
        forall|j: int| r.1 <= j < final(write_buffer)@.len() ==> final(write_buffer)@[j] == 0,
        r.0 == chunk_carry(dangling, data@, term_sig),
{
    let ghost b = chunk_stream(dangling, data@);
    let ghost off: int = if dangling is Some { 1 } else { 0 };
    proof {
        lemma_first_sentinel(b, term_sig);
        assert(b.take(0) =~= Seq::<char>::empty());
        assert(write_buffer@.take(0) =~= Seq::<u8>::empty());
    }
    // the first sentinel of the chunk, or its end
    let mut end: usize = 0;
    while end < data.len() && data[end] as char != term_sig
        invariant
            end <= data@.len(),
            forall|j: int| 0 <= j < end ==> data@[j] as char != term_sig,
        decreases data@.len() - end,
    {
        end = end + 1;
    }
    let found = end < data.len();
    proof {
        if dangling != Some(term_sig) {
            assert forall|j: int| 0 <= j < off + end implies b[j] != term_sig by {
                if j >= off {
                    assert(b[j] == data@[j - off] as char);
                }
            }
            if found {
                assert(b[off + end] == data@[end as int] as char);
            }
            lemma_first_sentinel_at(b, term_sig, off + end);
        } else {
            lemma_first_sentinel_at(b, term_sig, 0);
        }
    }
    let mut w: usize = 0;
    let mut i: usize = 0;
    if let Some(c) = dangling {
        if c == term_sig {
            clear_from(write_buffer, 0);
            return (None, 0);
        }
        if end == 0 {
            clear_from(write_buffer, 0);
            if found {
                return (None, 0);
            } else {
                return (Some(c), 0);
            }
        }
        let k = data[0] as char;
        proof {
            assert(b.take(2).take(0) =~= Seq::<char>::empty());
            assert(b.take(2)[0] == c && b.take(2)[1] == k);
            assert(pairs_output(b.take(2).take(0), direction) =~= Seq::<u8>::empty());
        }
        w = emit_pair(write_buffer, 0, c, k, direction);
        i = 1;
        assert(write_buffer@.take(w as int) =~= pairs_output(b.take(2), direction));
    }
    while end - i > 1
        invariant
            write_buffer@.len() == old(write_buffer)@.len(),
            b == chunk_stream(dangling, data@),
            off == (if dangling is Some { 1int } else { 0int }),
            first_sentinel(b, term_sig) == off + end,
            end <= data@.len(),
            i <= end,
            (off + i) % 2 == 0,
            write_buffer@.len() >= (data@.len() + 1) / 2,
            write_buffer@.take(w as int) == pairs_output(b.take(off + i), direction),
            w as int == write_buffer@.take(w as int).len(),
        decreases end - i,
    {
        let ghost p: int = off + i;
        proof {
            assert(b.take(p + 2).take(p) =~= b.take(p));
            assert(b.take(p + 2)[p] == data@[i as int] as char);
            assert(b.take(p + 2)[p + 1] == data@[i + 1] as char);
            lemma_pairs_output_len(b.take(p), direction);
        }
        w = emit_pair(write_buffer, w, data[i] as char, data[i + 1] as char, direction);
        i = i + 2;
    }
    proof {
        if i < end {
            assert(b.take(off + end).drop_last() =~= b.take(off + i));
        }
        lemma_pairs_output_len(b.take(off + end), direction);
        if !found {
            assert(b.take(off + end) =~= b);
        }
    }
    clear_from(write_buffer, w);
    if !found && i < end {
        (Some(data[i] as char), w)
    } else {
        (None, w)
    }
}

/// Decrypts one chunk of an interleaved (ciphertext, key) stream; see [`transform_data`].
pub fn decrypt_data(
    data: &[u8],
    write_buffer: &mut [u8],
    dangling_ct_char: Option<char>,
    term_sig: char,
) -> (r: (Option<char>, usize))
    requires
        old(write_buffer)@.len() >= (data@.len() + 1) / 2,
    ensures
        r.1 == chunk_output(dangling_ct_char, data@, term_sig, Direction::Decrypt).len(),
        r.1 <= old(write_buffer)@.len(),
        final(write_buffer)@.len() == old(write_buffer)@.len(),
        final(write_buffer)@.take(r.1 as int) == chunk_output(
            dangling_ct_char,
            data@,
            term_sig,
            Direction::Decrypt,
        ),
        forall|j: int| r.1 <= j < final(write_buffer)@.len() ==> final(write_buffer)@[j] == 0,
        r.0 == chunk_carry(dangling_ct_char, data@, term_sig),
{
    transform_data(data, write_buffer, dangling_ct_char, term_sig, Direction::Decrypt)
}

/// Encrypts one chunk of an interleaved (plaintext, key) stream; see [`transform_data`].
pub fn encrypt_data(
    data: &[u8],
    write_buffer: &mut [u8],
    dangling_pt_char: Option<char>,
    term_sig: char,
) -> (r: (Option<char>, usize))
    requires
        old(write_buffer)@.len() >= (data@.len() + 1) / 2,
    ensures
        r.1 == chunk_output(dangling_pt_char, data@, term_sig, Direction::Encrypt).len(),
        r.1 <= old(write_buffer)@.len(),
        final(write_buffer)@.len() == old(write_buffer)@.len(),
        final(write_buffer)@.take(r.1 as int) == chunk_output(
            dangling_pt_char,
            data@,
            term_sig,
            Direction::Encrypt,
        ),
        forall|j: int| r.1 <= j < final(write_buffer)@.len() ==> final(write_buffer)@[j] == 0,
        r.0 == chunk_carry(dangling_pt_char, data@, term_sig),
{
    transform_data(data, write_buffer, dangling_pt_char, term_sig, Direction::Encrypt)
}

/// Whether one call sees a sentinel: in the carried byte or anywhere in the chunk.
pub fn chunk_ends_stream(data: &[u8], dangling: Option<char>, term_sig: char) -> (r: bool)
    ensures
        r == chunk_terminates(dangling, data@, term_sig),
{
    let ghost b = chunk_stream(dangling, data@);
    let ghost off: int = if dangling is Some { 1 } else { 0 };
    proof {
        lemma_first_sentinel(b, term_sig);
    }
    if dangling == Some(term_sig) {
        assert(b[0] == term_sig);
        return true;
    }
    let mut i: usize = 0;
    while i < data.len()
        invariant
            b == chunk_stream(dangling, data@),
            off == (if dangling is Some { 1int } else { 0int }),
            dangling != Some(term_sig),
            i <= data@.len(),
            forall|j: int| 0 <= j < i ==> data@[j] as char != term_sig,
        decreases data@.len() - i,
    {
        if data[i] as char == term_sig {
            proof {
                assert(b[off + i] == term_sig);
                lemma_first_sentinel(b, term_sig);
            }
            return true;
        }
        i = i + 1;
    }
    assert forall|j: int| 0 <= j < b.len() implies b[j] != term_sig by {
        if j >= off {
            assert(b[j] == data@[j - off] as char);
        }
    }
    false
}

/// The chunks joined into one stream, in order.
pub open spec fn concat_chunks(chunks: Seq<Seq<u8>>) -> Seq<u8>
    decreases chunks.len(),
{
    if chunks.len() == 0 {
        seq![]
    } else {
        concat_chunks(chunks.drop_last()) + chunks.last()
    }
}

/// Feeds the chunks of one connection to the codec in order, starting with no
/// carried byte and handing each call's carried byte to the next: the output so
/// far, the carried byte, and whether a sentinel has been seen (after which no
/// chunk is processed).
pub open spec fn feed_chunks(chunks: Seq<Seq<u8>>, sentinel: char, direction: Direction) -> (
    Seq<u8>,
    Option<char>,
    bool,
)
    decreases chunks.len(),
{
    if chunks.len() == 0 {
        (seq![], None, false)
    } else {
        let (out, carry, done) = feed_chunks(chunks.drop_last(), sentinel, direction);
        let c = chunks.last();
        if done {
            (out, carry, done)
        } else {
            (
                out + chunk_output(carry, c, sentinel, direction),
                chunk_carry(carry, c, sentinel),
                chunk_terminates(carry, c, sentinel),
            )
        }
    }
}

/// The output of pairs over an even-length prefix does not depend on what follows it.
proof fn lemma_pairs_output_append(e: Seq<char>, z: Seq<char>, direction: Direction)
    requires
        e.len() % 2 == 0,
    ensures
        pairs_output(e + z, direction) == pairs_output(e, direction) + pairs_output(z, direction),
    decreases z.len(),
{
    let ez = e + z;
    if z.len() == 0 {
        assert(ez =~= e);
        assert(pairs_output(e, direction) + pairs_output(z, direction) =~= pairs_output(e, direction));
    } else if z.len() == 1 {
        assert(ez.drop_last() =~= e);
        assert(pairs_output(e, direction) + pairs_output(z, direction) =~= pairs_output(e, direction));
    } else if z.len() % 2 == 1 {
        assert(ez.drop_last() =~= e + z.drop_last());
        lemma_pairs_output_append(e, z.drop_last(), direction);
    } else {
        assert(ez.take(ez.len() - 2) =~= e + z.take(z.len() - 2));
        lemma_pairs_output_append(e, z.take(z.len() - 2), direction);
        assert(ez[ez.len() - 2] == z[z.len() - 2]);
        assert(ez[ez.len() - 1] == z[z.len() - 1]);
        assert(pairs_output(ez, direction) =~= pairs_output(e, direction) + pairs_output(z, direction));
    }
}

/// A prefix without a sentinel shifts the first sentinel by its length.
proof fn lemma_first_sentinel_append(p: Seq<char>, c: Seq<char>, sentinel: char)
    requires
        forall|j: int| 0 <= j < p.len() ==> p[j] != sentinel,
    ensures
        first_sentinel(p + c, sentinel) == p.len() + first_sentinel(c, sentinel),
{
    let pc = p + c;
    let f = first_sentinel(c, sentinel);
    lemma_first_sentinel(c, sentinel);
    assert forall|j: int| 0 <= j < p.len() + f implies pc[j] != sentinel by {
        if j >= p.len() {
            assert(pc[j] == c[j - p.len()]);
        }
    }
    if f < c.len() {
        assert(pc[p.len() + f] == c[f]);
    }
    lemma_first_sentinel_at(pc, sentinel, p.len() + f);
}

/// One call on a whole stream gives what two calls give on its two parts,
/// the second starting from the byte that the first carried.
proof fn lemma_chunk_split(x: Seq<u8>, c: Seq<u8>, sentinel: char, direction: Direction)
    ensures
        chunk_terminates(None, x, sentinel) ==> chunk_output(None, x + c, sentinel, direction)
            == chunk_output(None, x, sentinel, direction) && chunk_carry(None, x + c, sentinel)
            == chunk_carry(None, x, sentinel) && chunk_terminates(None, x + c, sentinel),
        !chunk_terminates(None, x, sentinel) ==> chunk_output(None, x + c, sentinel, direction)
            == chunk_output(None, x, sentinel, direction) + chunk_output(
            chunk_carry(None, x, sentinel),
            c,
            sentinel,
            direction,
        ) && chunk_carry(None, x + c, sentinel) == chunk_carry(
            chunk_carry(None, x, sentinel),
            c,
            sentinel,
        ) && chunk_terminates(None, x + c, sentinel) == chunk_terminates(
            chunk_carry(None, x, sentinel),
            c,
            sentinel,
        ),
{
    let xs = byte_chars(x);
    let cs = byte_chars(c);
    let whole = chunk_stream(None, x + c);
    assert(chunk_stream(None, x) =~= xs);
    assert(whole =~= xs + cs);
    lemma_first_sentinel(xs, sentinel);
    lemma_first_sentinel(cs, sentinel);
    let fx = first_sentinel(xs, sentinel);
    if fx < xs.len() {
        assert forall|j: int| 0 <= j < fx implies whole[j] != sentinel by {
            assert(whole[j] == xs[j]);
        }
        assert(whole[fx] == xs[fx]);
        lemma_first_sentinel_at(whole, sentinel, fx);
        assert(whole.take(fx) =~= xs.take(fx));
    } else {
        let cx = chunk_carry(None, x, sentinel);
        let t = carry_seq(cx);
        let e = xs.take(xs.len() - t.len());
        assert(xs =~= e + t);
        let f = first_sentinel(cs, sentinel);
        lemma_first_sentinel_append(xs, cs, sentinel);
        assert forall|j: int| 0 <= j < t.len() implies t[j] != sentinel by {
            assert(t[j] == xs[xs.len() - 1]);
        }
        lemma_first_sentinel_append(t, cs, sentinel);
        let second = chunk_stream(cx, c);
        assert(second =~= t + cs);
        assert(whole.take(xs.len() + f) =~= e + (t + cs.take(f)));
        assert(second.take(t.len() + f) =~= t + cs.take(f));
        lemma_pairs_output_append(e, t + cs.take(f), direction);
        lemma_pairs_output_append(e, t, direction);
        assert(xs.take(fx) =~= xs);
        assert(pairs_output(t, direction) =~= Seq::<u8>::empty());
        assert(pairs_output(e, direction) + Seq::<u8>::empty() =~= pairs_output(e, direction));
        if cs.len() == 0 {
            assert(whole =~= xs);
        } else {
            assert(whole.last() == cs.last());
            assert(second.last() == cs.last());
        }
    }
}

/// Fragmentation does not matter: feeding the chunks one by one, carrying the
/// pending byte from each call to the next, gives the same output, carried byte
/// and termination as one call on the whole stream.
pub proof fn lemma_fragmentation_invariance(
    chunks: Seq<Seq<u8>>,
    sentinel: char,
    direction: Direction,
)
    ensures
        feed_chunks(chunks, sentinel, direction) == (
            chunk_output(None, concat_chunks(chunks), sentinel, direction),
            chunk_carry(None, concat_chunks(chunks), sentinel),
            chunk_terminates(None, concat_chunks(chunks), sentinel),
        ),
    decreases chunks.len(),
{
    if chunks.len() == 0 {
        let b = chunk_stream(None, concat_chunks(chunks));
        assert(b =~= Seq::<char>::empty());
        assert(b.take(0) =~= b);
    } else {
        lemma_fragmentation_invariance(chunks.drop_last(), sentinel, direction);
        lemma_chunk_split(concat_chunks(chunks.drop_last()), chunks.last(), sentinel, direction);
    }
}

/// Nothing at or after a sentinel counts: the output is that of the bytes before
/// it, and no byte is carried.
pub proof fn lemma_sentinel_boundary(
    carry: Option<char>,
    data: Seq<u8>,
    i: int,
    sentinel: char,
    direction: Direction,
)
    requires
        0 <= i < data.len(),
        data[i] as char == sentinel,
    ensures
        chunk_output(carry, data, sentinel, direction) == chunk_output(
            carry,
            data.take(i),
            sentinel,
            direction,
        ),
        chunk_carry(carry, data, sentinel) is None,
        chunk_terminates(carry, data, sentinel),
{
    let b = chunk_stream(carry, data);
    let off = carry_seq(carry).len();
    let bp = chunk_stream(carry, data.take(i));
    assert(bp =~= b.take(off + i));
    assert(b[off + i] == sentinel);
    lemma_first_sentinel(b, sentinel);
    lemma_first_sentinel(bp, sentinel);
    let f = first_sentinel(b, sentinel);
    if f < off + i {
        assert(bp[f] == b[f]);
        assert forall|j: int| 0 <= j < f implies bp[j] != sentinel by {
            assert(bp[j] == b[j]);
        }
        lemma_first_sentinel_at(bp, sentinel, f);
        assert(bp.take(f) =~= b.take(f));
    } else {
        assert forall|j: int| 0 <= j < off + i implies bp[j] != sentinel by {
            assert(bp[j] == b[j]);
        }
        lemma_first_sentinel_at(bp, sentinel, off + i);
        lemma_first_sentinel_at(b, sentinel, off + i);
        assert(bp.take(off + i) =~= b.take(off + i));
    }
}

} // verus!
