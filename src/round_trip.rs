//! Decompression inverts compression: the decoder retraces the encoder's
//! model and interval, bit by bit, reading in its value register the three
//! stream bytes that follow what the encoder had emitted.

use vstd::prelude::*;
use crate::codec::{
    bit_divisor, bit_of, compressed, decode_run, decompressed, encode_bits, encode_bytes,
    encode_step, initial_encoding, DecGraph, DecCoder, Encoding,
};
use crate::coder::{
    be24, lemma_renormalized_settles, lemma_split_inside, narrowed, needs_renorm, renormalized,
    shifted, split_point, top_byte, value_of_be24, FLOOR, WINDOW,
};
use crate::graph::{lemma_node_ok, lemma_updated_wf, link_ok, model_wf, node_at};

verus! {

/// The 24-bit value of the three bytes of `o` from position `j` on.
pub open spec fn window_at(o: Seq<u8>, j: int) -> int {
    value_of_be24(o[j], o[j + 1], o[j + 2])
}

/// An encoder state that coding can continue from.
pub open spec fn enc_ok(s: Encoding) -> bool {
    &&& model_wf(s.0)
    &&& link_ok(s.0.1.len() as int, s.1)
    &&& 0 <= s.2
    &&& s.2 + FLOOR <= s.3 <= WINDOW
}

/// The finished stream `o` begins with what the encoder had emitted in
/// state `s`, has three more bytes, and their value lies in `[min, max)`.
pub open spec fn consistent(s: Encoding, o: Seq<u8>) -> bool {
    &&& s.4.len() + 3 <= o.len()
    &&& o.subrange(0, s.4.len() as int) == s.4
    &&& s.2 <= window_at(o, s.4.len() as int) < s.3
}

/// The decoder's model and coder that correspond to an encoder state.
pub open spec fn decoder_of(s: Encoding, o: Seq<u8>) -> (DecGraph, DecCoder) {
    ((s.0, s.1), (s.2, s.3, window_at(o, s.4.len() as int), s.4.len() + 3int))
}

/// The byte register after the first `k` bits of `byte`.
pub open spec fn bits_so_far(byte: u8, k: int) -> int
    decreases k,
{
    if k <= 0 {
        0
    } else {
        (2 * bits_so_far(byte, k - 1) + if bit_of(byte, k - 1) { 1int } else { 0int }) % 256
    }
}

/// The decoder stops at a byte boundary only at the end: after none of the
/// first `input.len()` bytes do the three stream bytes that follow equal
/// `max - 1`. Input that ends in bytes coded without any output (such as a
/// final `0xFF` whose 1-bits all keep `max` at the window's top) fails this.
pub open spec fn no_early_sentinel(input: Seq<u8>, budget: int) -> bool {
    forall|i: int| 0 <= i < input.len() ==> !#[trigger] sentinel_at(input, budget, i)
}

/// Whether, after the first `i` bytes, the three stream bytes that follow
/// what the encoder had emitted equal `max - 1`.
pub open spec fn sentinel_at(input: Seq<u8>, budget: int, i: int) -> bool {
    let s = encode_bytes(input.take(i), budget).0;
    window_at(compressed(input, budget), s.4.len() as int) == s.3 - 1
}

proof fn lemma_be24_value(v: int)
    requires
        0 <= v < WINDOW,
    ensures
        value_of_be24(be24(v)[0], be24(v)[1], be24(v)[2]) == v,
{
}

proof fn lemma_bits_so_far_byte(byte: u8)
    ensures
        bits_so_far(byte, 8) == byte,
{
    let x = byte as int;
    assert(bit_divisor(0) == 128);
    assert(bit_divisor(1) == 64);
    assert(bit_divisor(2) == 32);
    assert(bit_divisor(3) == 16);
    assert(bit_divisor(4) == 8);
    assert(bit_divisor(5) == 4);
    assert(bit_divisor(6) == 2);
    assert(bit_divisor(7) == 1);
    assert(bits_so_far(byte, 0) == 0);
    assert(bits_so_far(byte, 1) == x / 128);
    assert(bits_so_far(byte, 2) == x / 64);
    assert(bits_so_far(byte, 3) == x / 32);
    assert(bits_so_far(byte, 4) == x / 16);
    assert(bits_so_far(byte, 5) == x / 8);
    assert(bits_so_far(byte, 6) == x / 4);
    assert(bits_so_far(byte, 7) == x / 2);
    assert(bits_so_far(byte, 8) == x);
}

/// One renormalization read backwards: when the shifted window's value lies
/// in the renormalized interval, the unshifted value lies in the narrowed
/// one, and the decoder's register update reproduces the shifted value.
proof fn lemma_renorm_back(a: int, b: int, bit: bool, e0: u8, e1: u8, e2: u8, e3: u8)
    requires
        0 <= a < b <= WINDOW,
        needs_renorm(a, b),
        bit ==> b - a >= 2,
        e0 == top_byte(a),
        renormalized(a, b, bit).0 <= value_of_be24(e1, e2, e3) < renormalized(a, b, bit).1,
    ensures
        a <= value_of_be24(e0, e1, e2) < b,
        shifted(value_of_be24(e0, e1, e2)) + e3 == value_of_be24(e1, e2, e3),
{
    let q = a / 0x1_0000;
    let ra = a % 0x1_0000;
    let top = if bit { b - 1 } else { b };
    let rt = top % 0x1_0000;
    let low = e1 * 0x100 + e2;
    let v = value_of_be24(e0, e1, e2);
    let w = value_of_be24(e1, e2, e3);
    assert(e0 == q);
    assert(v == q * 0x1_0000 + low);
    assert(w == low * 0x100 + e3);
    assert(v % 0x1_0000 == low);
    assert(low >= ra);
    if shifted(a) < shifted(top) {
        assert(low < rt);
        assert(top / 0x1_0000 == q);
    } else {
        assert(top / 0x1_0000 >= q + 1);
    }
}

proof fn lemma_step_ok(s: Encoding, bit: bool, budget: int)
    requires
        enc_ok(s),
    ensures
        enc_ok(encode_step(s, bit, budget)),
{
    let (m, cur, lo, hi, out) = s;
    lemma_node_ok(m, cur);
    let n = node_at(m, cur);
    lemma_split_inside(lo, hi, n.zero as int, n.total());
    let mid = split_point(lo, hi, n.zero as int, n.total());
    let (a, b) = narrowed(lo, hi, mid, bit);
    lemma_renormalized_settles(a, b, bit);
    lemma_updated_wf(m, cur, bit, budget);
}

/// One coded bit read backwards: a stream consistent with the state after
/// the bit is consistent with the state before it, the value the decoder
/// holds there selects the same bit, and its register update matches.
proof fn lemma_step_back(s: Encoding, bit: bool, budget: int, o: Seq<u8>)
    requires
        enc_ok(s),
        consistent(encode_step(s, bit, budget), o),
    ensures
        consistent(s, o),
        ({
            let (m, cur, lo, hi, out) = s;
            let n = node_at(m, cur);
            let mid = split_point(lo, hi, n.zero as int, n.total());
            let (a, b) = narrowed(lo, hi, mid, bit);
            let v = window_at(o, out.len() as int);
            &&& (v >= mid) == bit
            &&& needs_renorm(a, b) ==> out.len() + 3 < o.len()
                && shifted(v) + o[out.len() + 3int] == window_at(o, out.len() + 1int)
        }),
{
    let (m, cur, lo, hi, out) = s;
    lemma_node_ok(m, cur);
    let n = node_at(m, cur);
    lemma_split_inside(lo, hi, n.zero as int, n.total());
    let mid = split_point(lo, hi, n.zero as int, n.total());
    let (a, b) = narrowed(lo, hi, mid, bit);
    let t = encode_step(s, bit, budget);
    let j = out.len() as int;
    if needs_renorm(a, b) {
        assert(t.4 == out.push(top_byte(a)));
        assert(o.subrange(0, j + 1) == out.push(top_byte(a)));
        assert(o[j] == top_byte(a)) by {
            assert(o.subrange(0, j + 1)[j] == o[j]);
        }
        assert(o.subrange(0, j) =~= out) by {
            assert forall|x: int| 0 <= x < j implies o.subrange(0, j)[x] == out[x] by {
                assert(o.subrange(0, j + 1)[x] == o[x]);
            }
        }
        lemma_renorm_back(a, b, bit, o[j], o[j + 1], o[j + 2], o[j + 3]);
    } else {
        assert(t.4 == out);
    }
}

proof fn lemma_bits_ok(s: Encoding, byte: u8, k: int, budget: int)
    requires
        enc_ok(s),
        0 <= k,
    ensures
        enc_ok(encode_bits(s, byte, k, budget)),
        s.4.len() <= encode_bits(s, byte, k, budget).4.len(),
    decreases k,
{
    if k > 0 {
        lemma_bits_ok(s, byte, k - 1, budget);
        lemma_step_ok(encode_bits(s, byte, k - 1, budget), bit_of(byte, k - 1), budget);
    }
}

proof fn lemma_bits_back(s: Encoding, byte: u8, k: int, budget: int, o: Seq<u8>)
    requires
        enc_ok(s),
        0 <= k <= 8,
        consistent(encode_bits(s, byte, 8, budget), o),
    ensures
        consistent(encode_bits(s, byte, k, budget), o),
    decreases 8 - k,
{
    if k < 8 {
        lemma_bits_back(s, byte, k + 1, budget, o);
        lemma_bits_ok(s, byte, k, budget);
        lemma_step_back(encode_bits(s, byte, k, budget), bit_of(byte, k), budget, o);
    }
}

proof fn lemma_take_step(input: Seq<u8>, i: int)
    requires
        0 <= i < input.len(),
    ensures
        input.take(i + 1).drop_last() == input.take(i),
        input.take(i + 1).last() == input[i],
        input.take(i + 1).len() == i + 1,
{
    assert(input.take(i + 1).drop_last() =~= input.take(i));
}

proof fn lemma_bytes_ok(input: Seq<u8>, i: int, budget: int)
    requires
        0 <= i <= input.len(),
    ensures
        enc_ok(encode_bytes(input.take(i), budget).0),
        encode_bytes(input.take(i), budget).1 <= encode_bytes(input.take(i), budget).0.4.len(),
    decreases i,
{
    if i == 0 {
        assert(input.take(0) =~= Seq::<u8>::empty());
        crate::graph::lemma_fresh_wf();
    } else {
        lemma_bytes_ok(input, i - 1, budget);
        lemma_take_step(input, i - 1);
        lemma_bits_ok(encode_bytes(input.take(i - 1), budget).0, input[i - 1], 8, budget);
        crate::graph::lemma_fresh_wf();
    }
}

proof fn lemma_bytes_back(input: Seq<u8>, i: int, budget: int)
    requires
        0 <= i <= input.len(),
    ensures
        consistent(encode_bytes(input.take(i), budget).0, compressed(input, budget)),
    decreases input.len() - i,
{
    let o = compressed(input, budget);
    if i == input.len() {
        assert(input.take(i) =~= input);
        lemma_bytes_ok(input, i, budget);
        let s = encode_bytes(input, budget).0;
        lemma_be24_value(s.3 - 1);
        assert(o.subrange(0, s.4.len() as int) =~= s.4);
        assert(window_at(o, s.4.len() as int) == value_of_be24(be24(s.3 - 1)[0], be24(s.3 - 1)[1], be24(s.3 - 1)[2]));
    } else {
        lemma_bytes_back(input, i + 1, budget);
        lemma_take_step(input, i);
        lemma_bytes_ok(input, i, budget);
        let s = encode_bytes(input.take(i), budget).0;
        lemma_bits_back(s, input[i], 0, budget, o);
    }
}

#[verifier::rlimit(60)]
proof fn lemma_decode_bits(input: Seq<u8>, budget: int, i: int, k: int)
    requires
        0 <= i < input.len(),
        0 <= k < 8,
        !sentinel_at(input, budget, i),
    ensures
        ({
            let o = compressed(input, budget);
            let (e, mark) = encode_bytes(input.take(i), budget);
            let (e2, mark2) = encode_bytes(input.take(i + 1), budget);
            let t = encode_bits(e, input[i], k, budget);
            let d = decoder_of(t, o);
            let d2 = decoder_of(e2, o);
            decode_run(d.0, d.1, (input.take(i), mark + 3, bits_so_far(input[i], k), k), o, budget)
                == decode_run(d2.0, d2.1, (input.take(i + 1), mark2 + 3, 0, 0), o, budget)
        }),
    decreases 8 - k,
{
    let o = compressed(input, budget);
    let (e, mark) = encode_bytes(input.take(i), budget);
    let byte = input[i];
    let t = encode_bits(e, byte, k, budget);
    let bit = bit_of(byte, k);
    let t2 = encode_bits(e, byte, k + 1, budget);
    lemma_take_step(input, i);
    lemma_bytes_ok(input, i, budget);
    lemma_bytes_back(input, i + 1, budget);
    lemma_bits_ok(e, byte, k, budget);
    lemma_bits_ok(e, byte, k + 1, budget);
    lemma_bits_back(e, byte, k + 1, budget, o);
    lemma_bits_back(e, byte, 8, budget, o);
    lemma_step_back(t, bit, budget, o);
    assert(t2 == encode_step(t, bit, budget));
    if k == 0 {
        assert(encode_bits(e, byte, 0, budget) == e);
        assert(window_at(o, e.4.len() as int) != e.3 - 1);
    }
    if k + 1 < 8 {
        lemma_decode_bits(input, budget, i, k + 1);
    } else {
        lemma_bits_so_far_byte(byte);
        assert(input.take(i).push(byte) =~= input.take(i + 1));
    }
}

proof fn lemma_decode_bytes(input: Seq<u8>, budget: int, i: int, stop: int)
    requires
        0 <= i <= stop <= input.len(),
        forall|x: int| i <= x < stop ==> !#[trigger] sentinel_at(input, budget, x),
        stop < input.len() ==> sentinel_at(input, budget, stop),
    ensures
        ({
            let o = compressed(input, budget);
            let (e, mark) = encode_bytes(input.take(i), budget);
            let d = decoder_of(e, o);
            decode_run(d.0, d.1, (input.take(i), mark + 3, 0, 0), o, budget) == input.take(stop)
        }),
    decreases stop - i,
{
    let o = compressed(input, budget);
    lemma_bytes_ok(input, i, budget);
    lemma_bytes_back(input, i, budget);
    if i == input.len() {
        assert(input.take(i) =~= input);
        let s = encode_bytes(input, budget).0;
        lemma_be24_value(s.3 - 1);
        assert(window_at(o, s.4.len() as int) == value_of_be24(be24(s.3 - 1)[0], be24(s.3 - 1)[1], be24(s.3 - 1)[2]));
    } else if i == stop {
    } else {
        lemma_decode_bits(input, budget, i, 0);
        lemma_decode_bytes(input, budget, i + 1, stop);
    }
}

/// Round trip: decompressing what `compress` produced, with the same
/// budget, gives back the input, for every input on which the decoder does
/// not meet the sentinel value at an earlier byte boundary.
pub proof fn lemma_round_trip(input: Seq<u8>, budget: int)
    requires
        budget >= 1,
        no_early_sentinel(input, budget),
    ensures
        decompressed(compressed(input, budget), budget) == Some(input),
{
    lemma_bytes_back(input, 0, budget);
    lemma_decode_bytes(input, budget, 0, input.len() as int);
    assert(input.take(0) =~= Seq::<u8>::empty());
    assert(input.take(input.len() as int) =~= input);
    assert(encode_bytes(input.take(0), budget) == (initial_encoding(), 0int));
}

/// The condition of the round trip is exact: where the decoder meets the
/// sentinel value at the boundary after the first `stop` bytes, and at none
/// before, decompression gives back those `stop` bytes alone.
pub proof fn lemma_round_trip_stops_early(input: Seq<u8>, budget: int, stop: int)
    requires
        budget >= 1,
        0 <= stop < input.len(),
        sentinel_at(input, budget, stop),
        forall|x: int| 0 <= x < stop ==> !#[trigger] sentinel_at(input, budget, x),
    ensures
        decompressed(compressed(input, budget), budget) == Some(input.take(stop)),
{
    lemma_bytes_back(input, 0, budget);
    lemma_decode_bytes(input, budget, 0, stop);
    assert(input.take(0) =~= Seq::<u8>::empty());
    assert(encode_bytes(input.take(0), budget) == (initial_encoding(), 0int));
}

} // verus!
