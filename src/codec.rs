//! The compress and decompress drivers: the byte and bit loops that run the
//! predictor and the coder in step, with the periodic flush.

use vstd::prelude::*;
use crate::coder::{
    be24, lemma_split_inside, narrowed, needs_renorm, renormalized,
    shifted, split_point, top_byte, value_of_be24, Decoder, Interval, FLOOR, WINDOW,
};
use crate::graph::{
    fresh_model, link_ok, model_wf, node_at, node_ok, root_of, updated, Link, Model, StateGraph,
};

verus! {

/// Input bytes between two checks of the output growth.
pub const CHECK_PERIOD: usize = 256;

/// Output growth over one period above which the model is flushed.
pub const GROWTH_LIMIT: usize = 256;

/// Default node budget.
pub const DEFAULT_BUDGET: usize = 524269;

/// The encoder between two bits: the graph, the current node, the
/// interval bounds and the bytes emitted so far.
pub type Encoding = (Model, Link, int, int, Seq<u8>);

/// The divisor that isolates bit `k` of a byte, counting from the most
/// significant bit.
pub open spec fn bit_divisor(k: int) -> int
    decreases k,
{
    if k <= 0 {
        128
    } else {
        bit_divisor(k - 1) / 2
    }
}

proof fn lemma_bit_divisor(k: int)
    requires
        0 <= k < 8,
    ensures
        bit_divisor(k) >= 1,
{
    assert(bit_divisor(0) == 128);
    assert(bit_divisor(1) == 64);
    assert(bit_divisor(2) == 32);
    assert(bit_divisor(3) == 16);
    assert(bit_divisor(4) == 8);
    assert(bit_divisor(5) == 4);
    assert(bit_divisor(6) == 2);
    assert(bit_divisor(7) == 1);
}

/// Bit `k` of `b`, most significant first.
pub open spec fn bit_of(b: u8, k: int) -> bool {
    (b as int / bit_divisor(k)) % 2 == 1
}

pub open spec fn initial_encoding() -> Encoding {
    (fresh_model(), root_of(0), 0, WINDOW as int, Seq::empty())
}

/// Coding one bit: the prediction at the current node splits the interval,
/// the side of the bit is kept and renormalized, and the model is updated.
pub open spec fn encode_step(s: Encoding, bit: bool, budget: int) -> Encoding {
    let (m, cur, lo, hi, out) = s;
    let n = node_at(m, cur);
    let mid = split_point(lo, hi, n.zero as int, n.total());
    let (a, b) = narrowed(lo, hi, mid, bit);
    let (lo2, hi2) = renormalized(a, b, bit);
    let out2 = if needs_renorm(a, b) { out.push(top_byte(a)) } else { out };
    let (m2, next) = updated(m, cur, bit, budget);
    (m2, next, lo2, hi2, out2)
}

/// The first `k` bits of `byte` coded from `s`.
pub open spec fn encode_bits(s: Encoding, byte: u8, k: int, budget: int) -> Encoding
    decreases k,
{
    if k <= 0 {
        s
    } else {
        encode_step(encode_bits(s, byte, k - 1, budget), bit_of(byte, k - 1), budget)
    }
}

/// The encoder after the whole of `input`, with the output length at the
/// last growth check.
pub open spec fn encode_bytes(input: Seq<u8>, budget: int) -> (Encoding, int)
    decreases input.len(),
{
    if input.len() == 0 {
        (initial_encoding(), 0)
    } else {
        let (s, mark) = encode_bytes(input.drop_last(), budget);
        let s1 = encode_bits(s, input.last(), 8, budget);
        if input.len() % (CHECK_PERIOD as nat) == 0 {
            let grown = s1.4.len() - mark > GROWTH_LIMIT;
            let s2 = if grown { (fresh_model(), root_of(0), s1.2, s1.3, s1.4) } else { s1 };
            (s2, s1.4.len() as int)
        } else {
            (s1, mark)
        }
    }
}

/// The compressed form of `input`: the coded bits followed by the 3-byte
/// sentinel `max - 1`.
pub open spec fn compressed(input: Seq<u8>, budget: int) -> Seq<u8> {
    let s = encode_bytes(input, budget).0;
    s.4 + be24(s.3 - 1)
}

/// Codes the 8 bits of `byte`, most significant first.
fn encode_byte(graph: &mut StateGraph, cur: Link, iv: &mut Interval, byte: u8, out: &mut Vec<u8>) -> (next: Link)
    requires
        old(graph).wf(),
        old(iv).wf(),
        link_ok(old(graph).pool.len() as int, cur),
    ensures
        final(graph).wf(),
        final(iv).wf(),
        final(graph).budget == old(graph).budget,
        link_ok(final(graph).pool.len() as int, next),
        old(out)@.len() <= final(out)@.len(),
        (final(graph).model(), next, final(iv).min as int, final(iv).max as int, final(out)@)
            == encode_bits(
            (old(graph).model(), cur, old(iv).min as int, old(iv).max as int, old(out)@),
            byte,
            8,
            old(graph).budget as int,
        ),
{
    let ghost s0 = (graph.model(), cur, iv.min as int, iv.max as int, out@);
    let mut cur = cur;
    let mut divisor: u32 = 128;
    let mut k: usize = 0;
    while k < 8
        invariant
            k <= 8,
            divisor == bit_divisor(k as int),
            graph.wf(),
            iv.wf(),
            graph.budget == old(graph).budget,
            link_ok(graph.pool.len() as int, cur),
            old(out)@.len() <= out@.len(),
            (graph.model(), cur, iv.min as int, iv.max as int, out@)
                == encode_bits(s0, byte, k as int, graph.budget as int),
        decreases 8 - k,
    {
        proof {
            assert(bit_divisor(k as int + 1) == bit_divisor(k as int) / 2);
            lemma_bit_divisor(k as int);
        }
        let bit = (byte as u32 / divisor) % 2 == 1;
        let (zero, total) = graph.predict(cur);
        iv.encode_bit(zero, total, bit, out);
        cur = graph.update(cur, bit);
        divisor = divisor / 2;
        k = k + 1;
    }
    cur
}

/// Compresses `input` with a predictor of at most `budget` cloned nodes
/// between flushes.
pub fn compress(input: &[u8], budget: usize) -> (out: Vec<u8>)
    requires
        budget >= 1,
    ensures
        out@ == compressed(input@, budget as int),
{
    let mut graph = StateGraph::new(budget);
    let mut cur = root_of_zero();
    let mut iv = Interval::new();
    let mut out: Vec<u8> = Vec::new();
    let mut mark: usize = 0;
    let mut i: usize = 0;
    while i < input.len()
        invariant
            i <= input.len(),
            graph.wf(),
            iv.wf(),
            graph.budget == budget,
            link_ok(graph.pool.len() as int, cur),
            mark <= out.len(),
            encode_bytes(input@.take(i as int), budget as int)
                == ((graph.model(), cur, iv.min as int, iv.max as int, out@), mark as int),
        decreases input.len() - i,
    {
        proof {
            assert(input@.take(i as int + 1).drop_last() =~= input@.take(i as int));
            assert(input@.take(i as int + 1).last() == input@[i as int]);
        }
        cur = encode_byte(&mut graph, cur, &mut iv, input[i], &mut out);
        i = i + 1;
        if i % CHECK_PERIOD == 0 {
            if out.len() - mark > GROWTH_LIMIT {
                cur = graph.flush();
            }
            mark = out.len();
        }
    }
    proof {
        assert(input@.take(input.len() as int) =~= input@);
    }
    iv.finish(&mut out);
    out
}

/// Why a compressed stream could not be decoded.
#[derive(Clone, Copy, PartialEq, Eq, Structural, Debug)]
pub enum DecodeError {
    /// Fewer than three bytes: the value register cannot be seeded.
    MissingSeed,
}

/// The decoder's model: the graph and the current node.
pub type DecGraph = (Model, Link);

/// The decoder's coder: `min`, `max`, the value register and the input position.
pub type DecCoder = (int, int, int, int);

/// The decoder's output: the bytes written, the input position at the last
/// growth check, the partial byte and the number of bits in it.
pub type DecOut = (Seq<u8>, int, int, int);

pub open spec fn decoding_ok(g: DecGraph, d: DecCoder, input: Seq<u8>) -> bool {
    &&& model_wf(g.0)
    &&& link_ok(g.0.1.len() as int, g.1)
    &&& 0 <= d.0
    &&& d.0 + FLOOR <= d.1 <= WINDOW
    &&& 0 <= d.3 <= input.len()
}

/// The bytes the decoder writes from the given state on. Before each byte
/// it stops if the value register holds the sentinel `max - 1`; each bit is
/// decoded with the prediction at the current node; when renormalization
/// finds no input left the stream has ended and the partial byte is
/// dropped; every 256 bytes written, the model is flushed if more than 256
/// input bytes were consumed since the last check.
pub open spec fn decode_run(g: DecGraph, d: DecCoder, o: DecOut, input: Seq<u8>, budget: int) -> Seq<u8>
    decreases input.len() - d.3, d.1 - d.0
    when decoding_ok(g, d, input)
{
    let (m, cur) = g;
    let (lo, hi, value, pos) = d;
    let (out, pin, c, k) = o;
    if k == 0 && value == hi - 1 {
        out
    } else {
        let n = node_at(m, cur);
        let mid = split_point(lo, hi, n.zero as int, n.total());
        let bit = value >= mid;
        let (a, b) = narrowed(lo, hi, mid, bit);
        if needs_renorm(a, b) && pos >= input.len() {
            out
        } else {
            proof {
                assert(node_ok(m.1.len() as int, n));
                lemma_split_inside(lo, hi, n.zero as int, n.total());
            }
            let (lo2, hi2) = renormalized(a, b, bit);
            let (value2, pos2) = if needs_renorm(a, b) {
                (shifted(value) + input[pos], pos + 1)
            } else {
                (value, pos)
            };
            let g2 = updated(m, cur, bit, budget);
            let c2 = (2 * c + if bit { 1int } else { 0int }) % 256;
            let d2 = (lo2, hi2, value2, pos2);
            if k + 1 < 8 {
                decode_run(g2, d2, (out, pin, c2, k + 1), input, budget)
            } else {
                let out2 = out.push(c2 as u8);
                if out2.len() % (CHECK_PERIOD as nat) == 0 {
                    let g3 = if pos2 - pin > GROWTH_LIMIT { (fresh_model(), root_of(0)) } else { g2 };
                    decode_run(g3, d2, (out2, pos2, 0, 0), input, budget)
                } else {
                    decode_run(g2, d2, (out2, pin, 0, 0), input, budget)
                }
            }
        }
    }
}

/// What decompressing `input` yields: `None` when it holds fewer than three
/// bytes, else the bytes decoded from the seeded value register.
pub open spec fn decompressed(input: Seq<u8>, budget: int) -> Option<Seq<u8>> {
    if input.len() < 3 {
        None
    } else {
        let seed = value_of_be24(input[0], input[1], input[2]);
        Some(
            decode_run(
                (fresh_model(), root_of(0)),
                (0, WINDOW as int, seed, 3),
                (Seq::empty(), 3, 0, 0),
                input,
                budget,
            ),
        )
    }
}

/// Decompresses `input` with the node budget it was compressed with.
pub fn decompress(input: &[u8], budget: usize) -> (r: Result<Vec<u8>, DecodeError>)
    requires
        budget >= 1,
    ensures
        r is Err <==> input@.len() < 3,
        r matches Err(e) ==> e == DecodeError::MissingSeed,
        r matches Ok(out) ==> decompressed(input@, budget as int) == Some(out@),
{
    let mut dec = match Decoder::start(input) {
        Some(d) => d,
        None => return Err(DecodeError::MissingSeed),
    };
    let mut graph = StateGraph::new(budget);
    let mut cur = root_of_zero();
    let mut out: Vec<u8> = Vec::new();
    let mut pin: usize = 3;
    let mut c: u32 = 0;
    let mut k: usize = 0;
    let ghost target = decompressed(input@, budget as int);
    loop
        invariant_except_break
            graph.wf(),
            dec.wf(input@),
            graph.budget == budget,
            link_ok(graph.pool.len() as int, cur),
            k < 8,
            c < 256,
            pin <= dec.pos,
            target == Some(decode_run(
                (graph.model(), cur),
                (dec.interval.min as int, dec.interval.max as int, dec.value as int, dec.pos as int),
                (out@, pin as int, c as int, k as int),
                input@,
                budget as int,
            )),
        ensures
            target == Some(out@),
        decreases input@.len() - dec.pos, dec.interval.max - dec.interval.min,
    {
        if k == 0 && dec.at_end() {
            break;
        }
        let (zero, total) = graph.predict(cur);
        proof {
            lemma_split_inside(dec.interval.min as int, dec.interval.max as int, zero as int, total as int);
        }
        match dec.decode_bit(zero, total, input) {
            None => {
                break;
            },
            Some(bit) => {
                cur = graph.update(cur, bit);
                c = (2 * c + if bit { 1u32 } else { 0u32 }) % 256;
                k = k + 1;
                if k == 8 {
                    out.push(c as u8);
                    c = 0;
                    k = 0;
                    if out.len() % CHECK_PERIOD == 0 {
                        if dec.pos - pin > GROWTH_LIMIT {
                            cur = graph.flush();
                        }
                        pin = dec.pos;
                    }
                }
            },
        }
    }
    Ok(out)
}

/// Compression is a function of the input and the budget: two outputs that
/// both meet `compress`'s contract for the same arguments are the same bytes.
pub proof fn lemma_compress_deterministic(input: Seq<u8>, budget: int, first: Seq<u8>, second: Seq<u8>)
    requires
        first == compressed(input, budget),
        second == compressed(input, budget),
    ensures
        first == second,
{
}

/// The empty input compresses to the three sentinel bytes alone, and those
/// decompress to the empty sequence.
pub proof fn lemma_empty_input(budget: int)
    requires
        budget >= 1,
    ensures
        compressed(Seq::empty(), budget) == seq![0xFFu8, 0xFFu8, 0xFFu8],
        decompressed(compressed(Seq::empty(), budget), budget) == Some(Seq::<u8>::empty()),
{
    let empty = Seq::<u8>::empty();
    assert(encode_bytes(empty, budget) == (initial_encoding(), 0int));
    let out = compressed(empty, budget);
    assert(out =~= seq![0xFFu8, 0xFFu8, 0xFFu8]);
    assert(value_of_be24(out[0], out[1], out[2]) == WINDOW - 1);
    crate::graph::lemma_fresh_wf();
}

fn root_of_zero() -> (r: Link)
    ensures
        r == root_of(0),
{
    Link::Grid { context: 0, position: 0 }
}

} // verus!
