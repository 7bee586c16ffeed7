//! The binary arithmetic coder: a half-open interval `[min, max)` inside a
//! 24-bit window, narrowed once per bit and renormalized a byte at a time.

use vstd::prelude::*;

verus! {

/// Upper end of the coding window (exclusive bound of `max`).
pub const WINDOW: u32 = 0x100_0000;

/// Width under which the interval is renormalized.
pub const FLOOR: u32 = 256;

/// Largest total weight a prediction may carry, so that the split fits in 64 bits.
pub const MAX_TOTAL: u64 = 0x8000_0000;

/// The point at which `[min, max)` is split for a probability `zero / total`
/// of a 0-bit, moved off both ends so that each side stays non-empty.
pub open spec fn split_point(min: int, max: int, zero: int, total: int) -> int {
    let m = min + (max - min - 1) * zero / total;
    let m = if m == min { m + 1 } else { m };
    if m == max - 1 { m - 1 } else { m }
}

/// The low 16 bits of `x` moved up by one byte.
pub open spec fn shifted(x: int) -> int {
    (x % 0x1_0000) * 0x100
}

/// The interval once the side of `mid` that `bit` selects is kept.
pub open spec fn narrowed(min: int, max: int, mid: int, bit: bool) -> (int, int) {
    if bit {
        (mid, max)
    } else {
        (min, mid)
    }
}

/// Whether a narrowed interval gives up its top byte.
pub open spec fn needs_renorm(min: int, max: int) -> bool {
    max - min < FLOOR
}

/// The interval after renormalization: when it is narrower than the floor,
/// a 1-bit first lowers `max` by one, both bounds are shifted up by a byte,
/// and an interval that the shift collapsed is reopened up to the window.
pub open spec fn renormalized(min: int, max: int, bit: bool) -> (int, int) {
    if !needs_renorm(min, max) {
        (min, max)
    } else {
        let top = if bit { max - 1 } else { max };
        let lo = shifted(min);
        let hi = shifted(top);
        if lo >= hi {
            (lo, WINDOW as int)
        } else {
            (lo, hi)
        }
    }
}

/// The byte that leaves the window on renormalization: bits 16 to 23 of `min`.
pub open spec fn top_byte(min: int) -> u8 {
    (min / 0x1_0000) as u8
}

/// The three bytes of a 24-bit value, most significant first.
pub open spec fn be24(v: int) -> Seq<u8> {
    seq![(v / 0x1_0000) as u8, ((v / 0x100) % 0x100) as u8, (v % 0x100) as u8]
}

/// The 24-bit value of three bytes, most significant first.
pub open spec fn value_of_be24(b0: u8, b1: u8, b2: u8) -> int {
    b0 * 0x1_0000 + b1 * 0x100 + b2
}

/// For any probability `zero / total` and any settled interval, the
/// clamped split point lies strictly inside it: `min < mid < max - 1`, so
/// both sides of the split are non-empty.
pub proof fn lemma_split_inside(min: int, max: int, zero: int, total: int)
    requires
        0 <= min,
        min + FLOOR <= max,
        0 <= zero <= total,
        0 < total,
    ensures
        min < split_point(min, max, zero, total) < max - 1,
{
    let width = max - min - 1;
    assert(0 <= width * zero <= width * total) by (nonlinear_arith)
        requires 0 <= zero <= total, 0 <= width;
    assert(0 <= (width * zero) / total <= width) by (nonlinear_arith)
        requires 0 <= width * zero <= width * total, 0 < total;
}

proof fn lemma_shifted_bounds(x: int)
    requires
        0 <= x,
    ensures
        0 <= shifted(x) <= 0xFF_FF00,
        shifted(x) % 0x100 == 0,
{
    assert(0 <= x % 0x1_0000 < 0x1_0000);
    assert(0 <= (x % 0x1_0000) * 0x100 <= 0xFFFF * 0x100) by (nonlinear_arith)
        requires 0 <= x % 0x1_0000 < 0x1_0000;
    assert(((x % 0x1_0000) * 0x100) % 0x100 == 0) by (nonlinear_arith);
}

/// After renormalization the interval is non-empty, inside the window and
/// at least as wide as the floor: one pass always restores it.
pub proof fn lemma_renormalized_settles(min: int, max: int, bit: bool)
    requires
        0 <= min < max <= WINDOW,
    ensures
        ({
            let (lo, hi) = renormalized(min, max, bit);
            0 <= lo < hi <= WINDOW && hi - lo >= FLOOR
        }),
{
    if needs_renorm(min, max) {
        let top = if bit { max - 1 } else { max };
        lemma_shifted_bounds(min);
        lemma_shifted_bounds(top);
        let lo = shifted(min);
        let hi = shifted(top);
        if lo < hi {
            assert(hi - lo >= 0x100) by (nonlinear_arith)
                requires lo < hi, lo % 0x100 == 0, hi % 0x100 == 0;
        }
    }
}

/// Renormalization always leaves a settled interval: one pass restores the
/// floor./// The coder's interval `[min, max)`.
pub struct Interval {
    pub min: u32,
    pub max: u32,
}

impl Interval {
    /// A settled interval: non-empty, inside the window and at least as wide
    /// as the renormalization floor.
    pub open spec fn wf(&self) -> bool {
        self.min < self.max <= WINDOW && self.max - self.min >= FLOOR
    }

    /// The whole window.
    pub fn new() -> (r: Interval)
        ensures
            r.min == 0,
            r.max == WINDOW,
            r.wf(),
    {
        Interval { min: 0, max: WINDOW }
    }

    /// The split point for a probability `zero / total` that the next bit is 0.
    /// It lies strictly inside the interval and below `max - 1`.
    pub fn split(&self, zero: u64, total: u64) -> (mid: u32)
        requires
            self.wf(),
            0 < total <= MAX_TOTAL,
            zero <= total,
        ensures
            mid == split_point(self.min as int, self.max as int, zero as int, total as int),
            self.min < mid < self.max - 1,
    {
        let width: u64 = (self.max - self.min - 1) as u64;
        assert(width * zero <= width * total) by (nonlinear_arith)
            requires zero <= total;
        assert(width * total <= 0x100_0000 * 0x8000_0000) by (nonlinear_arith)
            requires width <= 0x100_0000, total <= 0x8000_0000;
        let offset: u64 = width * zero / total;
        assert(offset <= width) by (nonlinear_arith)
            requires
                offset as int == (width as int * zero as int) / (total as int),
                width * zero <= width * total,
                0 < total,
        ;
        let mut mid: u32 = self.min + offset as u32;
        if mid == self.min {
            mid = mid + 1;
        }
        if mid == self.max - 1 {
            mid = mid - 1;
        }
        mid
    }

    /// Keeps the side of `mid` that `bit` selects and renormalizes; returns
    /// the byte that left the window, if any.
    fn narrow(&mut self, mid: u32, bit: bool) -> (out: Option<u8>)
        requires
            old(self).wf(),
            old(self).min < mid < old(self).max - 1,
        ensures
            final(self).wf(),
            ({
                let (a, b) = narrowed(old(self).min as int, old(self).max as int, mid as int, bit);
                &&& (final(self).min as int, final(self).max as int) == renormalized(a, b, bit)
                &&& out == if needs_renorm(a, b) { Some(top_byte(a)) } else { None::<u8> }
            }),
    {
        if bit {
            self.min = mid;
        } else {
            self.max = mid;
        }
        proof {
            lemma_renormalized_settles(self.min as int, self.max as int, bit);
        }
        if self.max - self.min < FLOOR {
            if bit {
                self.max = self.max - 1;
            }
            let byte: u8 = (self.min / 0x1_0000) as u8;
            self.min = (self.min % 0x1_0000) * 0x100;
            self.max = (self.max % 0x1_0000) * 0x100;
            if self.min >= self.max {
                self.max = WINDOW;
            }
            Some(byte)
        } else {
            None
        }
    }

    /// Codes one bit with probability `zero / total` of a 0-bit, appending to
    /// `out` the byte that renormalization emits, if any.
    pub fn encode_bit(&mut self, zero: u64, total: u64, bit: bool, out: &mut Vec<u8>)
        requires
            old(self).wf(),
            0 < total <= MAX_TOTAL,
            zero <= total,
        ensures
            final(self).wf(),
            ({
                let mid = split_point(old(self).min as int, old(self).max as int, zero as int, total as int);
                let (a, b) = narrowed(old(self).min as int, old(self).max as int, mid, bit);
                &&& (final(self).min as int, final(self).max as int) == renormalized(a, b, bit)
                &&& final(out)@ == if needs_renorm(a, b) {
                    old(out)@.push(top_byte(a))
                } else {
                    old(out)@
                }
            }),
    {
        let mid = self.split(zero, total);
        match self.narrow(mid, bit) {
            Some(byte) => out.push(byte),
            None => {},
        }
    }

    /// Ends the stream: `min` becomes `max - 1` and its three bytes are
    /// appended as the terminal sentinel.
    pub fn finish(&mut self, out: &mut Vec<u8>)
        requires
            old(self).wf(),
        ensures
            final(self).max == old(self).max,
            final(self).min == old(self).max - 1,
            final(out)@ == old(out)@ + be24(old(self).max - 1),
    {
        self.min = self.max - 1;
        let v = self.min;
        out.push((v / 0x1_0000) as u8);
        out.push(((v / 0x100) % 0x100) as u8);
        out.push((v % 0x100) as u8);
        assert(final(out)@ =~= old(out)@ + be24(old(self).max - 1));
    }
}

/// The decoding side: the interval, the 24-bit value register, and the
/// position of the next unread input byte.
pub struct Decoder {
    pub interval: Interval,
    pub value: u32,
    pub pos: usize,
}

impl Decoder {
    pub open spec fn wf(&self, input: Seq<u8>) -> bool {
        self.interval.wf() && self.value < WINDOW && self.pos <= input.len()
    }

    /// Seeds the value register from the first three input bytes; `None`
    /// when fewer than three are available.
    pub fn start(input: &[u8]) -> (r: Option<Decoder>)
        ensures
            r is None <==> input@.len() < 3,
            r matches Some(d) ==> {
                &&& d.wf(input@)
                &&& d.interval.min == 0
                &&& d.interval.max == WINDOW
                &&& d.pos == 3
                &&& d.value == value_of_be24(input@[0], input@[1], input@[2])
            },
    {
        if input.len() < 3 {
            return None;
        }
        let value: u32 = input[0] as u32 * 0x1_0000 + input[1] as u32 * 0x100 + input[2] as u32;
        Some(Decoder { interval: Interval::new(), value, pos: 3 })
    }

    /// Whether the value register holds the terminal sentinel `max - 1`.
    pub fn at_end(&self) -> (r: bool)
        requires
            self.interval.wf(),
        ensures
            r == (self.value == self.interval.max - 1),
    {
        self.value == self.interval.max - 1
    }

    /// Decodes one bit with probability `zero / total` of a 0-bit, reading
    /// the next input byte on renormalization. `None` when that byte is
    /// missing: the stream has ended.
    pub fn decode_bit(&mut self, zero: u64, total: u64, input: &[u8]) -> (r: Option<bool>)
        requires
            old(self).wf(input@),
            0 < total <= MAX_TOTAL,
            zero <= total,
        ensures
            ({
                let (lo, hi) = (old(self).interval.min as int, old(self).interval.max as int);
                let mid = split_point(lo, hi, zero as int, total as int);
                let bit = old(self).value >= mid;
                let (a, b) = narrowed(lo, hi, mid, bit);
                if !needs_renorm(a, b) {
                    &&& r == Some(bit)
                    &&& final(self).interval.min == a
                    &&& final(self).interval.max == b
                    &&& final(self).value == old(self).value
                    &&& final(self).pos == old(self).pos
                } else if old(self).pos < input@.len() {
                    &&& r == Some(bit)
                    &&& (final(self).interval.min as int, final(self).interval.max as int)
                        == renormalized(a, b, bit)
                    &&& final(self).value == shifted(old(self).value as int) + input@[old(self).pos as int]
                    &&& final(self).pos == old(self).pos + 1
                } else {
                    r is None
                }
            }),
            r is Some ==> final(self).wf(input@),
    {
        let mid = self.interval.split(zero, total);
        let bit = self.value >= mid;
        if bit {
            if self.interval.max - mid < FLOOR && self.pos >= input.len() {
                return None;
            }
        } else {
            if mid - self.interval.min < FLOOR && self.pos >= input.len() {
                return None;
            }
        }
        match self.interval.narrow(mid, bit) {
            Some(_) => {
                proof {
                    lemma_shifted_bounds(self.value as int);
                }
                self.value = (self.value % 0x1_0000) * 0x100 + input[self.pos] as u32;
                self.pos = self.pos + 1;
            },
            None => {},
        }
        Some(bit)
    }
}

} // verus!
