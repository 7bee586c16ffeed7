use dmc::coder::{Decoder, Interval, FLOOR, WINDOW};
use dmc::graph::{Link, StateGraph, CONTEXTS, PRIOR, STEP};

#[test]
fn split_of_whole_window_at_one_half() {
    let iv = Interval::new();
    assert_eq!(iv.split(1, 2), 0x7F_FFFF);
}

#[test]
fn split_is_clamped_off_both_ends() {
    let iv = Interval { min: 1000, max: 1300 };
    assert_eq!(iv.split(0, 5), 1001);
    assert_eq!(iv.split(5, 5), 1298);
}

#[test]
fn split_stays_strictly_inside() {
    let mut state: u32 = 99;
    for _ in 0..5_000 {
        state = state.wrapping_mul(1_664_525).wrapping_add(1_013_904_223);
        let width = 256 + (state % (WINDOW - 256));
        state = state.wrapping_mul(1_664_525).wrapping_add(1_013_904_223);
        let min = state % (WINDOW - width + 1);
        state = state.wrapping_mul(1_664_525).wrapping_add(1_013_904_223);
        let total = 1 + (state as u64 % 1_000_000);
        let zero = (state as u64 / 7) % (total + 1);
        let iv = Interval { min, max: min + width };
        let mid = iv.split(zero, total);
        assert!(iv.min < mid && mid < iv.max - 1);
    }
}

#[test]
fn encode_bit_without_renormalization() {
    let mut iv = Interval::new();
    let mut out = Vec::new();
    iv.encode_bit(1, 2, true, &mut out);
    assert_eq!((iv.min, iv.max), (0x7F_FFFF, WINDOW));
    assert!(out.is_empty());
}

#[test]
fn encode_bit_renormalizes_one_byte() {
    let mut iv = Interval { min: 0x12_3400, max: 0x12_3400 + 300 };
    let mut out = Vec::new();
    // mid = min + 299 / 2 = min + 149; a 0-bit keeps [min, min + 149)
    iv.encode_bit(1, 2, false, &mut out);
    assert_eq!(out, vec![0x12]);
    assert_eq!(iv.min, 0x34_0000);
    assert_eq!(iv.max, 0x34_0000 + 149 * 256);
    assert!(iv.max - iv.min >= FLOOR);
}

#[test]
fn encode_bit_one_lowers_max_before_shift() {
    let mut iv = Interval { min: 0x12_3400, max: 0x12_3400 + 300 };
    let mut out = Vec::new();
    // mid = min + 149; a 1-bit keeps [min + 149, min + 300), then max drops by one
    iv.encode_bit(1, 2, true, &mut out);
    assert_eq!(out, vec![0x12]);
    assert_eq!(iv.min, (0x3400 + 149) * 256);
    assert_eq!(iv.max, (0x3400 + 299) * 256);
}

#[test]
fn collapsed_shift_reopens_to_window() {
    let mut iv = Interval { min: 0x12_FFF0, max: 0x12_FFF0 + 300 };
    let mut out = Vec::new();
    // mid = min + 149 = 0x130085; a 0-bit keeps [0x12FFF0, 0x130085), whose
    // shifted bounds cross: max reopens to the window
    iv.encode_bit(1, 2, false, &mut out);
    assert_eq!(out, vec![0x12]);
    assert_eq!(iv.min, 0xFF_F000);
    assert_eq!(iv.max, WINDOW);
}

#[test]
fn finish_writes_max_minus_one() {
    let mut iv = Interval { min: 5, max: 0xAB_CDEF };
    let mut out = vec![9];
    iv.finish(&mut out);
    assert_eq!(out, vec![9, 0xAB, 0xCD, 0xEE]);
    assert_eq!(iv.min, 0xAB_CDEE);
}

#[test]
fn decoder_seed_and_end() {
    assert!(Decoder::start(&[1, 2]).is_none());
    let d = Decoder::start(&[0x01, 0x02, 0x03, 0x04]).unwrap();
    assert_eq!(d.value, 0x01_0203);
    assert_eq!(d.pos, 3);
    assert!(!d.at_end());
    let e = Decoder::start(&[0xFF, 0xFF, 0xFF]).unwrap();
    assert!(e.at_end());
}

#[test]
fn decode_bit_reads_on_renormalization() {
    let input = [0x12u8, 0x34, 0x56, 0x78];
    let mut d = Decoder { interval: Interval { min: 0x12_3400, max: 0x12_3400 + 300 }, value: 0x12_3456, pos: 3 };
    // mid = 0x123400 + 149 = 0x123495; value is below it: a 0-bit
    assert_eq!(d.decode_bit(1, 2, &input), Some(false));
    assert_eq!(d.value, 0x34_5678);
    assert_eq!(d.pos, 4);
    assert_eq!(d.interval.min, 0x34_0000);
    // another narrow interval with no input left: the stream has ended
    let mut e = Decoder { interval: Interval { min: 0, max: 300 }, value: 10, pos: 4 };
    assert_eq!(e.decode_bit(1, 2, &input), None);
}

#[test]
fn fresh_graph_predicts_one_half_everywhere() {
    let g = StateGraph::new(10);
    assert_eq!(g.cursor(), 0);
    for c in 0..CONTEXTS {
        assert_eq!(g.predict(Link::Grid { context: c, position: 0 }), (PRIOR, 2 * PRIOR));
    }
}

#[test]
fn fresh_graph_topology() {
    let g = StateGraph::new(10);
    let n = g.node(Link::Grid { context: 3, position: 5 });
    assert_eq!(n.next_zero, Link::Grid { context: 3, position: 11 });
    assert_eq!(n.next_one, Link::Grid { context: 3, position: 12 });
    // last level: position 127 + 73 after the bits 1001001 leads to byte 146 or 147
    let leaf = g.node(Link::Grid { context: 0, position: 200 });
    assert_eq!(leaf.next_zero, Link::Grid { context: 146, position: 0 });
    assert_eq!(leaf.next_one, Link::Grid { context: 147, position: 0 });
}

#[test]
fn update_counts_and_follows_edge() {
    let mut g = StateGraph::new(10);
    let root = Link::Grid { context: 0, position: 0 };
    let next = g.update(root, true);
    assert_eq!(next, Link::Grid { context: 0, position: 2 });
    let n = g.node(root);
    assert_eq!((n.zero, n.one), (PRIOR, PRIOR + STEP));
    assert_eq!(g.cursor(), 0);
}

#[test]
fn update_clones_busy_target() {
    let mut g = StateGraph::new(10);
    let a = Link::Grid { context: 0, position: 0 };
    let b = Link::Grid { context: 0, position: 1 };
    // three passes from the root along its 0-edge, and extra evidence at the target
    for _ in 0..2 {
        g.update(a, false);
    }
    for _ in 0..5 {
        g.update(b, false);
    }
    // root.zero = 11, target total = 2 + 25 = 27 >= 10 + 11: the target is cloned
    let next = g.update(a, false);
    assert_eq!(next, Link::Pool { index: 0 });
    assert_eq!(g.cursor(), 1);
    let clone = g.node(next);
    assert_eq!((clone.zero, clone.one), (26 * 11 / 27, 11 / 27));
    let rest = g.node(b);
    assert_eq!((rest.zero, rest.one), (26 - 26 * 11 / 27, 1));
    assert_eq!(g.node(a).zero, 16);
}

#[test]
fn update_flushes_when_pool_is_full() {
    let mut g = StateGraph::new(1);
    let a = Link::Grid { context: 0, position: 0 };
    let b = Link::Grid { context: 0, position: 1 };
    for _ in 0..2 {
        g.update(a, false);
    }
    for _ in 0..5 {
        g.update(b, false);
    }
    let next = g.update(a, false);
    assert_eq!(next, a);
    assert_eq!(g.cursor(), 0);
    assert_eq!(g.predict(a), (PRIOR, 2 * PRIOR));
}

#[test]
fn interval_stays_settled_through_coding() {
    let mut iv = Interval::new();
    let mut out = Vec::new();
    let mut state: u32 = 5;
    for _ in 0..20_000 {
        state = state.wrapping_mul(1_664_525).wrapping_add(1_013_904_223);
        let total = 1 + (state as u64 % 5_000);
        let zero = (state as u64 >> 8) % (total + 1);
        let bit = (state >> 29) & 1 == 1;
        iv.encode_bit(zero, total, bit, &mut out);
        assert!(iv.min < iv.max && iv.max <= WINDOW);
        assert!(iv.max - iv.min >= FLOOR);
    }
    assert!(!out.is_empty());
}
