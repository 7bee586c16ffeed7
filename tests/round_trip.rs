use dmc::{compress, decompress, DecodeError, DEFAULT_BUDGET};

fn pseudo_random(len: usize, seed: u32) -> Vec<u8> {
    let mut state = seed;
    let mut v = Vec::with_capacity(len);
    for _ in 0..len {
        state = state.wrapping_mul(1_103_515_245).wrapping_add(12_345);
        v.push((state >> 16) as u8);
    }
    v
}

fn text(len: usize) -> Vec<u8> {
    let words = b"the quick brown fox jumps over the lazy dog while markov models adapt ";
    (0..len).map(|i| words[(i * 7 + i / 13) % words.len()]).collect()
}

fn assert_round_trip(input: &[u8], budget: usize) {
    let packed = compress(input, budget);
    let unpacked = decompress(&packed, budget).expect("stream has a seed");
    assert_eq!(unpacked, input);
}

#[test]
fn round_trip_empty() {
    assert_round_trip(&[], DEFAULT_BUDGET);
}

#[test]
fn round_trip_single_bytes() {
    for b in [0u8, 1, 0x41, 0x7F, 0x80, 0xFE] {
        assert_round_trip(&[b], DEFAULT_BUDGET);
    }
}

#[test]
fn trailing_all_ones_byte_is_not_recovered() {
    // Eight 1-bits keep max at the window's top and emit nothing, so the
    // stream is the bare sentinel, the same as for the empty input.
    assert_eq!(compress(&[0xFF], DEFAULT_BUDGET), vec![0xFF, 0xFF, 0xFF]);
    assert_eq!(decompress(&compress(&[0xFF], DEFAULT_BUDGET), DEFAULT_BUDGET), Ok(Vec::new()));
}

#[test]
fn round_trip_text_default_budget() {
    assert_round_trip(&text(20_000), DEFAULT_BUDGET);
}

#[test]
fn round_trip_random_default_budget() {
    assert_round_trip(&pseudo_random(20_000, 7), DEFAULT_BUDGET);
}

#[test]
fn round_trip_budget_one() {
    assert_round_trip(&text(3_000), 1);
    assert_round_trip(&pseudo_random(3_000, 3), 1);
}

#[test]
fn round_trip_small_budgets() {
    for budget in [2usize, 5, 64, 1000] {
        assert_round_trip(&text(5_000), budget);
        assert_round_trip(&pseudo_random(2_000, budget as u32), budget);
    }
}

#[test]
fn round_trip_all_byte_values() {
    let mut input: Vec<u8> = (0..4096u32).map(|i| (i % 256) as u8).collect();
    input.push(0);
    assert_round_trip(&input, DEFAULT_BUDGET);
}

#[test]
fn round_trip_long_runs() {
    let mut input = vec![0u8; 5_000];
    input.extend(vec![0xFFu8; 5_000]);
    input.extend(vec![0x41u8; 5_000]);
    assert_round_trip(&input, DEFAULT_BUDGET);
    assert_round_trip(&input, 1);
}

#[test]
fn compression_is_deterministic() {
    let input = text(10_000);
    assert_eq!(compress(&input, 1000), compress(&input, 1000));
    let noise = pseudo_random(5_000, 11);
    assert_eq!(compress(&noise, DEFAULT_BUDGET), compress(&noise, DEFAULT_BUDGET));
}

#[test]
fn empty_input_is_sentinel_only() {
    let packed = compress(&[], DEFAULT_BUDGET);
    assert_eq!(packed, vec![0xFF, 0xFF, 0xFF]);
    assert_eq!(decompress(&packed, DEFAULT_BUDGET), Ok(Vec::new()));
    assert_eq!(compress(&[], 1).len(), 3);
}

#[test]
fn repeated_byte_compresses_well() {
    let input = vec![b'a'; 10_000];
    let packed = compress(&input, DEFAULT_BUDGET);
    assert!(packed.len() < 500, "got {} bytes", packed.len());
    assert_eq!(decompress(&packed, DEFAULT_BUDGET), Ok(input));
}

#[test]
fn text_compresses_below_input_size() {
    let input = text(50_000);
    let packed = compress(&input, DEFAULT_BUDGET);
    assert!(packed.len() < input.len() / 2, "got {} bytes", packed.len());
}

#[test]
fn short_stream_is_missing_seed() {
    assert_eq!(decompress(&[], DEFAULT_BUDGET), Err(DecodeError::MissingSeed));
    assert_eq!(decompress(&[1, 2], DEFAULT_BUDGET), Err(DecodeError::MissingSeed));
}

#[test]
fn truncated_stream_stops_without_error() {
    let input = text(2_000);
    let packed = compress(&input, DEFAULT_BUDGET);
    let cut = &packed[..packed.len() / 2];
    let unpacked = decompress(cut, DEFAULT_BUDGET).expect("seed is present");
    assert!(unpacked.len() < input.len());
}

#[test]
fn sentinel_seed_decodes_to_nothing() {
    assert_eq!(decompress(&[0xFF, 0xFF, 0xFF, 0x12, 0x34], DEFAULT_BUDGET), Ok(Vec::new()));
}
