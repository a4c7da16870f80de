use reda::formats::bitpack::{bits_per_entry, pack, required_longs, unpack};

#[test]
fn bits_per_entry_has_a_floor_of_two() {
    assert_eq!(bits_per_entry(1), 2);
    assert_eq!(bits_per_entry(2), 2);
    assert_eq!(bits_per_entry(4), 2);
    assert_eq!(bits_per_entry(5), 3);
    assert_eq!(bits_per_entry(8), 3);
    assert_eq!(bits_per_entry(9), 4);
    assert_eq!(bits_per_entry(256), 8);
    assert_eq!(bits_per_entry(257), 9);
}

#[test]
fn pack_then_unpack_roundtrips() {
    for bits in 2..=16u32 {
        let max = (1u32 << bits) - 1;
        let values: Vec<u32> = (0..100).map(|i| (i * 7) % (max + 1)).collect();
        let packed = pack(&values, bits);
        let unpacked = unpack(&packed, bits, values.len());
        assert_eq!(unpacked, values, "roundtrip failed at bits={bits}");
    }
}

#[test]
fn entries_span_across_long_boundaries() {
    let values: Vec<u32> = (0..25).map(|i| i % 8).collect();
    let packed = pack(&values, 3);
    let unpacked = unpack(&packed, 3, values.len());
    assert_eq!(unpacked[21], values[21], "entry 21 must span two longs");
    assert_eq!(unpacked, values);
}

#[test]
fn unpack_stops_at_requested_count() {
    let values: Vec<u32> = vec![1, 2, 3];
    let packed = pack(&values, 2);
    let unpacked = unpack(&packed, 2, 3);
    assert_eq!(unpacked.len(), 3);
}

#[test]
fn truncated_input_yields_zeros_not_partial_values() {
    let values: Vec<u32> = (0..25).map(|i| (i % 7) + 1).collect();
    let full = pack(&values, 3);
    assert!(full.len() >= 2, "test needs at least two longs");

    let truncated = &full[..1];
    let unpacked = unpack(truncated, 3, values.len());

    assert_eq!(unpacked[21], 0, "straddling entry must be 0 when truncated");
    assert_eq!(unpacked[24], 0, "entry beyond the data must be 0");
}

#[test]
fn required_longs_matches_what_pack_produces() {
    for bits in 2..=16u32 {
        for count in [0usize, 1, 7, 32, 100] {
            let values: Vec<u32> = (0..count).map(|i| (i as u32) % 4).collect();
            let packed = pack(&values, bits);
            assert_eq!(
                packed.len(),
                required_longs(count, bits),
                "mismatch at bits={bits} count={count}"
            );
        }
    }
}
