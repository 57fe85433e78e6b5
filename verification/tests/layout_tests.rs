//! Tests for the dispatch-table layout: offset formula, ordering, and
//! the partition of byte values into slots and gaps.
use evm_dispatch::arith::u32_to_256;
use evm_dispatch::eval::selector_byte;
use evm_dispatch::layout::{build_dispatch_table, generate_function_addresses};

#[test]
fn addresses_are_spaced_by_0x1000() {
    let addrs = generate_function_addresses(3);
    assert_eq!(addrs, vec![0xf01000, 0xf02000, 0xf03000]);
    assert!(generate_function_addresses(0).is_empty());
}

#[test]
fn two_selectors_layout() {
    // q == 1, shift 0: selector 1 -> byte 1, selector 2 -> byte 2.
    let q = u32_to_256(1);
    let sels = vec![1u32, 2u32];
    let addrs = vec![0xf01000u32, 0xf02000u32];
    let layout = build_dispatch_table(&sels, &addrs, &q, 0, 78, 6);

    assert_eq!(layout.entries.len(), 2);
    let e0 = &layout.entries[0];
    let e1 = &layout.entries[1];
    assert_eq!((e0.byte_value, e0.selector, e0.address, e0.offset), (1, 1, 0xf01000, 78 + 6));
    assert_eq!((e1.byte_value, e1.selector, e1.address, e1.offset), (2, 2, 0xf02000, 78 + 12));

    // gaps: byte 0, and bytes 3..=255
    assert_eq!(layout.gaps.len(), 2);
    assert_eq!((layout.gaps[0].first, layout.gaps[0].last), (0, 0));
    assert_eq!((layout.gaps[1].first, layout.gaps[1].last), (3, 255));
}

#[test]
fn offsets_follow_the_formula_and_are_unique() {
    let q = u32_to_256(1);
    let sels = vec![0x40u32, 0x10u32, 0x80u32];
    let addrs = vec![1u32, 2u32, 3u32];
    let preamble = 100usize;
    let slot = 7usize;
    let layout = build_dispatch_table(&sels, &addrs, &q, 0, preamble, slot);
    assert_eq!(layout.entries.len(), 3);
    let mut prev_offset: Option<usize> = None;
    for e in layout.entries.iter() {
        assert_eq!(e.offset, preamble + e.byte_value as usize * slot);
        if let Some(p) = prev_offset {
            assert!(p < e.offset);
        }
        prev_offset = Some(e.offset);
    }
}

#[test]
fn slots_and_gaps_partition_all_byte_values() {
    let q = u32_to_256(1);
    let sels = vec![5u32, 0u32, 255u32, 100u32];
    let addrs = vec![10u32, 20u32, 30u32, 40u32];
    let layout = build_dispatch_table(&sels, &addrs, &q, 0, 78, 6);

    for bv in 0u32..=255 {
        let bv = bv as u8;
        let occupied = sels.iter().any(|&s| selector_byte(s, &q, 0) == bv);
        let in_entries = layout.entries.iter().any(|e| e.byte_value == bv);
        let in_gaps = layout.gaps.iter().any(|g| g.first <= bv && bv <= g.last);
        assert_eq!(occupied, in_entries);
        assert_eq!(occupied, !in_gaps);
        assert_ne!(in_entries, in_gaps);
    }
    // gap ranges are sorted and disjoint
    for w in layout.gaps.windows(2) {
        assert!(w[0].last < w[1].first);
    }
    for g in layout.gaps.iter() {
        assert!(g.first <= g.last);
    }
}

#[test]
fn empty_selector_set_is_one_big_gap() {
    let q = u32_to_256(1);
    let sels: Vec<u32> = Vec::new();
    let addrs: Vec<u32> = Vec::new();
    let layout = build_dispatch_table(&sels, &addrs, &q, 0, 78, 6);
    assert!(layout.entries.is_empty());
    assert_eq!(layout.gaps.len(), 1);
    assert_eq!((layout.gaps[0].first, layout.gaps[0].last), (0, 255));
}

#[test]
fn every_selector_gets_exactly_one_slot() {
    let q = u32_to_256(1);
    let sels = vec![9u32, 33u32, 7u32];
    let addrs = vec![0xa0u32, 0xb0u32, 0xc0u32];
    let layout = build_dispatch_table(&sels, &addrs, &q, 0, 0, 1);
    assert_eq!(layout.entries.len(), sels.len());
    for (k, &s) in sels.iter().enumerate() {
        let matching: Vec<_> = layout.entries.iter().filter(|e| e.selector == s).collect();
        assert_eq!(matching.len(), 1);
        assert_eq!(matching[0].address, addrs[k]);
        assert_eq!(matching[0].byte_value, selector_byte(s, &q, 0));
    }
}
