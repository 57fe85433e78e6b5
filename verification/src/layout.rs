//! Lays out the dispatch jump table for an accepted mapping: one
//! fixed-size slot per occupied byte value after a fixed-size preamble,
//! with the unoccupied byte values reported as contiguous gap ranges.
use vstd::prelude::*;
use vstd::arithmetic::mul::lemma_mul_strict_inequality;
use vstd::arithmetic::mul::lemma_mul_inequality;
use crate::arith::wf_u256;
use crate::eval::{induced_byte, collision_free};

verus! {

/// One occupied slot of the jump table: the byte value a selector is
/// mapped to, the selector, its target address, and the slot's byte
/// offset from the start of the dispatcher code.
pub struct DispatchSlot {
    pub offset: usize,
    pub byte_value: u8,
    pub selector: u32,
    pub address: u32,
}

/// A maximal contiguous range of unoccupied byte values (inclusive).
pub struct GapRange {
    pub first: u8,
    pub last: u8,
}

/// The computed table: slots ordered by offset, plus the gap ranges.
pub struct DispatchLayout {
    pub entries: Vec<DispatchSlot>,
    pub gaps: Vec<GapRange>,
}

/// Some selector of the set is mapped to byte value bv.
pub open spec fn occupied(sels: Seq<u32>, q: Seq<u8>, shift: u32, bv: int) -> bool {
    exists|k: int| 0 <= k < sels.len() && induced_byte(sels[k], q, shift) == bv
}

/// Byte value bv lies in one of the gap ranges.
pub open spec fn in_gaps(gaps: Seq<GapRange>, bv: int) -> bool {
    exists|g: int| 0 <= g < gaps.len() && (#[trigger] gaps[g]).first <= bv <= gaps[g].last
}

/// Number of selectors among the first n whose induced byte is below bound.
pub open spec fn count_mapped_below(
    sels: Seq<u32>,
    q: Seq<u8>,
    shift: u32,
    bound: int,
) -> nat
    decreases sels.len(),
{
    if sels.len() == 0 {
        0
    } else {
        count_mapped_below(sels.drop_last(), q, shift, bound) + (if induced_byte(
            sels.last(),
            q,
            shift,
        ) < bound {
            1nat
        } else {
            0nat
        })
    }
}

/// Under a collision-free mapping, raising the bound past one byte value
/// adds exactly one selector when that value is occupied, none otherwise.
proof fn lemma_count_step(sels: Seq<u32>, q: Seq<u8>, shift: u32, b: int)
    requires
        collision_free(sels, q, shift),
        0 <= b < 256,
    ensures
        count_mapped_below(sels, q, shift, b + 1) == count_mapped_below(sels, q, shift, b) + (
        if occupied(sels, q, shift, b) {
            1nat
        } else {
            0nat
        }),
    decreases sels.len(),
{
    if sels.len() > 0 {
        let rest = sels.drop_last();
        assert(collision_free(rest, q, shift)) by {
            assert(forall|i: int, j: int|
                0 <= i < j < rest.len() ==> rest[i] == sels[i] && rest[j] == sels[j]);
        }
        lemma_count_step(rest, q, shift, b);
        let lastb = induced_byte(sels.last(), q, shift);
        if lastb == b {
            // no earlier selector shares byte b, so the rest does not occupy it
            assert(!occupied(rest, q, shift, b)) by {
                if occupied(rest, q, shift, b) {
                    let k = choose|k: int|
                        0 <= k < rest.len() && induced_byte(rest[k], q, shift) == b;
                    assert(induced_byte(sels[k], q, shift) == induced_byte(
                        sels[sels.len() - 1],
                        q,
                        shift,
                    ));
                }
            }
            assert(occupied(sels, q, shift, b)) by {
                assert(induced_byte(sels[sels.len() - 1], q, shift) == b);
            }
        } else {
            assert(occupied(sels, q, shift, b) == occupied(rest, q, shift, b)) by {
                if occupied(sels, q, shift, b) {
                    let k = choose|k: int|
                        0 <= k < sels.len() && induced_byte(sels[k], q, shift) == b;
                    assert(k < rest.len() && rest[k] == sels[k]);
                }
                if occupied(rest, q, shift, b) {
                    let k = choose|k: int|
                        0 <= k < rest.len() && induced_byte(rest[k], q, shift) == b;
                    assert(induced_byte(sels[k], q, shift) == b);
                }
            }
        }
    }
}

/// No selector's byte is below 0.
proof fn lemma_count_zero(sels: Seq<u32>, q: Seq<u8>, shift: u32)
    ensures
        count_mapped_below(sels, q, shift, 0) == 0,
    decreases sels.len(),
{
    if sels.len() > 0 {
        lemma_count_zero(sels.drop_last(), q, shift);
    }
}

/// Every selector's byte is below 256, so the count below 256 is the
/// whole set.
proof fn lemma_count_all(sels: Seq<u32>, q: Seq<u8>, shift: u32)
    ensures
        count_mapped_below(sels, q, shift, 256) == sels.len(),
    decreases sels.len(),
{
    if sels.len() > 0 {
        lemma_count_all(sels.drop_last(), q, shift);
    }
}

/// Finds the selector (if any) that the mapping sends to byte value bv.
fn find_selector_index(values: &Vec<u32>, q: &Vec<u8>, shift: u32, bv: u8) -> (r: Option<
    usize,
>)
    requires
        wf_u256(q@),
        shift <= 255,
    ensures
        match r {
            Some(k) => k < values@.len() && induced_byte(values@[k as int], q@, shift) == bv,
            None => forall|k: int|
                0 <= k < values@.len() ==> induced_byte(values@[k], q@, shift) != bv,
        },
{
    let mut i: usize = 0;
    while i < values.len()
        invariant
            i <= values@.len(),
            wf_u256(q@),
            shift <= 255,
            forall|k: int| 0 <= k < i ==> induced_byte(values@[k], q@, shift) != bv,
        decreases values@.len() - i,
    {
        let b = crate::eval::selector_byte(values[i], q, shift);
        if b == bv {
            return Some(i);
        }
        i += 1;
    }
    None
}

/// Computes the jump-table layout for an accepted mapping and an address
/// table paired with the selectors by position.
///
/// Every occupied byte value becomes one slot at
/// `preamble_len + byte_value * slot_size`; the slots come out ordered by
/// ascending byte value (hence ascending offset), one per selector. The
/// unoccupied byte values are returned as sorted, disjoint, inclusive gap
/// ranges; together the slots' byte values and the gap ranges partition
/// 0..=255.
pub fn build_dispatch_table(
    values: &Vec<u32>,
    addresses: &Vec<u32>,
    q: &Vec<u8>,
    shift: u32,
    preamble_len: usize,
    slot_size: usize,
) -> (r: DispatchLayout)
    requires
        values@.len() == addresses@.len(),
        wf_u256(q@),
        shift <= 255,
        collision_free(values@, q@, shift),
        slot_size >= 1,
        preamble_len + 255 * slot_size <= usize::MAX,
    ensures
        r.entries@.len() == values@.len(),
        forall|e: int|
            0 <= e < r.entries@.len() ==> r.entries@[e].offset == preamble_len
                + r.entries@[e].byte_value * slot_size,
        forall|i: int, j: int|
            0 <= i < j < r.entries@.len() ==> r.entries@[i].byte_value < r.entries@[j].byte_value
                && r.entries@[i].offset < r.entries@[j].offset,
        forall|e: int|
            #![trigger r.entries@[e]]
            0 <= e < r.entries@.len() ==> exists|k: int|
                0 <= k < values@.len() && #[trigger] values@[k] == r.entries@[e].selector
                    && addresses@[k] == r.entries@[e].address && induced_byte(
                    values@[k],
                    q@,
                    shift,
                ) == r.entries@[e].byte_value,
        forall|k: int|
            #![trigger values@[k]]
            0 <= k < values@.len() ==> exists|e: int|
                0 <= e < r.entries@.len() && (#[trigger] r.entries@[e]).selector == values@[k]
                    && r.entries@[e].address == addresses@[k] && r.entries@[e].byte_value
                    == induced_byte(values@[k], q@, shift),
        forall|bv: int|
            0 <= bv < 256 ==> (occupied(values@, q@, shift, bv) <==> exists|e: int|
                0 <= e < r.entries@.len() && r.entries@[e].byte_value == bv),
        forall|bv: int|
            0 <= bv < 256 ==> (occupied(values@, q@, shift, bv) <==> !in_gaps(r.gaps@, bv)),
        forall|g: int| 0 <= g < r.gaps@.len() ==> r.gaps@[g].first <= r.gaps@[g].last,
        forall|g1: int, g2: int|
            0 <= g1 < g2 < r.gaps@.len() ==> r.gaps@[g1].last < r.gaps@[g2].first,
{
    proof {
        lemma_count_zero(values@, q@, shift);
    }
    let mut entries: Vec<DispatchSlot> = Vec::new();
    let mut gaps: Vec<GapRange> = Vec::new();
    let mut gap_start: Option<u8> = None;
    let mut bv: usize = 0;
    while bv < 256
        invariant
            bv <= 256,
            values@.len() == addresses@.len(),
            wf_u256(q@),
            shift <= 255,
            collision_free(values@, q@, shift),
            slot_size >= 1,
            preamble_len + 255 * slot_size <= usize::MAX,
            entries@.len() == count_mapped_below(values@, q@, shift, bv as int),
            forall|e: int|
                0 <= e < entries@.len() ==> entries@[e].byte_value < bv && entries@[e].offset
                    == preamble_len + entries@[e].byte_value * slot_size,
            forall|i: int, j: int|
                0 <= i < j < entries@.len() ==> entries@[i].byte_value < entries@[j].byte_value,
            forall|e: int|
                #![trigger entries@[e]]
                0 <= e < entries@.len() ==> exists|k: int|
                    0 <= k < values@.len() && #[trigger] values@[k] == entries@[e].selector
                        && addresses@[k] == entries@[e].address && induced_byte(
                        values@[k],
                        q@,
                        shift,
                    ) == entries@[e].byte_value,
            forall|b: int|
                0 <= b < bv ==> (occupied(values@, q@, shift, b) <==> exists|e: int|
                    0 <= e < entries@.len() && entries@[e].byte_value == b),
            forall|g: int| 0 <= g < gaps@.len() ==> gaps@[g].first <= gaps@[g].last,
            forall|g1: int, g2: int|
                0 <= g1 < g2 < gaps@.len() ==> gaps@[g1].last < gaps@[g2].first,
            match gap_start {
                Some(s) => s < bv && (forall|b: int|
                    s <= b < bv ==> !occupied(values@, q@, shift, b)) && (forall|g: int|
                    0 <= g < gaps@.len() ==> gaps@[g].last < s) && (forall|b: int|
                    0 <= b < s ==> (occupied(values@, q@, shift, b) <==> !in_gaps(gaps@, b))),
                None => (forall|g: int| 0 <= g < gaps@.len() ==> gaps@[g].last < bv) && (forall|
                    b: int,
                |
                    0 <= b < bv ==> (occupied(values@, q@, shift, b) <==> !in_gaps(gaps@, b))),
            },
        decreases 256 - bv,
    {
        proof {
            lemma_count_step(values@, q@, shift, bv as int);
        }
        match find_selector_index(values, q, shift, bv as u8) {
            Some(k) => {
                proof {
                    assert(occupied(values@, q@, shift, bv as int)) by {
                        assert(induced_byte(values@[k as int], q@, shift) == bv as int);
                    }
                    assert((bv as int) * (slot_size as int) <= 255 * (slot_size as int)) by {
                        lemma_mul_inequality(bv as int, 255, slot_size as int);
                    }
                }
                let offset: usize = preamble_len + bv * slot_size;
                let ghost old_entries = entries@;
                let ghost old_gaps = gaps@;
                let ghost had_gap = gap_start;
                if let Some(s) = gap_start {
                    gaps.push(GapRange { first: s, last: (bv - 1) as u8 });
                    gap_start = None;
                }
                entries.push(
                    DispatchSlot {
                        offset,
                        byte_value: bv as u8,
                        selector: values[k],
                        address: addresses[k],
                    },
                );
                proof {
                    match had_gap {
                        Some(s) => {
                            assert(gaps@[old_gaps.len() as int].first == s);
                            assert(gaps@[old_gaps.len() as int].last == bv - 1);
                            assert(forall|g: int|
                                0 <= g < old_gaps.len() ==> gaps@[g] == old_gaps[g]);
                            assert forall|b: int|
                                0 <= b < bv implies (occupied(values@, q@, shift, b) <==> !in_gaps(
                                gaps@,
                                b,
                            )) by {
                                if b < s {
                                    if in_gaps(old_gaps, b) {
                                        let g = choose|g: int|
                                            0 <= g < old_gaps.len() && (#[trigger] old_gaps[g]).first
                                                <= b <= old_gaps[g].last;
                                        assert(gaps@[g].first <= b <= gaps@[g].last);
                                        assert(in_gaps(gaps@, b));
                                    }
                                    if in_gaps(gaps@, b) {
                                        let g = choose|g: int|
                                            0 <= g < gaps@.len() && (#[trigger] gaps@[g]).first <= b
                                                <= gaps@[g].last;
                                        assert(g < old_gaps.len());
                                        assert(in_gaps(old_gaps, b));
                                    }
                                } else {
                                    assert(!occupied(values@, q@, shift, b));
                                    assert(gaps@[old_gaps.len() as int].first <= b <= gaps@[
                                        old_gaps.len() as int].last);
                                    assert(in_gaps(gaps@, b));
                                }
                            }
                        },
                        None => {
                            assert(forall|b: int|
                                0 <= b < bv ==> (occupied(values@, q@, shift, b) <==> !in_gaps(
                                    gaps@,
                                    b,
                                )));
                        },
                    }
                    assert(forall|e: int|
                        0 <= e < old_entries.len() ==> entries@[e] == old_entries[e]);
                    assert(entries@[entries@.len() - 1].byte_value == bv as u8);
                    assert forall|b: int|
                        0 <= b <= bv implies (occupied(values@, q@, shift, b) <==> exists|e: int|
                        0 <= e < entries@.len() && (#[trigger] entries@[e]).byte_value == b) by {
                        if b == bv {
                            assert(occupied(values@, q@, shift, b)) by {
                                assert(induced_byte(values@[k as int], q@, shift) == bv as int);
                            }
                            assert(entries@[entries@.len() - 1].byte_value == b);
                        } else {
                            if occupied(values@, q@, shift, b) {
                                let e = choose|e: int|
                                    0 <= e < old_entries.len() && (#[trigger] old_entries[e]).byte_value
                                        == b;
                                assert(entries@[e].byte_value == b);
                            }
                            if exists|e: int|
                                0 <= e < entries@.len() && (#[trigger] entries@[e]).byte_value == b {
                                let e = choose|e: int|
                                    0 <= e < entries@.len() && (#[trigger] entries@[e]).byte_value
                                        == b;
                                assert(e < old_entries.len());
                                assert(old_entries[e].byte_value == b);
                            }
                        }
                    }
                }
            },
            None => {
                proof {
                    assert(!occupied(values@, q@, shift, bv as int));
                }
                if gap_start.is_none() {
                    gap_start = Some(bv as u8);
                }
            },
        }
        bv += 1;
    }
    proof {
        lemma_count_all(values@, q@, shift);
    }
    let ghost old_gaps = gaps@;
    let ghost had_gap = gap_start;
    if let Some(s) = gap_start {
        gaps.push(GapRange { first: s, last: 255 });
    }
    proof {
        match had_gap {
            Some(s) => {
                assert(gaps@[old_gaps.len() as int].first == s);
                assert(gaps@[old_gaps.len() as int].last == 255);
                assert(forall|g: int| 0 <= g < old_gaps.len() ==> gaps@[g] == old_gaps[g]);
                assert forall|b: int|
                    0 <= b < 256 implies (occupied(values@, q@, shift, b) <==> !in_gaps(
                    gaps@,
                    b,
                )) by {
                    if b < s {
                        if in_gaps(old_gaps, b) {
                            let g = choose|g: int|
                                0 <= g < old_gaps.len() && (#[trigger] old_gaps[g]).first <= b
                                    <= old_gaps[g].last;
                            assert(gaps@[g].first <= b <= gaps@[g].last);
                            assert(in_gaps(gaps@, b));
                        }
                        if in_gaps(gaps@, b) {
                            let g = choose|g: int|
                                0 <= g < gaps@.len() && (#[trigger] gaps@[g]).first <= b
                                    <= gaps@[g].last;
                            assert(g < old_gaps.len());
                            assert(in_gaps(old_gaps, b));
                        }
                    } else {
                        assert(!occupied(values@, q@, shift, b));
                        assert(gaps@[old_gaps.len() as int].first <= b <= gaps@[
                            old_gaps.len() as int].last);
                        assert(in_gaps(gaps@, b));
                    }
                }
            },
            None => {},
        }
        assert(forall|i: int, j: int|
            0 <= i < j < entries@.len() ==> entries@[i].offset < entries@[j].offset) by {
            assert forall|i: int, j: int|
                0 <= i < j < entries@.len() implies entries@[i].offset < entries@[j].offset by {
                lemma_mul_strict_inequality(
                    entries@[i].byte_value as int,
                    entries@[j].byte_value as int,
                    slot_size as int,
                );
            }
        }
        assert forall|k: int| #![trigger values@[k]] 0 <= k < values@.len() implies exists|e: int|
            0 <= e < entries@.len() && (#[trigger] entries@[e]).selector == values@[k]
                && entries@[e].address == addresses@[k] && entries@[e].byte_value == induced_byte(
                values@[k],
                q@,
                shift,
            ) by {
            let b = induced_byte(values@[k], q@, shift) as int;
            assert(occupied(values@, q@, shift, b)) by {
                assert(induced_byte(values@[k], q@, shift) == b);
            }
            let e = choose|e: int|
                0 <= e < entries@.len() && (#[trigger] entries@[e]).byte_value == b;
            let k2 = choose|k2: int|
                0 <= k2 < values@.len() && (#[trigger] values@[k2]) == entries@[e].selector
                    && addresses@[k2] == entries@[e].address && induced_byte(values@[k2], q@, shift)
                    == entries@[e].byte_value;
            // the mapping is collision-free, so both selectors are the same one
            assert(k2 == k) by {
                if k2 < k {
                    assert(induced_byte(values@[k2], q@, shift) != induced_byte(
                        values@[k],
                        q@,
                        shift,
                    ));
                } else if k < k2 {
                    assert(induced_byte(values@[k], q@, shift) != induced_byte(
                        values@[k2],
                        q@,
                        shift,
                    ));
                }
            }
            assert(entries@[e].selector == values@[k]);
        }
    }
    DispatchLayout { entries, gaps }
}

/// Generates placeholder function addresses 0xf01000, 0xf02000, ... for a
/// table of `count` functions.
pub fn generate_function_addresses(count: usize) -> (r: Vec<u32>)
    requires
        count <= 1044735,
    ensures
        r@.len() == count,
        forall|i: int| 0 <= i < count ==> r@[i] == 0xf00000 + (i + 1) * 0x1000,
{
    let mut r: Vec<u32> = Vec::new();
    let mut i: usize = 0;
    while i < count
        invariant
            i <= count,
            count <= 1044735,
            r@.len() == i,
            forall|k: int| 0 <= k < i ==> r@[k] == 0xf00000 + (k + 1) * 0x1000,
        decreases count - i,
    {
        r.push(0xf00000 + ((i as u32) + 1) * 0x1000);
        i += 1;
    }
    r
}

} // verus!
