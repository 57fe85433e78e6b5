//! Scores a hash candidate (multiplier, shift) against a selector set:
//! computes each selector's induced byte and decides collision-freedom
//! and the maximum byte used.
use vstd::prelude::*;
use vstd::arithmetic::power2::*;
use crate::arith::{wf_u256, u256_val, u32_to_256, mul_256, shr_256, lemma_byte0};

verus! {

/// The byte a selector is mapped to by a candidate (multiplier q, shift):
/// the low byte of (selector * q mod 2^256) >> shift.
pub open spec fn induced_byte(sel: u32, q: Seq<u8>, shift: u32) -> u8 {
    (((sel as nat) * u256_val(q)) % pow2(256) / pow2(shift as nat) % 256) as u8
}

/// A candidate maps every selector of the set to a distinct byte.
pub open spec fn collision_free(sels: Seq<u32>, q: Seq<u8>, shift: u32) -> bool {
    forall|i: int, j: int|
        0 <= i < j < sels.len() ==> induced_byte(sels[i], q, shift) != induced_byte(
            sels[j],
            q,
            shift,
        )
}

/// The largest induced byte over the selector set (0 for the empty set).
pub open spec fn max_induced_byte(sels: Seq<u32>, q: Seq<u8>, shift: u32) -> u8
    decreases sels.len(),
{
    if sels.len() == 0 {
        0
    } else {
        let rest = max_induced_byte(sels.drop_last(), q, shift);
        let last = induced_byte(sels.last(), q, shift);
        if last >= rest {
            last
        } else {
            rest
        }
    }
}

/// Outcome of scoring one candidate: either two selectors share a byte,
/// or all bytes are distinct and the largest one is reported.
#[derive(PartialEq, Eq, Structural, Clone, Copy, Debug)]
pub enum EvaluationResult {
    Collision,
    Unique(u8),
}

/// What evaluate returns, as a function of its inputs.
pub open spec fn spec_evaluate(sels: Seq<u32>, q: Seq<u8>, shift: u32) -> EvaluationResult {
    if collision_free(sels, q, shift) {
        EvaluationResult::Unique(max_induced_byte(sels, q, shift))
    } else {
        EvaluationResult::Collision
    }
}

/// Computes the byte a selector is mapped to by (q, shift).
pub fn selector_byte(sel: u32, q: &Vec<u8>, shift: u32) -> (r: u8)
    requires
        wf_u256(q@),
        shift <= 255,
    ensures
        r == induced_byte(sel, q@, shift),
{
    let x256 = u32_to_256(sel);
    let prod = mul_256(&x256, q);
    let shifted = shr_256(&prod, shift);
    proof {
        lemma_byte0(shifted@);
    }
    shifted[0]
}

/// Decides whether (q, shift) maps all selectors to pairwise distinct
/// bytes. A selector set with duplicates always collides.
pub fn check_magic_numbers(q: &Vec<u8>, shift: u32, values: &Vec<u32>) -> (r: bool)
    requires
        wf_u256(q@),
        shift <= 255,
    ensures
        r == collision_free(values@, q@, shift),
{
    let mut seen: Vec<bool> = Vec::new();
    let mut z: usize = 0;
    while z < 256
        invariant
            z <= 256,
            seen@.len() == z,
            forall|k: int| 0 <= k < z ==> seen@[k] == false,
        decreases 256 - z,
    {
        seen.push(false);
        z += 1;
    }
    let mut i: usize = 0;
    while i < values.len()
        invariant
            i <= values@.len(),
            wf_u256(q@),
            shift <= 255,
            seen@.len() == 256,
            forall|bv: int|
                0 <= bv < 256 ==> (seen@[bv] <==> exists|k: int|
                    0 <= k < i && induced_byte(values@[k], q@, shift) == bv),
            forall|k1: int, k2: int|
                0 <= k1 < k2 < i ==> induced_byte(values@[k1], q@, shift) != induced_byte(
                    values@[k2],
                    q@,
                    shift,
                ),
        decreases values@.len() - i,
    {
        let b = selector_byte(values[i], q, shift);
        if seen[b as usize] {
            proof {
                let k = choose|k: int|
                    0 <= k < i && induced_byte(values@[k], q@, shift) == b as int;
                assert(induced_byte(values@[k], q@, shift) == induced_byte(
                    values@[i as int],
                    q@,
                    shift,
                ));
            }
            return false;
        }
        seen.set(b as usize, true);
        i += 1;
    }
    true
}

/// Scores one candidate: Collision when two selectors share a byte,
/// otherwise Unique with the maximum induced byte.
pub fn evaluate(q: &Vec<u8>, shift: u32, values: &Vec<u32>) -> (r: EvaluationResult)
    requires
        wf_u256(q@),
        shift <= 255,
    ensures
        r == spec_evaluate(values@, q@, shift),
{
    if !check_magic_numbers(q, shift, values) {
        return EvaluationResult::Collision;
    }
    let mut max_byte: u8 = 0;
    let mut i: usize = 0;
    while i < values.len()
        invariant
            i <= values@.len(),
            wf_u256(q@),
            shift <= 255,
            max_byte == max_induced_byte(values@.subrange(0, i as int), q@, shift),
        decreases values@.len() - i,
    {
        let b = selector_byte(values[i], q, shift);
        proof {
            let pre = values@.subrange(0, i as int);
            let post = values@.subrange(0, i + 1);
            assert(post.drop_last() =~= pre);
            assert(post.last() == values@[i as int]);
        }
        if b > max_byte {
            max_byte = b;
        }
        i += 1;
    }
    proof {
        assert(values@.subrange(0, values@.len() as int) =~= values@);
    }
    EvaluationResult::Unique(max_byte)
}

} // verus!
