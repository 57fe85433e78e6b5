//! The randomized search: draws random 256-bit multipliers, sweeps the
//! byte-aligned shift amounts, and keeps the collision-free candidate with
//! the smallest maximum byte, within a fixed attempt budget.
use vstd::prelude::*;
use rand::Rng;
use crate::arith::wf_u256;
use crate::eval::{collision_free, max_induced_byte, spec_evaluate, EvaluationResult, evaluate};

verus! {

/// An accepted candidate: a multiplier, a shift, and the largest byte it
/// maps any selector of the set to.
pub struct Solution {
    pub q: Vec<u8>,
    pub shift: u32,
    pub max_byte: u8,
}

/// A solution is valid for a selector set when its candidate is
/// collision-free over the set and max_byte is the true maximum.
pub open spec fn solution_ok(s: Solution, sels: Seq<u32>) -> bool {
    &&& wf_u256(s.q@)
    &&& s.shift <= 248
    &&& s.shift % 8 == 0
    &&& collision_free(sels, s.q@, s.shift)
    &&& s.max_byte == max_induced_byte(sels, s.q@, s.shift)
}

/// The search never reports a solution that fails its own acceptance
/// check: re-evaluating a returned solution's candidate over the same
/// selector set yields Unique with the solution's recorded maximum byte,
/// never Collision.
pub proof fn lemma_solution_reevaluates_unique(s: Solution, sels: Seq<u32>)
    requires
        solution_ok(s, sels),
    ensures
        spec_evaluate(sels, s.q@, s.shift) == EvaluationResult::Unique(s.max_byte),
{
}

/// One best-so-far improvement: the attempt index at which it was found
/// and the maximum byte of the new best candidate.
pub struct Update {
    pub attempt: u32,
    pub max_byte: u8,
}

/// What one search run returns: the best solution found (if any), the
/// stream of best-so-far improvements, and the number of candidate
/// evaluations performed.
pub struct SearchOutcome {
    pub solution: Option<Solution>,
    pub updates: Vec<Update>,
    pub attempts: u32,
}

/// Draws a uniformly random 256-bit multiplier.
///
/// Relies on rand's `Rng::sample` with the `Standard` distribution, which
/// fills all 32 bytes of a `[u8; 32]` from `thread_rng`. Nothing is
/// promised of the drawn value beyond its width.
#[verifier::external_body]
fn random_256bit() -> (r: Vec<u8>)
    ensures
        wf_u256(r@),
{
    let bytes: [u8; 32] = rand::thread_rng().sample(rand::distributions::Standard);
    bytes.to_vec()
}

/// Whether a 32-bit value occurs in a vector.
pub fn contains_u32(values: &Vec<u32>, x: u32) -> (r: bool)
    ensures
        r == values@.contains(x),
{
    let mut i: usize = 0;
    while i < values.len()
        invariant
            i <= values@.len(),
            forall|k: int| 0 <= k < i ==> values@[k] != x,
        decreases values@.len() - i,
    {
        if values[i] == x {
            return true;
        }
        i += 1;
    }
    false
}

/// Byte-for-byte copy of a 256-bit word.
fn copy_word(q: &Vec<u8>) -> (r: Vec<u8>)
    ensures
        r@ == q@,
{
    let mut r: Vec<u8> = Vec::new();
    let mut i: usize = 0;
    while i < q.len()
        invariant
            i <= q@.len(),
            r@ == q@.subrange(0, i as int),
        decreases q@.len() - i,
    {
        r.push(q[i]);
        proof {
            assert(r@ =~= q@.subrange(0, i + 1));
        }
        i += 1;
    }
    proof {
        assert(r@ =~= q@);
    }
    r
}

/// Searches for magic numbers mapping every selector to a distinct byte.
///
/// Each (multiplier, shift) evaluation consumes one unit of the budget;
/// exactly `max_attempts` evaluations are performed. A new best is
/// recorded only when it is collision-free and strictly lowers the
/// maximum byte, so the recorded improvements strictly decrease and the
/// returned solution (if any) is the last improvement. Finding nothing
/// within the budget is an ordinary outcome, not a fault.
pub fn find_magic_numbers(values: &Vec<u32>, max_attempts: u32) -> (r: SearchOutcome)
    ensures
        r.attempts == max_attempts,
        forall|i: int, j: int|
            0 <= i < j < r.updates@.len() ==> r.updates@[j].max_byte < r.updates@[i].max_byte,
        forall|i: int, j: int|
            0 <= i < j < r.updates@.len() ==> r.updates@[i].attempt < r.updates@[j].attempt,
        forall|i: int|
            0 <= i < r.updates@.len() ==> r.updates@[i].max_byte < 255 && r.updates@[i].attempt
                < max_attempts,
        r.solution is Some <==> r.updates@.len() > 0,
        r.solution matches Some(s) ==> solution_ok(s, values@) && s.max_byte
            == r.updates@.last().max_byte,
{
    let mut attempts: u32 = 0;
    let mut updates: Vec<Update> = Vec::new();
    let mut best: Option<Solution> = None;
    let mut best_max_byte: u8 = 255;
    while attempts < max_attempts
        invariant
            attempts <= max_attempts,
            forall|i: int, j: int|
                0 <= i < j < updates@.len() ==> updates@[j].max_byte < updates@[i].max_byte,
            forall|i: int, j: int|
                0 <= i < j < updates@.len() ==> updates@[i].attempt < updates@[j].attempt,
            forall|i: int|
                0 <= i < updates@.len() ==> updates@[i].max_byte < 255 && updates@[i].attempt
                    < attempts,
            best is Some <==> updates@.len() > 0,
            best matches Some(s) ==> solution_ok(s, values@) && s.max_byte
                == updates@.last().max_byte && s.max_byte == best_max_byte,
            best is None ==> best_max_byte == 255,
        decreases max_attempts - attempts,
    {
        let q = random_256bit();
        let ghost attempts0 = attempts;
        let mut shift: u32 = 0;
        while shift <= 248 && attempts < max_attempts
            invariant
                wf_u256(q@),
                shift % 8 == 0,
                shift <= 256,
                attempts0 < max_attempts,
                attempts0 <= attempts,
                shift > 0 ==> attempts > attempts0,
                attempts <= max_attempts,
                forall|i: int, j: int|
                    0 <= i < j < updates@.len() ==> updates@[j].max_byte < updates@[i].max_byte,
                forall|i: int, j: int|
                    0 <= i < j < updates@.len() ==> updates@[i].attempt < updates@[j].attempt,
                forall|i: int|
                    0 <= i < updates@.len() ==> updates@[i].max_byte < 255 && updates@[i].attempt
                        < attempts,
                best is Some <==> updates@.len() > 0,
                best matches Some(s) ==> solution_ok(s, values@) && s.max_byte
                    == updates@.last().max_byte && s.max_byte == best_max_byte,
                best is None ==> best_max_byte == 255,
            decreases 256 - shift,
        {
            match evaluate(&q, shift, values) {
                EvaluationResult::Unique(m) => {
                    if m < best_max_byte {
                        best_max_byte = m;
                        best = Some(
                            Solution { q: copy_word(&q), shift, max_byte: m },
                        );
                        updates.push(Update { attempt: attempts, max_byte: m });
                    }
                },
                EvaluationResult::Collision => {},
            }
            attempts = attempts + 1;
            shift = shift + 8;
        }
    }
    SearchOutcome { solution: best, updates, attempts }
}

} // verus!
