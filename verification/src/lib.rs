//! Search for a minimal multiplicative perfect hash over a fixed set of
//! 32-bit selectors, and lay out the resulting dispatch jump table.
//!
//! A candidate hash is a pair (multiplier, shift): a selector is
//! zero-extended to 256 bits, multiplied by the multiplier with
//! truncation modulo 2^256, shifted right, and reduced to its low byte.
//! The search draws random multipliers and keeps the collision-free
//! candidate with the smallest maximum byte, within an attempt budget.

pub mod arith;
pub mod eval;
pub mod search;
pub mod layout;
