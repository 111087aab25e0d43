//! Arbitrage engine for constant-product automated market makers.
//!
//! Given reserve snapshots of two pools trading the same asset pair, the
//! library derives the quadratic equation whose positive root is the
//! profit-maximizing input amount, solves it with exact integer arithmetic,
//! and simulates the resulting two-hop swap. A precision-preserving ratio
//! reduction is provided for display purposes only.

use vstd::prelude::*;

pub mod bignum;
pub mod decimal;
pub mod trade;
pub mod unipool;

verus! {

/// Typed failure taxonomy of the engine.
///
/// `DivisionByZero` marks degenerate inputs that collapse a denominator
/// (a zero reserve, or a zero leading coefficient in the quadratic).
/// `NoArbitrage` and `NoArbitrageAfterFee` are expected, non-retryable
/// outcomes meaning the pair is priced correctly (outright, or once fees
/// are netted out). `Overflow` is raised when a derived coefficient would
/// exceed the 256-bit working width instead of silently wrapping.
#[derive(Clone, Copy, Debug, PartialEq, Eq, Structural)]
pub enum ArbitrageError {
    DivisionByZero,
    NoArbitrage,
    NoArbitrageAfterFee,
    Overflow,
}

} // verus!
