//! A branch-and-bound engine for proving tail-probability inequalities of
//! normalized Rademacher sums (weighted sums of independent +-1 variables).
//!
//! The engine works over exact arithmetic throughout: coefficient intervals
//! are rationals with a shared integer denominator, and every other scalar
//! (thresholds, probabilities, restriction bounds) is a fixed-point integer
//! in units of `1 / SCALE`.  The analytic seed values of the probability
//! table come from a numeric integration routine that lives outside this
//! library; the table itself, its refinement recurrence, the search and the
//! result accumulation are all verified here.

pub mod fixed;
pub mod util;
pub mod restriction;
pub mod case;
pub mod prover;
pub mod prawitz;
pub mod extrema;
pub mod codec;
