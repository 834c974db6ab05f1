//! A deterministic reward-allocation engine.
//!
//! Turns voting-power snapshots, vote counts, proposal reviews and approved
//! funding amounts into per-recipient payouts that exhaust a fixed budget
//! exactly, with documented rounding and reproducible tie-breaking.

use vstd::prelude::*;

pub mod amount;
pub mod assoc;
pub mod community_advisors;
pub mod distribution;
pub mod order;
pub mod recovery;
pub mod seeded;
pub mod sums;
pub mod voters;

verus! {

/// Errors an allocation can fail with.
#[derive(Debug, Clone, Copy, PartialEq, Eq, Structural)]
pub enum RewardsError {
    /// Ratios that do not sum to 100, or a setting that is out of range.
    ConfigurationError,
    /// A zero-weight distribution, a malformed amount string, or an
    /// unknown rating value.
    InvalidInput,
}

} // verus!
