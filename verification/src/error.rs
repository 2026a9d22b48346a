use vstd::prelude::*;

verus! {

/// Why an instruction was rejected. Every failure aborts the whole call:
/// a handler that returns one of these has changed no state at all.
#[derive(Clone, Copy, Debug, PartialEq, Eq)]
pub enum AmmError {
    /// Malformed or duplicate configuration input: a fee out of range, two
    /// equal mints, a reused id, a deposit or withdrawal the accounts cannot
    /// cover, or one that would mint or redeem nothing.
    ValidationError,
    /// The supplied accounts are inconsistent with the stored references,
    /// such as a pool that names a different fee configuration.
    ConstraintError,
    /// The computed swap output fell below the caller's minimum.
    SlippageError,
    /// An arithmetic step would leave the representable range of the
    /// reserve type.
    OverflowError,
    /// The post-trade reserve product fell below the pre-trade product. This
    /// is a backstop against internal defects, never an expected outcome.
    InvariantViolated,
}

} // verus!
