use vstd::prelude::*;

verus! {

/// An immutable fee configuration, created once under a caller-chosen id.
/// The fee is expressed in thousandths of the swap input.
#[derive(Clone, Copy, Debug, PartialEq, Eq)]
pub struct AmmConfig {
    /// Caller-chosen key, unique within a registry.
    pub id: u64,
    /// Swap fee in thousandths; always below 1000.
    pub fee: u16,
}

impl AmmConfig {
    /// The configuration invariant: the fee never reaches 100%.
    pub open spec fn wf(self) -> bool {
        self.fee < 1000
    }
}

/// A pool binds a fee configuration to an ordered pair of token mints and
/// holds the two custodial reserve balances together with the total supply
/// of outstanding liquidity-provider claims.
#[derive(Clone, Copy, Debug, PartialEq, Eq)]
pub struct Pool {
    /// The id of the fee configuration this pool trades under.
    pub amm_id: u64,
    /// The lower of the two mints, in canonical order.
    pub mint_a: u64,
    /// The higher of the two mints, in canonical order.
    pub mint_b: u64,
    /// Custodial balance of mint-a tokens.
    pub reserve_a: u64,
    /// Custodial balance of mint-b tokens.
    pub reserve_b: u64,
    /// Total liquidity-provider claims outstanding against the reserves.
    pub lp_supply: u64,
}

impl Pool {
    /// The pool invariant: the two mints are distinct and canonically ordered,
    /// so an unordered pair resolves to exactly one pool.
    pub open spec fn wf(self) -> bool {
        self.mint_a < self.mint_b
    }
}

} // verus!
