use vstd::prelude::*;

verus! {

/// Liquidity units permanently reserved out of a pool's first deposit, so
/// that the first depositor cannot make the share price arbitrarily large.
pub const MINIMUM_LIQUIDITY: u64 = 100;

} // verus!
