//! A constant-product automated market maker, verified end to end: fee-adjusted
//! swap pricing over two token reserves, proportional liquidity accounting, and
//! a registry of fee configurations and pools. Every entry point is an atomic,
//! all-or-nothing state transition: it either commits exactly the effect its
//! contract states or leaves the accounts untouched and reports an error.

mod constants;
mod error;
mod liquidity;
mod math;
mod registry;
mod state;
mod swap_token;

pub use constants::MINIMUM_LIQUIDITY;
pub use error::AmmError;
pub use liquidity::{
    deposit_liquidity, lemma_deposit_empty_zero_side_fails,
    lemma_withdraw_then_deposit_never_gains, lemma_withdraw_then_deposit_restores, spec_deposit,
    spec_deposit_apply, spec_withdraw, withdraw_liquidity, LiquidityAccounts,
};
pub use math::{
    is_isqrt, isqrt, lemma_round_trip_output_bounded, lemma_swap_preserves_product,
    lemma_taxed_input_bounds, lemma_zero_fee_exact, mul_div, spec_fee_amount, spec_isqrt,
    spec_swap_output, spec_taxed_input, swap_output, taxed_input,
};
pub use registry::{
    create_amm, create_pool, lemma_create_pool_order_irrelevant, spec_create_amm,
    spec_create_pool, spec_has_amm, spec_has_pool, Registry,
};
pub use state::{AmmConfig, Pool};
pub use swap_token::{
    lemma_round_trip_no_gain, lemma_slippage_gate, lemma_swap_clamps_input, spec_swap,
    spec_swap_quote, swap_token, SwapToken,
};
