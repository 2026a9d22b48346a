use token_swap::{
    create_amm, create_pool, deposit_liquidity, swap_token, withdraw_liquidity, AmmConfig,
    AmmError, LiquidityAccounts, Pool, Registry, SwapToken,
};

fn pool(reserve_a: u64, reserve_b: u64, lp_supply: u64) -> Pool {
    Pool { amm_id: 1, mint_a: 10, mint_b: 20, reserve_a, reserve_b, lp_supply }
}

fn swap_ctx(fee: u16, reserve_a: u64, reserve_b: u64, trader_a: u64, trader_b: u64) -> SwapToken {
    SwapToken {
        amm: AmmConfig { id: 1, fee },
        pool: pool(reserve_a, reserve_b, 1000),
        trader_a,
        trader_b,
    }
}

#[test]
fn swap_worked_example() {
    // reserves 1000/1000, fee 3%, swap 100 of A: taxed input 97, output 88.
    // The full pre-fee input lands in the reserve; the fee stays in the pool.
    let mut ctx = swap_ctx(30, 1000, 1000, 100, 0);
    let r = swap_token(&mut ctx, true, 100, 0);
    assert_eq!(r, Ok(()));
    assert_eq!(ctx.pool.reserve_a, 1100);
    assert_eq!(ctx.pool.reserve_b, 912);
    assert_eq!(ctx.trader_a, 0);
    assert_eq!(ctx.trader_b, 88);
    // the reserve product grew: 1100 * 912 >= 1000 * 1000
    assert!(1100u128 * 912u128 >= 1000u128 * 1000u128);
}

#[test]
fn swap_zero_fee_is_exact_constant_product() {
    let mut ctx = swap_ctx(0, 1000, 1000, 100, 0);
    let r = swap_token(&mut ctx, true, 100, 0);
    assert_eq!(r, Ok(()));
    // floor(100 * 1000 / (1000 + 100)) = 90, with nothing deducted
    assert_eq!(ctx.trader_b, 90);
    assert_eq!(ctx.pool.reserve_a, 1100);
    assert_eq!(ctx.pool.reserve_b, 910);
}

#[test]
fn swap_slippage_floor_rejects_and_changes_nothing() {
    let mut ctx = swap_ctx(30, 1000, 1000, 100, 0);
    let before = ctx;
    let r = swap_token(&mut ctx, true, 100, 89);
    assert_eq!(r, Err(AmmError::SlippageError));
    assert_eq!(ctx, before);
}

#[test]
fn swap_slippage_floor_at_quote_passes() {
    let mut ctx = swap_ctx(30, 1000, 1000, 100, 0);
    let r = swap_token(&mut ctx, true, 100, 88);
    assert_eq!(r, Ok(()));
    assert_eq!(ctx.trader_b, 88);
}

#[test]
fn swap_input_clamped_to_balance() {
    // The trader holds 50 but asks to swap 100: the swap uses 50, silently.
    let mut ctx = swap_ctx(30, 1000, 1000, 50, 0);
    let r = swap_token(&mut ctx, true, 100, 0);
    assert_eq!(r, Ok(()));
    // taxed input 49, output floor(49 * 1000 / 1049) = 46
    assert_eq!(ctx.trader_a, 0);
    assert_eq!(ctx.trader_b, 46);
    assert_eq!(ctx.pool.reserve_a, 1050);
    assert_eq!(ctx.pool.reserve_b, 954);
}

#[test]
fn swap_product_never_decreases() {
    let cases: Vec<(u16, u64, u64, u64)> = vec![
        (0, 1000, 1000, 1),
        (30, 1000, 1000, 100),
        (999, 7, 13, 5),
        (500, 123_456, 654_321, 99_999),
        (1, 1, 1, 1),
    ];
    for (fee, ra, rb, input) in cases {
        let mut ctx = swap_ctx(fee, ra, rb, input, 0);
        let r = swap_token(&mut ctx, true, input, 0);
        assert_eq!(r, Ok(()));
        let before = (ra as u128) * (rb as u128);
        let after = (ctx.pool.reserve_a as u128) * (ctx.pool.reserve_b as u128);
        assert!(after >= before);
    }
}

#[test]
fn swap_round_trip_returns_no_more_than_input() {
    let mut ctx = swap_ctx(30, 1000, 1000, 100, 0);
    let r = swap_token(&mut ctx, true, 100, 0);
    assert_eq!(r, Ok(()));
    let received = ctx.trader_b;
    assert_eq!(received, 88);
    let r = swap_token(&mut ctx, false, received, 0);
    assert_eq!(r, Ok(()));
    // 100 went out; swapping the 88 back yields floor(86 * 1100 / 998) = 94
    assert_eq!(ctx.trader_a, 94);
    assert!(ctx.trader_a <= 100);
}

#[test]
fn swap_reserve_overflow_fails() {
    let mut ctx = swap_ctx(0, u64::MAX, 1000, 10, 0);
    let before = ctx;
    let r = swap_token(&mut ctx, true, 10, 0);
    assert_eq!(r, Err(AmmError::OverflowError));
    assert_eq!(ctx, before);
}

#[test]
fn swap_empty_pool_zero_input_fails() {
    // Nothing to price against: the quote's divisor would be zero.
    let mut ctx = swap_ctx(30, 0, 1000, 0, 0);
    let r = swap_token(&mut ctx, true, 100, 0);
    assert_eq!(r, Err(AmmError::OverflowError));
}

#[test]
fn swap_wrong_amm_fails() {
    let mut ctx = swap_ctx(30, 1000, 1000, 100, 0);
    ctx.pool.amm_id = 2;
    let before = ctx;
    let r = swap_token(&mut ctx, true, 100, 0);
    assert_eq!(r, Err(AmmError::ConstraintError));
    assert_eq!(ctx, before);
}

#[test]
fn create_amm_stores_config() {
    let mut registry = Registry { amms: Vec::new(), pools: Vec::new() };
    assert_eq!(create_amm(&mut registry, 7, 30), Ok(()));
    assert_eq!(registry.amms.len(), 1);
    assert_eq!(registry.amms[0], AmmConfig { id: 7, fee: 30 });
}

#[test]
fn create_amm_rejects_fee_out_of_range() {
    let mut registry = Registry { amms: Vec::new(), pools: Vec::new() };
    assert_eq!(create_amm(&mut registry, 7, 1000), Err(AmmError::ValidationError));
    assert_eq!(registry.amms.len(), 0);
    assert_eq!(create_amm(&mut registry, 7, 999), Ok(()));
}

#[test]
fn create_amm_rejects_reused_id() {
    let mut registry = Registry { amms: Vec::new(), pools: Vec::new() };
    assert_eq!(create_amm(&mut registry, 7, 30), Ok(()));
    assert_eq!(create_amm(&mut registry, 7, 50), Err(AmmError::ValidationError));
    assert_eq!(registry.amms.len(), 1);
    assert_eq!(registry.amms[0].fee, 30);
}

#[test]
fn create_pool_rejects_equal_mints() {
    let mut registry = Registry { amms: Vec::new(), pools: Vec::new() };
    assert_eq!(create_amm(&mut registry, 1, 30), Ok(()));
    assert_eq!(create_pool(&mut registry, 1, 5, 5), Err(AmmError::ValidationError));
    assert_eq!(registry.pools.len(), 0);
}

#[test]
fn create_pool_requires_existing_amm() {
    let mut registry = Registry { amms: Vec::new(), pools: Vec::new() };
    assert_eq!(create_pool(&mut registry, 1, 3, 5), Err(AmmError::ConstraintError));
    assert_eq!(registry.pools.len(), 0);
}

#[test]
fn create_pool_canonicalizes_the_pair() {
    let mut registry = Registry { amms: Vec::new(), pools: Vec::new() };
    assert_eq!(create_amm(&mut registry, 1, 30), Ok(()));
    assert_eq!(create_pool(&mut registry, 1, 5, 3), Ok(()));
    assert_eq!(registry.pools[0].mint_a, 3);
    assert_eq!(registry.pools[0].mint_b, 5);
    assert_eq!(registry.pools[0].reserve_a, 0);
    assert_eq!(registry.pools[0].reserve_b, 0);
    assert_eq!(registry.pools[0].lp_supply, 0);
    // The reversed naming resolves to the same pool and is refused.
    assert_eq!(create_pool(&mut registry, 1, 3, 5), Err(AmmError::ValidationError));
    assert_eq!(registry.pools.len(), 1);
}

fn liquidity_ctx(
    reserve_a: u64,
    reserve_b: u64,
    lp_supply: u64,
    provider_a: u64,
    provider_b: u64,
    provider_lp: u64,
) -> LiquidityAccounts {
    LiquidityAccounts {
        pool: pool(reserve_a, reserve_b, lp_supply),
        provider_a,
        provider_b,
        provider_lp,
    }
}

#[test]
fn deposit_initial_mints_geometric_mean_less_minimum() {
    let mut ctx = liquidity_ctx(0, 0, 0, 10_000, 40_000, 0);
    let r = deposit_liquidity(&mut ctx, 10_000, 40_000);
    assert_eq!(r, Ok(()));
    // isqrt(10_000 * 40_000) = 20_000, less the reserved minimum of 100
    assert_eq!(ctx.pool.reserve_a, 10_000);
    assert_eq!(ctx.pool.reserve_b, 40_000);
    assert_eq!(ctx.pool.lp_supply, 19_900);
    assert_eq!(ctx.provider_a, 0);
    assert_eq!(ctx.provider_b, 0);
    assert_eq!(ctx.provider_lp, 19_900);
}

#[test]
fn deposit_initial_zero_side_fails() {
    let mut ctx = liquidity_ctx(0, 0, 0, 1000, 1000, 0);
    let before = ctx;
    let r = deposit_liquidity(&mut ctx, 0, 500);
    assert_eq!(r, Err(AmmError::ValidationError));
    assert_eq!(ctx, before);
}

#[test]
fn deposit_initial_below_minimum_fails() {
    let mut ctx = liquidity_ctx(0, 0, 0, 1000, 1000, 0);
    let r = deposit_liquidity(&mut ctx, 4, 4);
    assert_eq!(r, Err(AmmError::ValidationError));
    assert_eq!(ctx.pool.lp_supply, 0);
}

#[test]
fn deposit_scales_second_amount_down_to_ratio() {
    // Pool at 1:1 — offering (500, 300) deposits (300, 300).
    let mut ctx = liquidity_ctx(1000, 1000, 1000, 500, 300, 0);
    let r = deposit_liquidity(&mut ctx, 500, 300);
    assert_eq!(r, Ok(()));
    assert_eq!(ctx.pool.reserve_a, 1300);
    assert_eq!(ctx.pool.reserve_b, 1300);
    assert_eq!(ctx.pool.lp_supply, 1300);
    assert_eq!(ctx.provider_a, 200);
    assert_eq!(ctx.provider_b, 0);
    assert_eq!(ctx.provider_lp, 300);
}

#[test]
fn deposit_scales_first_amount_down_to_ratio() {
    // Pool at 2:1 — offering (100, 200) deposits (100, 50).
    let mut ctx = liquidity_ctx(1000, 500, 700, 100, 200, 0);
    let r = deposit_liquidity(&mut ctx, 100, 200);
    assert_eq!(r, Ok(()));
    assert_eq!(ctx.pool.reserve_a, 1100);
    assert_eq!(ctx.pool.reserve_b, 550);
    assert_eq!(ctx.pool.lp_supply, 770);
    assert_eq!(ctx.provider_a, 0);
    assert_eq!(ctx.provider_b, 150);
    assert_eq!(ctx.provider_lp, 70);
}

#[test]
fn deposit_beyond_balance_fails() {
    let mut ctx = liquidity_ctx(1000, 1000, 1000, 100, 300, 0);
    let before = ctx;
    let r = deposit_liquidity(&mut ctx, 300, 300);
    assert_eq!(r, Err(AmmError::ValidationError));
    assert_eq!(ctx, before);
}

#[test]
fn deposit_minting_nothing_fails() {
    // A deposit too small for one claim unit: floor(10_000 * 0 / ...) = 0.
    let mut ctx = liquidity_ctx(10_000, 10_000, 100, 5, 0, 0);
    let before = ctx;
    let r = deposit_liquidity(&mut ctx, 5, 0);
    assert_eq!(r, Err(AmmError::ValidationError));
    assert_eq!(ctx, before);
}

#[test]
fn deposit_on_inconsistent_pool_fails() {
    let mut ctx = liquidity_ctx(1000, 0, 1000, 100, 100, 0);
    let r = deposit_liquidity(&mut ctx, 100, 100);
    assert_eq!(r, Err(AmmError::ConstraintError));
}

#[test]
fn withdraw_pays_proportional_share() {
    let mut ctx = liquidity_ctx(1000, 2000, 1000, 0, 0, 500);
    let r = withdraw_liquidity(&mut ctx, 100);
    assert_eq!(r, Ok(()));
    assert_eq!(ctx.pool.reserve_a, 900);
    assert_eq!(ctx.pool.reserve_b, 1800);
    assert_eq!(ctx.pool.lp_supply, 900);
    assert_eq!(ctx.provider_a, 100);
    assert_eq!(ctx.provider_b, 200);
    assert_eq!(ctx.provider_lp, 400);
}

#[test]
fn withdraw_floor_rounds_the_payout() {
    let mut ctx = liquidity_ctx(1000, 999, 1000, 0, 0, 1000);
    let r = withdraw_liquidity(&mut ctx, 7);
    assert_eq!(r, Ok(()));
    // floor(1000 * 7 / 1000) = 7, floor(999 * 7 / 1000) = 6
    assert_eq!(ctx.provider_a, 7);
    assert_eq!(ctx.provider_b, 6);
}

#[test]
fn withdraw_from_zero_supply_fails() {
    let mut ctx = liquidity_ctx(0, 0, 0, 0, 0, 0);
    let r = withdraw_liquidity(&mut ctx, 10);
    assert_eq!(r, Err(AmmError::ValidationError));
}

#[test]
fn withdraw_beyond_claim_fails() {
    let mut ctx = liquidity_ctx(1000, 2000, 1000, 0, 0, 50);
    let before = ctx;
    let r = withdraw_liquidity(&mut ctx, 51);
    assert_eq!(r, Err(AmmError::ValidationError));
    assert_eq!(ctx, before);
}

#[test]
fn withdraw_then_deposit_restores_state() {
    // 100 claims of 1000 divide both reserves evenly, so the round trip is
    // exact: the same claim is minted back and every balance returns.
    let start = liquidity_ctx(1000, 2000, 1000, 0, 0, 1000);
    let mut ctx = start;
    assert_eq!(withdraw_liquidity(&mut ctx, 100), Ok(()));
    let got_a = ctx.provider_a - start.provider_a;
    let got_b = ctx.provider_b - start.provider_b;
    assert_eq!((got_a, got_b), (100, 200));
    assert_eq!(deposit_liquidity(&mut ctx, got_a, got_b), Ok(()));
    assert_eq!(ctx, start);
}

#[test]
fn withdraw_then_deposit_loses_only_dust() {
    // 7 claims of 1000 do not divide reserve 999 evenly: the payout floor
    // rounds, the redeposit mints one claim less, and nothing is gained.
    let start = liquidity_ctx(1000, 999, 1000, 0, 0, 1000);
    let mut ctx = start;
    assert_eq!(withdraw_liquidity(&mut ctx, 7), Ok(()));
    let got_a = ctx.provider_a - start.provider_a;
    let got_b = ctx.provider_b - start.provider_b;
    assert_eq!((got_a, got_b), (7, 6));
    assert_eq!(deposit_liquidity(&mut ctx, got_a, got_b), Ok(()));
    assert_eq!(ctx.pool.reserve_a, 999);
    assert_eq!(ctx.pool.reserve_b, 999);
    assert_eq!(ctx.pool.lp_supply, 999);
    assert_eq!(ctx.provider_lp, 999);
    assert_eq!(ctx.provider_a, 1);
    assert_eq!(ctx.provider_b, 0);
    assert!(ctx.pool.lp_supply <= start.pool.lp_supply);
    assert!(ctx.pool.reserve_a <= start.pool.reserve_a);
    assert!(ctx.pool.reserve_b <= start.pool.reserve_b);
}
