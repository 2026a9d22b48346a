use vstd::prelude::*;
use crate::constants::MINIMUM_LIQUIDITY;
use crate::error::AmmError;
use crate::math::{
    is_isqrt, isqrt, lemma_div_below, lemma_div_exact, lemma_div_mul_le, lemma_isqrt_unique,
    mul_div, spec_isqrt,
};
use crate::state::Pool;

verus! {

/// The accounts a liquidity instruction touches: the pool and the provider's
/// two token balances together with the provider's claim balance.
#[derive(Clone, Copy, Debug, PartialEq, Eq)]
pub struct LiquidityAccounts {
    /// The pool, holding both reserves and the total claim supply.
    pub pool: Pool,
    /// The provider's balance of mint-a tokens.
    pub provider_a: u64,
    /// The provider's balance of mint-b tokens.
    pub provider_b: u64,
    /// The provider's liquidity claims against this pool.
    pub provider_lp: u64,
}

impl LiquidityAccounts {
    /// No holder's claim can exceed the total outstanding supply.
    pub open spec fn wf(self) -> bool {
        self.provider_lp <= self.pool.lp_supply
    }
}

/// The common tail of a deposit once the actual amounts and the minted claim
/// are fixed: both transfers and the mint all succeed, or nothing happens.
pub open spec fn spec_deposit_apply(
    ctx: LiquidityAccounts,
    actual_a: int,
    actual_b: int,
    minted: int,
) -> Result<LiquidityAccounts, AmmError> {
    if actual_a > ctx.provider_a || actual_b > ctx.provider_b {
        Err(AmmError::ValidationError)
    } else if ctx.pool.reserve_a + actual_a > u64::MAX || ctx.pool.reserve_b + actual_b
        > u64::MAX || ctx.pool.lp_supply + minted > u64::MAX || ctx.provider_lp + minted
        > u64::MAX {
        Err(AmmError::OverflowError)
    } else {
        Ok(LiquidityAccounts {
            pool: Pool {
                reserve_a: (ctx.pool.reserve_a + actual_a) as u64,
                reserve_b: (ctx.pool.reserve_b + actual_b) as u64,
                lp_supply: (ctx.pool.lp_supply + minted) as u64,
                ..ctx.pool
            },
            provider_a: (ctx.provider_a - actual_a) as u64,
            provider_b: (ctx.provider_b - actual_b) as u64,
            provider_lp: (ctx.provider_lp + minted) as u64,
        })
    }
}

/// The deposit as a state transition: what `deposit_liquidity` returns and
/// how the accounts change, for every input. On an empty pool the caller's
/// ratio is accepted and the geometric mean of the amounts, less the reserved
/// minimum, is minted; on a funded pool the amounts are upper bounds, scaled
/// down to the largest pair matching the reserve ratio, and the lesser
/// proportional share is minted.
pub open spec fn spec_deposit(ctx: LiquidityAccounts, amount_a: u64, amount_b: u64) -> Result<
    LiquidityAccounts,
    AmmError,
> {
    let p = ctx.pool;
    if p.reserve_a == 0 && p.reserve_b == 0 && p.lp_supply == 0 {
        let root = spec_isqrt((amount_a as int) * (amount_b as int));
        if root <= MINIMUM_LIQUIDITY {
            Err(AmmError::ValidationError)
        } else {
            spec_deposit_apply(ctx, amount_a as int, amount_b as int, root - MINIMUM_LIQUIDITY)
        }
    } else if p.reserve_a > 0 && p.reserve_b > 0 && p.lp_supply > 0 {
        let limit_a = (amount_b as int) * (p.reserve_a as int) / (p.reserve_b as int);
        let actual_a = if limit_a <= amount_a { limit_a } else { amount_a as int };
        let actual_b = if limit_a <= amount_a { amount_b as int } else {
            (amount_a as int) * (p.reserve_b as int) / (p.reserve_a as int)
        };
        let share_a = (p.lp_supply as int) * actual_a / (p.reserve_a as int);
        let share_b = (p.lp_supply as int) * actual_b / (p.reserve_b as int);
        let minted = if share_a <= share_b { share_a } else { share_b };
        if minted <= 0 {
            Err(AmmError::ValidationError)
        } else {
            spec_deposit_apply(ctx, actual_a, actual_b, minted)
        }
    } else {
        // One side drained or claims outstanding against nothing: the stored
        // state is inconsistent and no ratio can be preserved.
        Err(AmmError::ConstraintError)
    }
}

/// The withdrawal as a state transition: what `withdraw_liquidity` returns
/// and how the accounts change, for every input. Burning `amount` claims
/// redeems the floor-rounded proportional share of each reserve.
pub open spec fn spec_withdraw(ctx: LiquidityAccounts, amount: u64) -> Result<
    LiquidityAccounts,
    AmmError,
> {
    let p = ctx.pool;
    if p.lp_supply == 0 {
        Err(AmmError::ValidationError)
    } else if amount > ctx.provider_lp {
        Err(AmmError::ValidationError)
    } else {
        let out_a = (p.reserve_a as int) * (amount as int) / (p.lp_supply as int);
        let out_b = (p.reserve_b as int) * (amount as int) / (p.lp_supply as int);
        if ctx.provider_a + out_a > u64::MAX || ctx.provider_b + out_b > u64::MAX {
            Err(AmmError::OverflowError)
        } else {
            Ok(LiquidityAccounts {
                pool: Pool {
                    reserve_a: (p.reserve_a - out_a) as u64,
                    reserve_b: (p.reserve_b - out_b) as u64,
                    lp_supply: (p.lp_supply - amount) as u64,
                    ..p
                },
                provider_a: (ctx.provider_a + out_a) as u64,
                provider_b: (ctx.provider_b + out_b) as u64,
                provider_lp: (ctx.provider_lp - amount) as u64,
            })
        }
    }
}

/// Deposits liquidity. The two amounts are upper bounds: on a funded pool the
/// ledger takes the largest pair preserving the reserve ratio and mints the
/// proportional claim; on an empty pool it takes them as given and mints
/// their geometric mean less the reserved minimum. The whole call fails — and
/// the accounts are exactly as they were — if either transfer would, if
/// nothing would be minted, or on arithmetic overflow.
pub fn deposit_liquidity(ctx: &mut LiquidityAccounts, amount_a: u64, amount_b: u64) -> (r: Result<
    (),
    AmmError,
>)
    ensures
        ({
            let m = spec_deposit(*old(ctx), amount_a, amount_b);
            match m {
                Ok(s) => r == Ok::<(), AmmError>(()) && *final(ctx) == s,
                Err(e) => r == Err::<(), AmmError>(e) && *final(ctx) == *old(ctx),
            }
        }),
        old(ctx).wf() ==> final(ctx).wf(),
{
    let ra = ctx.pool.reserve_a;
    let rb = ctx.pool.reserve_b;
    let supply = ctx.pool.lp_supply;
    if ra == 0 && rb == 0 && supply == 0 {
        proof {
            assert((amount_a as int) * (amount_b as int) <= 0xffff_ffff_ffff_ffff
                * 0xffff_ffff_ffff_ffff) by (nonlinear_arith)
                requires
                    0 <= amount_a as int <= 0xffff_ffff_ffff_ffff,
                    0 <= amount_b as int <= 0xffff_ffff_ffff_ffff,
            ;
        }
        let root = isqrt((amount_a as u128) * (amount_b as u128));
        if root <= MINIMUM_LIQUIDITY {
            return Err(AmmError::ValidationError);
        }
        let minted = root - MINIMUM_LIQUIDITY;
        if amount_a > ctx.provider_a || amount_b > ctx.provider_b {
            return Err(AmmError::ValidationError);
        }
        if minted > u64::MAX - ctx.provider_lp {
            return Err(AmmError::OverflowError);
        }
        ctx.pool.reserve_a = amount_a;
        ctx.pool.reserve_b = amount_b;
        ctx.pool.lp_supply = minted;
        ctx.provider_a = ctx.provider_a - amount_a;
        ctx.provider_b = ctx.provider_b - amount_b;
        ctx.provider_lp = ctx.provider_lp + minted;
        Ok(())
    } else if ra > 0 && rb > 0 && supply > 0 {
        let limit_a = mul_div(amount_b, ra, rb);
        let (actual_a, actual_b): (u64, u64) = if limit_a <= amount_a as u128 {
            (limit_a as u64, amount_b)
        } else {
            proof {
                let q = (amount_b as int) * (ra as int) / (rb as int);
                lemma_div_mul_le((amount_b as int) * (ra as int), rb as int);
                assert(0 <= (amount_a as int) * (rb as int) && (amount_a as int) * (rb as int)
                    < (amount_b as int) * (ra as int)) by (nonlinear_arith)
                    requires
                        q * (rb as int) <= (amount_b as int) * (ra as int),
                        q >= amount_a as int + 1,
                        rb as int > 0,
                        0 <= amount_a as int,
                ;
                lemma_div_below(
                    (amount_a as int) * (rb as int),
                    ra as int,
                    amount_b as int,
                );
            }
            (amount_a, mul_div(amount_a, rb, ra) as u64)
        };
        let share_a = mul_div(supply, actual_a, ra);
        let share_b = mul_div(supply, actual_b, rb);
        let minted_wide: u128 = if share_a <= share_b { share_a } else { share_b };
        if minted_wide == 0 {
            return Err(AmmError::ValidationError);
        }
        if actual_a > ctx.provider_a || actual_b > ctx.provider_b {
            return Err(AmmError::ValidationError);
        }
        if actual_a > u64::MAX - ra || actual_b > u64::MAX - rb {
            return Err(AmmError::OverflowError);
        }
        if minted_wide > ((u64::MAX - supply) as u128) || minted_wide > ((u64::MAX
            - ctx.provider_lp) as u128) {
            return Err(AmmError::OverflowError);
        }
        let minted = minted_wide as u64;
        ctx.pool.reserve_a = ra + actual_a;
        ctx.pool.reserve_b = rb + actual_b;
        ctx.pool.lp_supply = supply + minted;
        ctx.provider_a = ctx.provider_a - actual_a;
        ctx.provider_b = ctx.provider_b - actual_b;
        ctx.provider_lp = ctx.provider_lp + minted;
        Ok(())
    } else {
        Err(AmmError::ConstraintError)
    }
}

/// Withdraws liquidity: burns `amount` of the caller's claims and pays out
/// the floor-rounded proportional share of each reserve. Fails — leaving the
/// accounts exactly as they were — if the supply is zero, the caller holds
/// fewer than `amount` claims, or a payout would overflow a balance.
pub fn withdraw_liquidity(ctx: &mut LiquidityAccounts, amount: u64) -> (r: Result<(), AmmError>)
    requires
        old(ctx).wf(),
    ensures
        final(ctx).wf(),
        ({
            let m = spec_withdraw(*old(ctx), amount);
            match m {
                Ok(s) => r == Ok::<(), AmmError>(()) && *final(ctx) == s,
                Err(e) => r == Err::<(), AmmError>(e) && *final(ctx) == *old(ctx),
            }
        }),
{
    let ra = ctx.pool.reserve_a;
    let rb = ctx.pool.reserve_b;
    let supply = ctx.pool.lp_supply;
    if supply == 0 {
        return Err(AmmError::ValidationError);
    }
    if amount > ctx.provider_lp {
        return Err(AmmError::ValidationError);
    }
    proof {
        assert(0 <= (ra as int) * (amount as int) && (ra as int) * (amount as int) < (ra as int
            + 1) * (supply as int) && 0 <= (rb as int) * (amount as int) && (rb as int)
            * (amount as int) < (rb as int + 1) * (supply as int)) by (nonlinear_arith)
            requires
                supply as int > 0,
                0 <= amount as int <= supply as int,
                0 <= ra as int,
                0 <= rb as int,
        ;
        lemma_div_below((ra as int) * (amount as int), supply as int, ra as int + 1);
        lemma_div_below((rb as int) * (amount as int), supply as int, rb as int + 1);
    }
    let out_a = mul_div(ra, amount, supply) as u64;
    let out_b = mul_div(rb, amount, supply) as u64;
    if out_a > u64::MAX - ctx.provider_a || out_b > u64::MAX - ctx.provider_b {
        return Err(AmmError::OverflowError);
    }
    ctx.pool.reserve_a = ra - out_a;
    ctx.pool.reserve_b = rb - out_b;
    ctx.pool.lp_supply = supply - amount;
    ctx.provider_a = ctx.provider_a + out_a;
    ctx.provider_b = ctx.provider_b + out_b;
    ctx.provider_lp = ctx.provider_lp - amount;
    Ok(())
}

/// On an empty pool a deposit offering none of one token mints no claim and
/// is rejected, whatever the other amount.
pub proof fn lemma_deposit_empty_zero_side_fails(ctx: LiquidityAccounts, amount_b: u64)
    requires
        ctx.pool.reserve_a == 0,
        ctx.pool.reserve_b == 0,
        ctx.pool.lp_supply == 0,
    ensures
        spec_deposit(ctx, 0, amount_b) == Err::<LiquidityAccounts, AmmError>(
            AmmError::ValidationError,
        ),
{
    assert(0int * amount_b as int == 0) by (nonlinear_arith);
    assert(is_isqrt(0, 0));
    assert(exists|r: int| is_isqrt(r, 0));
    lemma_isqrt_unique(0, spec_isqrt(0), 0);
}

/// Withdrawing a claim and immediately depositing the exact proceeds restores
/// the pool, the supply and the provider to precisely their previous state,
/// whenever the burned share divides both reserves evenly. (Otherwise the
/// floor rounding of the payout leaves dust behind, and the restored state is
/// smaller by that dust.)
pub proof fn lemma_withdraw_then_deposit_restores(
    ctx: LiquidityAccounts,
    amount: u64,
    ctx1: LiquidityAccounts,
)
    requires
        ctx.wf(),
        0 < amount,
        (amount as int) < ctx.pool.lp_supply as int,
        ctx.pool.reserve_a > 0,
        ctx.pool.reserve_b > 0,
        ((ctx.pool.reserve_a as int) * (amount as int)) % (ctx.pool.lp_supply as int) == 0,
        ((ctx.pool.reserve_b as int) * (amount as int)) % (ctx.pool.lp_supply as int) == 0,
        spec_withdraw(ctx, amount) == Ok::<LiquidityAccounts, AmmError>(ctx1),
    ensures
        spec_deposit(
            ctx1,
            (ctx1.provider_a - ctx.provider_a) as u64,
            (ctx1.provider_b - ctx.provider_b) as u64,
        ) == Ok::<LiquidityAccounts, AmmError>(ctx),
{
    let ra = ctx.pool.reserve_a as int;
    let rb = ctx.pool.reserve_b as int;
    let s = ctx.pool.lp_supply as int;
    let amt = amount as int;
    let out_a = ra * amt / s;
    let out_b = rb * amt / s;
    vstd::arithmetic::div_mod::lemma_fundamental_div_mod(ra * amt, s);
    vstd::arithmetic::div_mod::lemma_fundamental_div_mod(rb * amt, s);
    assert(out_a * s == ra * amt && out_b * s == rb * amt) by (nonlinear_arith)
        requires
            ra * amt == s * out_a + (ra * amt) % s,
            rb * amt == s * out_b + (rb * amt) % s,
            (ra * amt) % s == 0,
            (rb * amt) % s == 0,
    ;
    assert(0 <= out_a < ra && 0 <= out_b < rb) by (nonlinear_arith)
        requires
            out_a * s == ra * amt,
            out_b * s == rb * amt,
            0 < amt < s,
            ra > 0,
            rb > 0,
    ;
    let ra1 = ra - out_a;
    let rb1 = rb - out_b;
    let s1 = s - amt;
    assert(ctx1.pool.reserve_a == ra1 && ctx1.pool.reserve_b == rb1 && ctx1.pool.lp_supply == s1);
    assert(ctx1.provider_a == ctx.provider_a + out_a && ctx1.provider_b == ctx.provider_b + out_b);
    assert((ctx1.provider_a - ctx.provider_a) as u64 == out_a);
    assert((ctx1.provider_b - ctx.provider_b) as u64 == out_b);

    // The payout pair sits exactly on the remaining reserves' ratio.
    assert(ra * out_b == rb * out_a) by (nonlinear_arith)
        requires
            out_a * s == ra * amt,
            out_b * s == rb * amt,
            s > 0,
    ;
    assert(out_b * ra1 == out_a * rb1) by (nonlinear_arith)
        requires
            ra1 == ra - out_a,
            rb1 == rb - out_b,
            ra * out_b == rb * out_a,
    ;
    lemma_div_exact(out_b * ra1, rb1, out_a);
    // Re-depositing mints back exactly the burned claim.
    assert(s1 * out_a == amt * ra1 && s1 * out_b == amt * rb1) by (nonlinear_arith)
        requires
            s1 == s - amt,
            ra1 == ra - out_a,
            rb1 == rb - out_b,
            out_a * s == ra * amt,
            out_b * s == rb * amt,
    ;
    lemma_div_exact(s1 * out_a, ra1, amt);
    lemma_div_exact(s1 * out_b, rb1, amt);
}

/// The dust direction of the withdraw-and-redeposit round trip, with no
/// divisibility assumed: depositing back exactly what a partial withdrawal
/// paid out can never leave the pool with more reserves or supply than it
/// had, nor the provider with more claims or fewer tokens — the floor
/// rounding only loses dust, never manufactures value.
pub proof fn lemma_withdraw_then_deposit_never_gains(
    ctx: LiquidityAccounts,
    amount: u64,
    ctx1: LiquidityAccounts,
    ctx2: LiquidityAccounts,
)
    requires
        ctx.wf(),
        0 < amount,
        (amount as int) < ctx.pool.lp_supply as int,
        ctx.pool.reserve_a > 0,
        ctx.pool.reserve_b > 0,
        spec_withdraw(ctx, amount) == Ok::<LiquidityAccounts, AmmError>(ctx1),
        spec_deposit(
            ctx1,
            (ctx1.provider_a - ctx.provider_a) as u64,
            (ctx1.provider_b - ctx.provider_b) as u64,
        ) == Ok::<LiquidityAccounts, AmmError>(ctx2),
    ensures
        ctx2.pool.lp_supply <= ctx.pool.lp_supply,
        ctx2.pool.reserve_a <= ctx.pool.reserve_a,
        ctx2.pool.reserve_b <= ctx.pool.reserve_b,
        ctx2.provider_lp <= ctx.provider_lp,
        ctx2.provider_a >= ctx.provider_a,
        ctx2.provider_b >= ctx.provider_b,
{
    let ra = ctx.pool.reserve_a as int;
    let rb = ctx.pool.reserve_b as int;
    let s = ctx.pool.lp_supply as int;
    let amt = amount as int;
    let out_a = ra * amt / s;
    let out_b = rb * amt / s;
    let rem_a = (ra * amt) % s;
    let rem_b = (rb * amt) % s;
    vstd::arithmetic::div_mod::lemma_fundamental_div_mod(ra * amt, s);
    vstd::arithmetic::div_mod::lemma_fundamental_div_mod(rb * amt, s);
    vstd::arithmetic::div_mod::lemma_mod_bound(ra * amt, s);
    vstd::arithmetic::div_mod::lemma_mod_bound(rb * amt, s);
    assert(0 <= out_a < ra && 0 <= out_b < rb) by (nonlinear_arith)
        requires
            ra * amt == s * out_a + rem_a,
            rb * amt == s * out_b + rem_b,
            0 <= rem_a < s,
            0 <= rem_b < s,
            0 < amt < s,
            ra > 0,
            rb > 0,
    ;
    let ra1 = ra - out_a;
    let rb1 = rb - out_b;
    let s1 = s - amt;
    assert(ctx1.pool.reserve_a == ra1 && ctx1.pool.reserve_b == rb1 && ctx1.pool.lp_supply == s1);
    assert((ctx1.provider_a - ctx.provider_a) as u64 == out_a);
    assert((ctx1.provider_b - ctx.provider_b) as u64 == out_b);

    // The redeposit lands in the proportional branch; its actual amounts
    // never exceed the payout.
    let limit_a = out_b * ra1 / rb1;
    let actual_a = if limit_a <= out_a { limit_a } else { out_a };
    let actual_b = if limit_a <= out_a { out_b } else { out_a * rb1 / ra1 };
    assert(0 <= out_b * ra1) by (nonlinear_arith)
        requires
            0 <= out_b,
            0 <= ra1,
    ;
    vstd::arithmetic::div_mod::lemma_div_pos_is_pos(out_b * ra1, rb1);
    if limit_a <= out_a {
    } else {
        lemma_div_mul_le(out_b * ra1, rb1);
        assert(0 <= out_a * rb1 && out_a * rb1 < out_b * ra1) by (nonlinear_arith)
            requires
                limit_a * rb1 <= out_b * ra1,
                limit_a >= out_a + 1,
                rb1 > 0,
                0 <= out_a,
        ;
        lemma_div_below(out_a * rb1, ra1, out_b);
    }
    assert(actual_a <= out_a && actual_b <= out_b);

    // The claim minted back never exceeds the claim burned.
    let share_a = s1 * actual_a / ra1;
    assert(0 <= s1 * actual_a && s1 * actual_a < (amt + 1) * ra1) by (nonlinear_arith)
        requires
            s1 == s - amt,
            ra1 == ra - out_a,
            s * out_a <= ra * amt,
            0 <= actual_a <= out_a,
            0 < amt < s,
            0 <= out_a < ra,
    ;
    lemma_div_below(s1 * actual_a, ra1, amt + 1);
    assert(share_a <= amt);
}

} // verus!
