use vstd::prelude::*;
use crate::error::AmmError;
use crate::math::{
    lemma_round_trip_output_bounded, lemma_swap_preserves_product, lemma_taxed_input_bounds,
    spec_swap_output, spec_taxed_input, swap_output, taxed_input,
};
use crate::state::{AmmConfig, Pool};

verus! {

/// The accounts a swap touches: the fee configuration, the pool whose
/// reserves are traded against, and the trader's two token balances.
#[derive(Clone, Copy, Debug, PartialEq, Eq)]
pub struct SwapToken {
    /// The fee configuration the pool trades under.
    pub amm: AmmConfig,
    /// The pool, holding both reserves and the claim supply.
    pub pool: Pool,
    /// The trader's balance of mint-a tokens.
    pub trader_a: u64,
    /// The trader's balance of mint-b tokens.
    pub trader_b: u64,
}

/// The output a swap would pay: the requested amount is clamped to the
/// trader's balance, the fee is deducted, and the remainder is priced by the
/// constant-product rule against the pre-trade reserves.
pub open spec fn spec_swap_quote(ctx: SwapToken, swap_a: bool, input_amount: u64) -> int {
    let trader_in = if swap_a { ctx.trader_a } else { ctx.trader_b };
    let reserve_in = if swap_a { ctx.pool.reserve_a } else { ctx.pool.reserve_b };
    let reserve_out = if swap_a { ctx.pool.reserve_b } else { ctx.pool.reserve_a };
    let input = if input_amount > trader_in { trader_in as int } else { input_amount as int };
    let taxed = spec_taxed_input(input, ctx.amm.fee as int);
    spec_swap_output(taxed, reserve_in as int, reserve_out as int)
}

/// The swap as a state transition: what `swap_token` returns and how the
/// accounts change, for every input. `swap_a` selects the input side
/// (`true` trades mint-a for mint-b).
pub open spec fn spec_swap(
    ctx: SwapToken,
    swap_a: bool,
    input_amount: u64,
    min_output_amount: u64,
) -> Result<SwapToken, AmmError> {
    let trader_in = if swap_a { ctx.trader_a } else { ctx.trader_b };
    let trader_out = if swap_a { ctx.trader_b } else { ctx.trader_a };
    let reserve_in = if swap_a { ctx.pool.reserve_a } else { ctx.pool.reserve_b };
    let reserve_out = if swap_a { ctx.pool.reserve_b } else { ctx.pool.reserve_a };
    let input = if input_amount > trader_in { trader_in as int } else { input_amount as int };
    let taxed = spec_taxed_input(input, ctx.amm.fee as int);
    if ctx.pool.amm_id != ctx.amm.id {
        Err(AmmError::ConstraintError)
    } else if reserve_in + taxed <= 0 {
        // Nothing to price against: the quote's divisor would be zero.
        Err(AmmError::OverflowError)
    } else {
        let output = spec_swap_output(taxed, reserve_in as int, reserve_out as int);
        if output < min_output_amount {
            Err(AmmError::SlippageError)
        } else if reserve_in + input > u64::MAX || trader_out + output > u64::MAX {
            Err(AmmError::OverflowError)
        } else {
            let new_reserve_in = (reserve_in + input) as u64;
            let new_reserve_out = (reserve_out - output) as u64;
            Ok(SwapToken {
                amm: ctx.amm,
                pool: Pool {
                    reserve_a: if swap_a { new_reserve_in } else { new_reserve_out },
                    reserve_b: if swap_a { new_reserve_out } else { new_reserve_in },
                    ..ctx.pool
                },
                trader_a: if swap_a { (trader_in - input) as u64 } else {
                    (trader_out + output) as u64
                },
                trader_b: if swap_a { (trader_out + output) as u64 } else {
                    (trader_in - input) as u64
                },
            })
        }
    }
}

/// Trades one side of the pool for the other. The requested input is clamped
/// to the trader's balance, the fee is deducted before pricing, the caller's
/// minimum output is enforced, the full input enters the pool and the quoted
/// output leaves it, and the pre-trade reserve product is re-checked after the
/// balances move. On any error the accounts are exactly as they were.
pub fn swap_token(
    ctx: &mut SwapToken,
    swap_a: bool,
    input_amount: u64,
    min_output_amount: u64,
) -> (r: Result<(), AmmError>)
    requires
        old(ctx).amm.wf(),
    ensures
        ({
            let m = spec_swap(*old(ctx), swap_a, input_amount, min_output_amount);
            match m {
                Ok(s) => r == Ok::<(), AmmError>(()) && *final(ctx) == s,
                Err(e) => r == Err::<(), AmmError>(e) && *final(ctx) == *old(ctx),
            }
        }),
        r is Ok ==> (final(ctx).pool.reserve_a as int) * (final(ctx).pool.reserve_b as int)
            >= (old(ctx).pool.reserve_a as int) * (old(ctx).pool.reserve_b as int),
{
    if ctx.pool.amm_id != ctx.amm.id {
        return Err(AmmError::ConstraintError);
    }
    let trader_in = if swap_a { ctx.trader_a } else { ctx.trader_b };
    let trader_out = if swap_a { ctx.trader_b } else { ctx.trader_a };
    let reserve_in = if swap_a { ctx.pool.reserve_a } else { ctx.pool.reserve_b };
    let reserve_out = if swap_a { ctx.pool.reserve_b } else { ctx.pool.reserve_a };

    // Never attempt to move more than the trader actually holds.
    let input = if input_amount > trader_in { trader_in } else { input_amount };
    let taxed = taxed_input(input, ctx.amm.fee);
    if taxed == 0 && reserve_in == 0 {
        return Err(AmmError::OverflowError);
    }
    let output = swap_output(taxed, reserve_in, reserve_out);
    if output < min_output_amount {
        return Err(AmmError::SlippageError);
    }
    if input > u64::MAX - reserve_in {
        return Err(AmmError::OverflowError);
    }
    if output > u64::MAX - trader_out {
        return Err(AmmError::OverflowError);
    }

    // The full, pre-fee input enters the pool; the quoted output leaves it.
    let new_reserve_in = reserve_in + input;
    let new_reserve_out = reserve_out - output;
    proof {
        lemma_swap_preserves_product(
            reserve_in as int,
            reserve_out as int,
            input as int,
            taxed as int,
        );
        assert((new_reserve_in as int) * (new_reserve_out as int) <= 0xffff_ffff_ffff_ffff
            * 0xffff_ffff_ffff_ffff && (reserve_in as int) * (reserve_out as int)
            <= 0xffff_ffff_ffff_ffff * 0xffff_ffff_ffff_ffff) by (nonlinear_arith)
            requires
                0 <= new_reserve_in as int <= 0xffff_ffff_ffff_ffff,
                0 <= new_reserve_out as int <= 0xffff_ffff_ffff_ffff,
                0 <= reserve_in as int <= 0xffff_ffff_ffff_ffff,
                0 <= reserve_out as int <= 0xffff_ffff_ffff_ffff,
        ;
    }
    // Post-trade backstop: the reserve product must not have fallen. The
    // contract above proves this branch can never be taken.
    if (new_reserve_in as u128) * (new_reserve_out as u128) < (reserve_in as u128) * (reserve_out
        as u128) {
        return Err(AmmError::InvariantViolated);
    }

    if swap_a {
        ctx.pool.reserve_a = new_reserve_in;
        ctx.pool.reserve_b = new_reserve_out;
        ctx.trader_a = trader_in - input;
        ctx.trader_b = trader_out + output;
    } else {
        ctx.pool.reserve_b = new_reserve_in;
        ctx.pool.reserve_a = new_reserve_out;
        ctx.trader_b = trader_in - input;
        ctx.trader_a = trader_out + output;
    }
    proof {
        assert((new_reserve_out as int) * (new_reserve_in as int) >= (reserve_out as int)
            * (reserve_in as int)) by (nonlinear_arith)
            requires
                (new_reserve_in as int) * (new_reserve_out as int) >= (reserve_in as int)
                    * (reserve_out as int),
        ;
    }
    Ok(())
}

/// An `input_amount` beyond the trader's balance is silently clamped, never
/// rejected: the swap behaves exactly as if the balance itself were requested.
pub proof fn lemma_swap_clamps_input(
    ctx: SwapToken,
    swap_a: bool,
    input_amount: u64,
    min_output_amount: u64,
)
    requires
        input_amount > (if swap_a { ctx.trader_a } else { ctx.trader_b }),
    ensures
        spec_swap(ctx, swap_a, input_amount, min_output_amount) == spec_swap(
            ctx,
            swap_a,
            if swap_a { ctx.trader_a } else { ctx.trader_b },
            min_output_amount,
        ),
{
}

/// The slippage gate: whenever the caller's minimum exceeds the true quote the
/// swap fails with `SlippageError`, and a minimum at or below the quote never
/// trips it.
pub proof fn lemma_slippage_gate(
    ctx: SwapToken,
    swap_a: bool,
    input_amount: u64,
    min_output_amount: u64,
)
    requires
        ctx.pool.amm_id == ctx.amm.id,
        (if swap_a { ctx.pool.reserve_a } else { ctx.pool.reserve_b }) + spec_taxed_input(
            if input_amount > (if swap_a { ctx.trader_a } else { ctx.trader_b }) {
                (if swap_a { ctx.trader_a } else { ctx.trader_b }) as int
            } else {
                input_amount as int
            },
            ctx.amm.fee as int,
        ) > 0,
    ensures
        spec_swap(ctx, swap_a, input_amount, min_output_amount) == Err::<SwapToken, AmmError>(
            AmmError::SlippageError,
        ) <==> spec_swap_quote(ctx, swap_a, input_amount) < min_output_amount,
{
}

/// Round trip: a swap of mint-a for mint-b followed by a swap back of the
/// entire proceeds never returns more mint-a than the first swap consumed.
/// The fee and the floor rounding strictly remove value, so a trader cannot
/// profit against the pool alone.
pub proof fn lemma_round_trip_no_gain(
    ctx: SwapToken,
    input_amount: u64,
    back_amount: u64,
    min1: u64,
    min2: u64,
    ctx1: SwapToken,
    ctx2: SwapToken,
)
    requires
        ctx.amm.wf(),
        spec_swap(ctx, true, input_amount, min1) == Ok::<SwapToken, AmmError>(ctx1),
        back_amount as int == ctx1.trader_b as int - ctx.trader_b as int,
        spec_swap(ctx1, false, back_amount, min2) == Ok::<SwapToken, AmmError>(ctx2),
    ensures
        ctx2.trader_a <= ctx.trader_a,
{
    let a = ctx.pool.reserve_a as int;
    let b = ctx.pool.reserve_b as int;
    let x = if input_amount > ctx.trader_a { ctx.trader_a as int } else { input_amount as int };
    let t1 = spec_taxed_input(x, ctx.amm.fee as int);
    let y = spec_swap_output(t1, a, b);
    lemma_taxed_input_bounds(x, ctx.amm.fee as int);
    lemma_swap_preserves_product(a, b, x, t1);
    assert(ctx1.pool.reserve_a == a + x && ctx1.pool.reserve_b == b - y);
    assert(ctx1.trader_b as int == ctx.trader_b as int + y);
    assert(back_amount as int == y);
    let t2 = spec_taxed_input(y, ctx.amm.fee as int);
    lemma_taxed_input_bounds(y, ctx.amm.fee as int);
    let z = spec_swap_output(t2, b - y, a + x);
    lemma_round_trip_output_bounded(a, b, x, t1, y, t2, z);
    assert(ctx2.trader_a as int == ctx.trader_a as int - x + z);
}

} // verus!
