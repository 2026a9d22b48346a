use vstd::prelude::*;
use crate::error::AmmError;
use crate::state::{AmmConfig, Pool};

verus! {

/// The stored configuration records and pools, as the host persists them.
/// Ids are unique among configurations, every pool is canonically ordered,
/// and no two pools bind the same mint pair under the same configuration.
pub struct Registry {
    /// Every fee configuration created so far.
    pub amms: Vec<AmmConfig>,
    /// Every pool created so far.
    pub pools: Vec<Pool>,
}

impl Registry {
    /// The registry invariant, preserved by every instruction.
    pub open spec fn wf(self) -> bool {
        &&& forall|i: int| 0 <= i < self.amms@.len() ==> (#[trigger] self.amms@[i]).wf()
        &&& forall|i: int, j: int|
            0 <= i < j < self.amms@.len() ==> #[trigger] self.amms@[i].id != #[trigger] self.amms@[j].id
        &&& forall|i: int| 0 <= i < self.pools@.len() ==> (#[trigger] self.pools@[i]).wf()
        &&& forall|i: int, j: int|
            0 <= i < j < self.pools@.len() ==> !(#[trigger] self.pools@[i].amm_id
                == #[trigger] self.pools@[j].amm_id && self.pools@[i].mint_a
                == self.pools@[j].mint_a && self.pools@[i].mint_b == self.pools@[j].mint_b)
    }

    /// Looks a configuration id up in the stored records.
    pub fn has_amm(&self, id: u64) -> (r: bool)
        ensures
            r == spec_has_amm(*self, id),
    {
        let n: usize = self.amms.len();
        let mut i: usize = 0;
        while i < n
            invariant
                n == self.amms@.len(),
                0 <= i <= n,
                forall|j: int| 0 <= j < i ==> (#[trigger] self.amms@[j]).id != id,
            decreases n - i,
        {
            if self.amms[i].id == id {
                return true;
            }
            i += 1;
        }
        false
    }

    /// Looks a pool up by configuration id and canonical mint pair.
    pub fn has_pool(&self, amm_id: u64, mint_lo: u64, mint_hi: u64) -> (r: bool)
        ensures
            r == spec_has_pool(*self, amm_id, mint_lo, mint_hi),
    {
        let n: usize = self.pools.len();
        let mut i: usize = 0;
        while i < n
            invariant
                n == self.pools@.len(),
                0 <= i <= n,
                forall|j: int|
                    0 <= j < i ==> !((#[trigger] self.pools@[j]).amm_id == amm_id
                        && self.pools@[j].mint_a == mint_lo && self.pools@[j].mint_b == mint_hi),
            decreases n - i,
        {
            let p = &self.pools[i];
            if p.amm_id == amm_id && p.mint_a == mint_lo && p.mint_b == mint_hi {
                return true;
            }
            i += 1;
        }
        false
    }
}

/// Whether `registry` holds a configuration with this id.
pub open spec fn spec_has_amm(registry: Registry, id: u64) -> bool {
    exists|i: int| 0 <= i < registry.amms@.len() && (#[trigger] registry.amms@[i]).id == id
}

/// Whether `registry` holds a pool for this configuration and canonical pair.
pub open spec fn spec_has_pool(registry: Registry, amm_id: u64, mint_lo: u64, mint_hi: u64) -> bool {
    exists|i: int|
        0 <= i < registry.pools@.len() && (#[trigger] registry.pools@[i]).amm_id == amm_id
            && registry.pools@[i].mint_a == mint_lo && registry.pools@[i].mint_b == mint_hi
}

/// The configuration record `create_amm` stores, or why it refuses to.
pub open spec fn spec_create_amm(registry: Registry, id: u64, fee: u16) -> Result<
    AmmConfig,
    AmmError,
> {
    if fee >= 1000 {
        Err(AmmError::ValidationError)
    } else if spec_has_amm(registry, id) {
        Err(AmmError::ValidationError)
    } else {
        Ok(AmmConfig { id, fee })
    }
}

/// The pool record `create_pool` stores — with its mints in canonical order,
/// so both namings of a pair resolve to the same pool — or why it refuses to.
pub open spec fn spec_create_pool(registry: Registry, amm_id: u64, mint_a: u64, mint_b: u64)
    -> Result<Pool, AmmError> {
    let lo = if mint_a < mint_b { mint_a } else { mint_b };
    let hi = if mint_a < mint_b { mint_b } else { mint_a };
    if mint_a == mint_b {
        Err(AmmError::ValidationError)
    } else if !spec_has_amm(registry, amm_id) {
        Err(AmmError::ConstraintError)
    } else if spec_has_pool(registry, amm_id, lo, hi) {
        Err(AmmError::ValidationError)
    } else {
        Ok(Pool { amm_id, mint_a: lo, mint_b: hi, reserve_a: 0, reserve_b: 0, lp_supply: 0 })
    }
}

/// Creates an immutable fee configuration under a caller-chosen id. Fails if
/// the fee is not below 1000 thousandths or the id is already taken; on any
/// failure the registry is exactly as it was.
pub fn create_amm(registry: &mut Registry, id: u64, fee: u16) -> (r: Result<(), AmmError>)
    requires
        old(registry).wf(),
    ensures
        final(registry).wf(),
        ({
            let m = spec_create_amm(*old(registry), id, fee);
            match m {
                Ok(c) => r == Ok::<(), AmmError>(()) && final(registry).amms@ == old(
                    registry,
                ).amms@.push(c) && final(registry).pools@ == old(registry).pools@,
                Err(e) => r == Err::<(), AmmError>(e) && *final(registry) == *old(registry),
            }
        }),
{
    if fee >= 1000 {
        return Err(AmmError::ValidationError);
    }
    if registry.has_amm(id) {
        return Err(AmmError::ValidationError);
    }
    registry.amms.push(AmmConfig { id, fee });
    Ok(())
}

/// Creates the unique pool for a configuration and an unordered pair of
/// distinct mints, with empty reserves and no claims outstanding. The pair is
/// canonicalized, so `(a, b)` and `(b, a)` resolve to the same pool. Fails if
/// the mints are equal, the configuration does not exist, or the pool already
/// does; on any failure the registry is exactly as it was.
pub fn create_pool(registry: &mut Registry, amm_id: u64, mint_a: u64, mint_b: u64) -> (r: Result<
    (),
    AmmError,
>)
    requires
        old(registry).wf(),
    ensures
        final(registry).wf(),
        ({
            let m = spec_create_pool(*old(registry), amm_id, mint_a, mint_b);
            match m {
                Ok(p) => r == Ok::<(), AmmError>(()) && final(registry).pools@ == old(
                    registry,
                ).pools@.push(p) && final(registry).amms@ == old(registry).amms@,
                Err(e) => r == Err::<(), AmmError>(e) && *final(registry) == *old(registry),
            }
        }),
{
    if mint_a == mint_b {
        return Err(AmmError::ValidationError);
    }
    let lo = if mint_a < mint_b { mint_a } else { mint_b };
    let hi = if mint_a < mint_b { mint_b } else { mint_a };
    if !registry.has_amm(amm_id) {
        return Err(AmmError::ConstraintError);
    }
    if registry.has_pool(amm_id, lo, hi) {
        return Err(AmmError::ValidationError);
    }
    registry.pools.push(Pool { amm_id, mint_a: lo, mint_b: hi, reserve_a: 0, reserve_b: 0, lp_supply: 0 });
    Ok(())
}

/// Canonical pairing: naming the two mints in either order gives the same
/// outcome, because `create_pool` sorts the pair before deriving the pool.
pub proof fn lemma_create_pool_order_irrelevant(
    registry: Registry,
    amm_id: u64,
    mint_a: u64,
    mint_b: u64,
)
    ensures
        spec_create_pool(registry, amm_id, mint_a, mint_b) == spec_create_pool(
            registry,
            amm_id,
            mint_b,
            mint_a,
        ),
{
}

} // verus!
