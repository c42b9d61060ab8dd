//! The pool's persistent state, owned as one unit.
//!
//! The host ledger persists this structure between operations; each
//! deposit or withdrawal loads it, runs one atomic transition, and saves
//! it back. Serialization is the host's affair.

use vstd::prelude::*;
use crate::error::ContractError;
use crate::merkle_tree::MerkleTreeWithHistory;
use crate::nullifier::NullifierRegistry;
use poseidon_rs::Poseidon;

verus! {

/// The fixed tree depth of a production pool.
pub const POOL_TREE_LEVELS: u32 = 20;

/// Everything the pool persists: the fixed denomination, the commitment
/// accumulator, and the spent-nullifier registry.
#[derive(Clone, Debug, PartialEq)]
pub struct Pool {
    pub denom: String,
    pub denomination: u128,
    pub commitments: MerkleTreeWithHistory,
    pub nullifier_hashes: NullifierRegistry,
}

impl Pool {
    /// A pool is well-formed when its accumulator is.
    pub open spec fn wf(self) -> bool {
        self.commitments.wf()
    }

    /// Creates a pool with an empty accumulator of the given depth and no
    /// spent nullifiers. Rejects a depth of zero or of 32 and beyond.
    pub fn new(
        hasher: &Poseidon,
        denom: String,
        amount: u128,
        levels: u32,
    ) -> (r: Result<Pool, ContractError>)
        ensures
            match r {
                Ok(p) => {
                    &&& 1 <= levels < 32
                    &&& p.wf()
                    &&& p.commitments.is_fresh(levels)
                    &&& p.denom@ == denom@
                    &&& p.denomination == amount
                    &&& p.nullifier_hashes.spent@.len() == 0
                },
                Err(e) => {
                    &&& e == ContractError::ConstructionError
                    &&& !(1 <= levels < 32)
                },
            },
    {
        if levels == 0 || levels >= 32 {
            return Err(ContractError::ConstructionError);
        }
        Ok(
            Pool {
                denom,
                denomination: amount,
                commitments: MerkleTreeWithHistory::new(hasher, levels),
                nullifier_hashes: NullifierRegistry::new(),
            },
        )
    }
}

} // verus!
