//! The request shapes the pool accepts.
//!
//! Values arrive as plain strings and integers: field elements as their
//! canonical decimal rendering, addresses as bech32-style strings, amounts
//! as machine integers. The transport wrapping (JSON, signatures, message
//! routing) is the host's affair and stays outside this library.

use vstd::prelude::*;

verus! {

/// Fixes the pool's denomination at initialization.
#[derive(Clone, Debug, PartialEq)]
pub struct InstantiateMsg {
    pub denom: String,
    pub amount: u128,
}

/// A deposit: the commitment to append, as a decimal field element.
/// The payment itself travels beside the message.
#[derive(Clone, Debug, PartialEq)]
pub struct DepositMsg {
    pub commitment: String,
}

/// A withdrawal request: the public parameters the proof commits to. The
/// zero-knowledge proof object itself is opaque to this library and goes
/// straight to the external verifier. A relayer of `""` or `"0"` means no
/// relayer.
#[derive(Clone, Debug, PartialEq)]
pub struct WithdrawMsg {
    pub root: String,
    pub nullifier_hash: String,
    pub recipient: String,
    pub relayer: String,
    pub fee: u128,
}

/// The state-changing requests.
#[derive(Clone, Debug, PartialEq)]
pub enum ExecuteMsg {
    Deposit(DepositMsg),
    Withdraw(WithdrawMsg),
}

/// The read-only queries.
#[derive(Clone, Debug, PartialEq)]
pub enum QueryMsg {
    IsKnownRoot(IsKnownRootMsg),
}

/// Asks whether a root, as a decimal string, is among the recent roots.
#[derive(Clone, Debug, PartialEq)]
pub struct IsKnownRootMsg {
    pub root: String,
}

/// One fund movement the pool instructs the host ledger to perform.
#[derive(Clone, Debug, PartialEq)]
pub struct TransferInstruction {
    pub to_address: String,
    pub denom: String,
    pub amount: u128,
}

} // verus!
