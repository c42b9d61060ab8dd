//! The deposit and withdrawal protocol.
//!
//! Each operation is one all-or-nothing transition of the pool: every
//! check precedes every write, so a rejected request leaves the
//! accumulator and the registry untouched. The withdrawal sequence is
//! fixed: address validity, signal encoding, nullifier uniqueness, root
//! freshness, proof verdict, fee bound — and only then the irreversible
//! registry write and the transfer instructions.
//!
//! Two collaborators stay outside this library: address validation and
//! the zero-knowledge proof verifier. Their verdicts enter as booleans;
//! `prepare_withdraw` hands the caller the encoded public signals the
//! verifier must be asked about, and `execute_withdraw` finishes the
//! sequence for whatever verdict came back.

use vstd::prelude::*;
use vstd::arithmetic::power2::pow2;
use crate::error::ContractError;
use crate::field::FieldElement;
use crate::field::dec_value;
use crate::merkle_tree::MerkleTreeWithHistory;
use crate::msg::DepositMsg;
use crate::msg::InstantiateMsg;
use crate::msg::IsKnownRootMsg;
use crate::msg::TransferInstruction;
use crate::msg::WithdrawMsg;
use crate::signals::PublicSignals;
use crate::signals::is_no_relayer;
use crate::signals::parses_field_elem;
use crate::signals::spec_no_relayer;
use crate::signals::spec_signal_ok;
use crate::signals::spec_signals;
use crate::nullifier::NullifierRegistry;
use crate::state::POOL_TREE_LEVELS;
use crate::state::Pool;
use poseidon_rs::Poseidon;

verus! {

/// Sets up a production pool: the fixed denomination from the message and
/// an empty accumulator of the standard depth.
pub fn instantiate(hasher: &Poseidon, msg: InstantiateMsg) -> (p: Pool)
    ensures
        p.wf(),
        p.commitments.is_fresh(POOL_TREE_LEVELS),
        p.denom@ == msg.denom@,
        p.denomination == msg.amount,
        p.nullifier_hashes.spent@.len() == 0,
{
    Pool {
        denom: msg.denom,
        denomination: msg.amount,
        commitments: MerkleTreeWithHistory::new(hasher, POOL_TREE_LEVELS),
        nullifier_hashes: NullifierRegistry::new(),
    }
}

/// Whether the pool accepts the attached payment: exactly the pool's
/// denomination, in the pool's denom, nothing else.
pub open spec fn payment_ok(pool: Pool, payment_denom: Seq<char>, payment_amount: u128) -> bool {
    payment_denom == pool.denom@ && payment_amount == pool.denomination
}

/// Accepts a deposit: checks the payment equals the pool denomination,
/// parses the commitment, and appends it to the accumulator, returning
/// the assigned leaf index. No partial deposits and no change: a payment
/// under or over the denomination is rejected whole.
pub fn execute_deposit(
    pool: &mut Pool,
    hasher: &Poseidon,
    payment_denom: &String,
    payment_amount: u128,
    msg: &DepositMsg,
) -> (r: Result<u32, ContractError>)
    requires
        old(pool).wf(),
    ensures
        final(pool).wf(),
        final(pool).denom == old(pool).denom,
        final(pool).denomination == old(pool).denomination,
        final(pool).nullifier_hashes == old(pool).nullifier_hashes,
        ({
            let pay_ok = payment_ok(*old(pool), payment_denom@, payment_amount);
            let parse_ok = parses_field_elem(msg.commitment@);
            let full = old(pool).commitments.next_index == pow2(
                old(pool).commitments.levels as nat,
            );
            match r {
                Ok(idx) => {
                    &&& pay_ok
                    &&& parse_ok
                    &&& !full
                    &&& MerkleTreeWithHistory::insert_transition(
                        old(pool).commitments,
                        dec_value(msg.commitment@),
                        final(pool).commitments,
                        Some(idx),
                    )
                },
                Err(e) => {
                    &&& *final(pool) == *old(pool)
                    &&& if !pay_ok {
                        e == ContractError::WrongAmount
                    } else if !parse_ok {
                        e == ContractError::MalformedSignal
                    } else {
                        full && e == ContractError::TreeFull
                    }
                },
            }
        }),
{
    if !pool.denom.eq(payment_denom) || payment_amount != pool.denomination {
        return Err(ContractError::WrongAmount);
    }
    let commitment = match FieldElement::from_decimal_str(msg.commitment.as_str()) {
        Some(f) => f,
        None => { return Err(ContractError::MalformedSignal) },
    };
    match pool.commitments.insert(hasher, &commitment) {
        Some(idx) => Ok(idx),
        None => Err(ContractError::TreeFull),
    }
}

/// Whether the externally validated addresses let a withdrawal proceed:
/// the recipient must be valid, and a relayer only when one is actually
/// named.
pub open spec fn withdraw_addr_ok(
    msg: WithdrawMsg,
    recipient_valid: bool,
    relayer_valid: bool,
) -> bool {
    recipient_valid && (spec_no_relayer(msg.relayer@) || relayer_valid)
}

/// The first check a withdrawal request fails before the proof verdict
/// is even consulted, or `None` when it passes them all: address
/// validity, then signal encoding, then nullifier uniqueness, then root
/// freshness.
pub open spec fn spec_prepare_error(
    pool: Pool,
    msg: WithdrawMsg,
    recipient_valid: bool,
    relayer_valid: bool,
) -> Option<ContractError> {
    if !withdraw_addr_ok(msg, recipient_valid, relayer_valid) {
        Some(ContractError::InvalidAddress)
    } else if !spec_signal_ok(msg.root@, msg.nullifier_hash@, msg.recipient@, msg.relayer@) {
        Some(ContractError::MalformedSignal)
    } else if pool.nullifier_hashes.spec_contains(msg.nullifier_hash@) {
        Some(ContractError::DuplicateNullifier)
    } else if !pool.commitments.spec_known_root(dec_value(msg.root@)) {
        Some(ContractError::UnknownRoot)
    } else {
        None
    }
}

/// The first check a full withdrawal fails, or `None` when it is
/// authorized: the preparatory checks, then the proof verdict, then the
/// fee bound.
pub open spec fn spec_withdraw_error(
    pool: Pool,
    msg: WithdrawMsg,
    recipient_valid: bool,
    relayer_valid: bool,
    proof_valid: bool,
) -> Option<ContractError> {
    if spec_prepare_error(pool, msg, recipient_valid, relayer_valid) is Some {
        spec_prepare_error(pool, msg, recipient_valid, relayer_valid)
    } else if !proof_valid {
        Some(ContractError::InvalidProof)
    } else if msg.fee > pool.denomination {
        Some(ContractError::FeeExceedsPrincipal)
    } else {
        None
    }
}

/// Runs every withdrawal check that precedes proof verification and, when
/// they all pass, returns the encoded public signals the external
/// verifier must be asked about. Mutates nothing.
pub fn prepare_withdraw(
    pool: &Pool,
    msg: &WithdrawMsg,
    recipient_valid: bool,
    relayer_valid: bool,
) -> (r: Result<PublicSignals, ContractError>)
    requires
        pool.wf(),
        pool.commitments.current_root_index != 0,
    ensures
        match r {
            Ok(ps) => {
                &&& spec_prepare_error(*pool, *msg, recipient_valid, relayer_valid) is None
                &&& ps.signals@.len() == 5
                &&& forall|i: int|
                    0 <= i < 5 ==> (#[trigger] ps.signals@[i])@ == spec_signals(
                        msg.root@,
                        msg.nullifier_hash@,
                        msg.recipient@,
                        msg.relayer@,
                        msg.fee as nat,
                    )[i]
            },
            Err(e) => Some(e) == spec_prepare_error(*pool, *msg, recipient_valid, relayer_valid),
        },
{
    if !recipient_valid {
        return Err(ContractError::InvalidAddress);
    }
    if !is_no_relayer(msg.relayer.as_str()) && !relayer_valid {
        return Err(ContractError::InvalidAddress);
    }
    let ps = match PublicSignals::from_values(
        msg.root.clone(),
        msg.nullifier_hash.clone(),
        msg.recipient.clone(),
        msg.relayer.clone(),
        msg.fee,
    ) {
        Ok(ps) => ps,
        Err(e) => { return Err(e) },
    };
    if pool.nullifier_hashes.contains(&msg.nullifier_hash) {
        return Err(ContractError::DuplicateNullifier);
    }
    let root_fe = ps.signals[0];
    if !pool.commitments.is_known_root(&root_fe) {
        return Err(ContractError::UnknownRoot);
    }
    Ok(ps)
}

/// Completes a withdrawal for the verdict the external verifier returned.
/// Re-runs the whole check sequence; only when every check passes does it
/// mark the nullifier spent (the one irreversible write) and emit the
/// transfer instructions: the denomination minus the fee to the
/// recipient, and the fee, when non-zero, to the relayer. The fee bound
/// is checked before the registry write, so no failure leaves any trace.
pub fn execute_withdraw(
    pool: &mut Pool,
    msg: &WithdrawMsg,
    recipient_valid: bool,
    relayer_valid: bool,
    proof_valid: bool,
) -> (r: Result<Vec<TransferInstruction>, ContractError>)
    requires
        old(pool).wf(),
        old(pool).commitments.current_root_index != 0,
    ensures
        final(pool).wf(),
        final(pool).denom == old(pool).denom,
        final(pool).denomination == old(pool).denomination,
        final(pool).commitments == old(pool).commitments,
        match r {
            Ok(t) => {
                &&& spec_withdraw_error(
                    *old(pool),
                    *msg,
                    recipient_valid,
                    relayer_valid,
                    proof_valid,
                ) is None
                &&& forall|s: Seq<char>|
                    final(pool).nullifier_hashes.spec_contains(s) == (old(
                        pool,
                    ).nullifier_hashes.spec_contains(s) || s == msg.nullifier_hash@)
                &&& final(pool).nullifier_hashes.spent@.len() == old(
                    pool,
                ).nullifier_hashes.spent@.len() + 1
                &&& t@.len() == (if msg.fee == 0 {
                    1int
                } else {
                    2int
                })
                &&& t@[0].to_address@ == msg.recipient@
                &&& t@[0].denom@ == old(pool).denom@
                &&& t@[0].amount == old(pool).denomination - msg.fee
                &&& msg.fee != 0 ==> (t@[1].to_address@ == msg.relayer@ && t@[1].denom@ == old(
                    pool,
                ).denom@ && t@[1].amount == msg.fee)
            },
            Err(e) => {
                &&& *final(pool) == *old(pool)
                &&& Some(e) == spec_withdraw_error(
                    *old(pool),
                    *msg,
                    recipient_valid,
                    relayer_valid,
                    proof_valid,
                )
            },
        },
{
    if !recipient_valid {
        return Err(ContractError::InvalidAddress);
    }
    if !is_no_relayer(msg.relayer.as_str()) && !relayer_valid {
        return Err(ContractError::InvalidAddress);
    }
    let ps = match PublicSignals::from_values(
        msg.root.clone(),
        msg.nullifier_hash.clone(),
        msg.recipient.clone(),
        msg.relayer.clone(),
        msg.fee,
    ) {
        Ok(ps) => ps,
        Err(e) => { return Err(e) },
    };
    if pool.nullifier_hashes.contains(&msg.nullifier_hash) {
        return Err(ContractError::DuplicateNullifier);
    }
    let root_fe = ps.signals[0];
    if !pool.commitments.is_known_root(&root_fe) {
        return Err(ContractError::UnknownRoot);
    }
    if !proof_valid {
        return Err(ContractError::InvalidProof);
    }
    if msg.fee > pool.denomination {
        return Err(ContractError::FeeExceedsPrincipal);
    }
    pool.nullifier_hashes.mark_spent(msg.nullifier_hash.clone());
    let amount_to_recipient = pool.denomination - msg.fee;
    let mut msgs: Vec<TransferInstruction> = Vec::new();
    msgs.push(
        TransferInstruction {
            to_address: msg.recipient.clone(),
            denom: pool.denom.clone(),
            amount: amount_to_recipient,
        },
    );
    if msg.fee != 0 {
        msgs.push(
            TransferInstruction {
                to_address: msg.relayer.clone(),
                denom: pool.denom.clone(),
                amount: msg.fee,
            },
        );
    }
    Ok(msgs)
}

/// Answers whether a root, given as a decimal string, is among the
/// accumulator's remembered roots.
pub fn query_is_known_root(pool: &Pool, msg: &IsKnownRootMsg) -> (r: Result<
    bool,
    ContractError,
>)
    requires
        pool.wf(),
    ensures
        match r {
            Ok(b) => parses_field_elem(msg.root@) && b == pool.commitments.spec_known_root(
                dec_value(msg.root@),
            ),
            Err(e) => e == ContractError::MalformedSignal && !parses_field_elem(msg.root@),
        },
{
    let root_fe = match FieldElement::from_decimal_str(msg.root.as_str()) {
        Some(f) => f,
        None => { return Err(ContractError::MalformedSignal) },
    };
    Ok(pool.commitments.is_known_root(&root_fe))
}

/// A nullifier hash, once spent by an authorized withdrawal, bars every
/// later withdrawal that names it: whatever root, proof verdict and
/// otherwise well-formed parameters the second request carries, it is
/// rejected with `DuplicateNullifier`, and the first request alone
/// succeeded.
pub proof fn lemma_duplicate_nullifier_rejected(
    pre: Pool,
    mid: Pool,
    msg1: WithdrawMsg,
    msg2: WithdrawMsg,
    rv1: bool,
    lv1: bool,
    rv2: bool,
    lv2: bool,
    pv2: bool,
)
    requires
        spec_withdraw_error(pre, msg1, rv1, lv1, true) is None,
        forall|s: Seq<char>|
            mid.nullifier_hashes.spec_contains(s) == (pre.nullifier_hashes.spec_contains(s)
                || s == msg1.nullifier_hash@),
        msg2.nullifier_hash@ == msg1.nullifier_hash@,
        withdraw_addr_ok(msg2, rv2, lv2),
        spec_signal_ok(msg2.root@, msg2.nullifier_hash@, msg2.recipient@, msg2.relayer@),
    ensures
        spec_withdraw_error(mid, msg2, rv2, lv2, pv2) == Some(ContractError::DuplicateNullifier),
{
    assert(mid.nullifier_hashes.spec_contains(msg2.nullifier_hash@));
}

} // verus!
