use cosmwasm_std::Uint256;
use juicer::contract::{execute_deposit, execute_withdraw, instantiate, prepare_withdraw,
                       query_is_known_root};
use juicer::error::ContractError;
use juicer::field::FieldElement;
use juicer::msg::{DepositMsg, InstantiateMsg, IsKnownRootMsg, WithdrawMsg};
use juicer::state::Pool;
use poseidon_rs::Poseidon;

/// Renders a field element as its canonical decimal string.
fn fe_to_dec(f: &FieldElement) -> String {
    let mut bytes = [0u8; 32];
    bytes[0..8].copy_from_slice(&f.l0.to_le_bytes());
    bytes[8..16].copy_from_slice(&f.l1.to_le_bytes());
    bytes[16..24].copy_from_slice(&f.l2.to_le_bytes());
    bytes[24..32].copy_from_slice(&f.l3.to_le_bytes());
    Uint256::from_le_bytes(bytes).to_string()
}

const RECIPIENT: &str = "juno14spgzl9ps5tyev32ny74fa6m0s9q9828v0vrga";
const RELAYER: &str = "juno1am5sw4geda8xfvmn4pkzruhv8ah0l3jx5hgchh";

fn small_pool(hasher: &Poseidon) -> Pool {
    Pool::new(hasher, "TKN".to_string(), 10, 4).unwrap()
}

#[test]
fn test_deposit() {
    let hasher = Poseidon::new();
    let mut pool = instantiate(&hasher, InstantiateMsg {
        denom: "TKN".to_string(),
        amount: 10,
    });
    let deposit_msg = DepositMsg {
        commitment: "276277773929387392791096474084808108569850403587654342680891529007770412737"
            .to_string(),
    };
    let res = execute_deposit(&mut pool, &hasher, &"TKN".to_string(), 10, &deposit_msg);
    assert_eq!(res, Ok(0));
    assert_eq!(pool.commitments.next_index, 1);
}

#[test]
fn test_deposit_wrong_amount() {
    let hasher = Poseidon::new();
    let mut pool = small_pool(&hasher);
    let msg = DepositMsg {
        commitment: "42".to_string(),
    };
    let res = execute_deposit(&mut pool, &hasher, &"TKN".to_string(), 5, &msg);
    assert_eq!(res, Err(ContractError::WrongAmount));
    assert_eq!(pool.commitments.next_index, 0);

    let res = execute_deposit(&mut pool, &hasher, &"OTHER".to_string(), 10, &msg);
    assert_eq!(res, Err(ContractError::WrongAmount));
    assert_eq!(pool.commitments.next_index, 0);
}

#[test]
fn test_deposit_malformed_commitment() {
    let hasher = Poseidon::new();
    let mut pool = small_pool(&hasher);
    let msg = DepositMsg {
        commitment: "not-a-number".to_string(),
    };
    let res = execute_deposit(&mut pool, &hasher, &"TKN".to_string(), 10, &msg);
    assert_eq!(res, Err(ContractError::MalformedSignal));
    assert_eq!(pool.commitments.next_index, 0);
}

#[test]
fn test_deposit_tree_full() {
    let hasher = Poseidon::new();
    let mut pool = Pool::new(&hasher, "TKN".to_string(), 10, 1).unwrap();
    let tkn = "TKN".to_string();
    assert_eq!(
        execute_deposit(&mut pool, &hasher, &tkn, 10, &DepositMsg { commitment: "1".to_string() }),
        Ok(0)
    );
    assert_eq!(
        execute_deposit(&mut pool, &hasher, &tkn, 10, &DepositMsg { commitment: "2".to_string() }),
        Ok(1)
    );
    let before = pool.clone();
    assert_eq!(
        execute_deposit(&mut pool, &hasher, &tkn, 10, &DepositMsg { commitment: "3".to_string() }),
        Err(ContractError::TreeFull)
    );
    assert_eq!(pool, before);
}

#[test]
fn test_pool_construction_bad_depth() {
    let hasher = Poseidon::new();
    assert_eq!(
        Pool::new(&hasher, "TKN".to_string(), 10, 0).err(),
        Some(ContractError::ConstructionError)
    );
    assert_eq!(
        Pool::new(&hasher, "TKN".to_string(), 10, 32).err(),
        Some(ContractError::ConstructionError)
    );
}

#[test]
fn test_withdraw_happy_path_and_duplicate_nullifier() {
    let hasher = Poseidon::new();
    let mut pool = small_pool(&hasher);
    let tkn = "TKN".to_string();
    execute_deposit(&mut pool, &hasher, &tkn, 10, &DepositMsg { commitment: "42".to_string() }).unwrap();
    let root = fe_to_dec(&pool.commitments.get_last_root());

    let msg1 = WithdrawMsg {
        root: root.clone(),
        nullifier_hash: "7".to_string(),
        recipient: RECIPIENT.to_string(),
        relayer: "".to_string(),
        fee: 0,
    };
    let signals = prepare_withdraw(&pool, &msg1, true, true).unwrap();
    assert_eq!(signals.signals.len(), 5);

    let res = execute_withdraw(&mut pool, &msg1, true, true, true).unwrap();
    assert_eq!(res.len(), 1);
    assert_eq!(res[0].to_address, RECIPIENT);
    assert_eq!(res[0].denom, "TKN");
    assert_eq!(res[0].amount, 10);

    // A second request with the same nullifier hash is rejected, whatever
    // its root and proof verdict.
    let msg2 = WithdrawMsg {
        root,
        nullifier_hash: "7".to_string(),
        recipient: RELAYER.to_string(),
        relayer: "".to_string(),
        fee: 0,
    };
    let res2 = execute_withdraw(&mut pool, &msg2, true, true, true);
    assert_eq!(res2, Err(ContractError::DuplicateNullifier));
}

#[test]
fn test_withdraw_with_relayer_fee() {
    let hasher = Poseidon::new();
    let mut pool = small_pool(&hasher);
    let tkn = "TKN".to_string();
    execute_deposit(&mut pool, &hasher, &tkn, 10, &DepositMsg { commitment: "42".to_string() }).unwrap();
    let root = fe_to_dec(&pool.commitments.get_last_root());

    let msg = WithdrawMsg {
        root,
        nullifier_hash: "8".to_string(),
        recipient: RECIPIENT.to_string(),
        relayer: RELAYER.to_string(),
        fee: 3,
    };
    let res = execute_withdraw(&mut pool, &msg, true, true, true).unwrap();
    assert_eq!(res.len(), 2);
    assert_eq!(res[0].to_address, RECIPIENT);
    assert_eq!(res[0].amount, 7);
    assert_eq!(res[1].to_address, RELAYER);
    assert_eq!(res[1].amount, 3);
}

#[test]
fn test_withdraw_fee_exceeds_principal() {
    let hasher = Poseidon::new();
    let mut pool = small_pool(&hasher);
    let tkn = "TKN".to_string();
    execute_deposit(&mut pool, &hasher, &tkn, 10, &DepositMsg { commitment: "42".to_string() }).unwrap();
    let root = fe_to_dec(&pool.commitments.get_last_root());

    let msg = WithdrawMsg {
        root,
        nullifier_hash: "9".to_string(),
        recipient: RECIPIENT.to_string(),
        relayer: RELAYER.to_string(),
        fee: 11,
    };
    let before = pool.clone();
    let res = execute_withdraw(&mut pool, &msg, true, true, true);
    assert_eq!(res, Err(ContractError::FeeExceedsPrincipal));
    assert_eq!(pool, before);
}

#[test]
fn test_withdraw_check_order() {
    let hasher = Poseidon::new();
    let mut pool = small_pool(&hasher);
    let tkn = "TKN".to_string();
    execute_deposit(&mut pool, &hasher, &tkn, 10, &DepositMsg { commitment: "42".to_string() }).unwrap();
    let root = fe_to_dec(&pool.commitments.get_last_root());

    let good = WithdrawMsg {
        root: root.clone(),
        nullifier_hash: "10".to_string(),
        recipient: RECIPIENT.to_string(),
        relayer: "".to_string(),
        fee: 0,
    };

    // Invalid recipient address.
    let res = execute_withdraw(&mut pool, &good, false, true, true);
    assert_eq!(res, Err(ContractError::InvalidAddress));

    // Malformed root string.
    let mut bad_root = good.clone();
    bad_root.root = "xyz".to_string();
    let res = execute_withdraw(&mut pool, &bad_root, true, true, true);
    assert_eq!(res, Err(ContractError::MalformedSignal));

    // A root the tree never produced.
    let mut unknown_root = good.clone();
    unknown_root.root = "12345".to_string();
    let res = execute_withdraw(&mut pool, &unknown_root, true, true, true);
    assert_eq!(res, Err(ContractError::UnknownRoot));

    // A rejected proof.
    let res = execute_withdraw(&mut pool, &good, true, true, false);
    assert_eq!(res, Err(ContractError::InvalidProof));

    // And the request itself is still fine.
    let res = execute_withdraw(&mut pool, &good, true, true, true);
    assert!(res.is_ok());
}

#[test]
fn test_query_is_known_root() {
    let hasher = Poseidon::new();
    let mut pool = small_pool(&hasher);
    let tkn = "TKN".to_string();
    execute_deposit(&mut pool, &hasher, &tkn, 10, &DepositMsg { commitment: "42".to_string() }).unwrap();
    let root = fe_to_dec(&pool.commitments.get_last_root());

    assert_eq!(
        query_is_known_root(&pool, &IsKnownRootMsg { root }),
        Ok(true)
    );
    assert_eq!(
        query_is_known_root(&pool, &IsKnownRootMsg { root: "12345".to_string() }),
        Ok(false)
    );
    assert_eq!(
        query_is_known_root(&pool, &IsKnownRootMsg { root: "0".to_string() }),
        Ok(false)
    );
    assert_eq!(
        query_is_known_root(&pool, &IsKnownRootMsg { root: "12a45".to_string() }),
        Err(ContractError::MalformedSignal)
    );
}
