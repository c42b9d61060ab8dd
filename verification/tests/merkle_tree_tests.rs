use juicer::field::FieldElement;
use juicer::merkle_tree::MerkleTreeWithHistory;
use poseidon_rs::Poseidon;

fn fe(s: &str) -> FieldElement {
    FieldElement::from_decimal_str(s).unwrap()
}

#[test]
fn test_merkletree_new() {
    let mt = MerkleTreeWithHistory::new(&Poseidon::new(), 16);
    assert_eq!(mt.filled_subtrees[0], mt.ZERO_VALUE);
    assert_eq!(mt.zeros[0], mt.ZERO_VALUE);
}

#[test]
fn test_merkletree_root() {
    let mt = MerkleTreeWithHistory::new(&Poseidon::new(), 20);
    assert_eq!(mt.filled_subtrees[0], mt.ZERO_VALUE);
    assert_eq!(mt.zeros[0], mt.ZERO_VALUE);

    assert_eq!(
        mt.get_last_root(),
        fe("19476726467694243150694636071195943429153087843379888650723427850220480216251")
    );
}

#[test]
fn test_merkletree_insert_single_01() {
    let hasher = Poseidon::new();
    let mut mt = MerkleTreeWithHistory::new(&hasher, 20);
    mt.insert(&hasher, &FieldElement::from_u128(42));
    let expected =
        fe("13801027358871474054350913888493740197706640469969388660938924863508695867545");
    let root = mt.get_last_root();
    assert_eq!(root, expected);
}

#[test]
fn test_zero_value_constant() {
    let mt = MerkleTreeWithHistory::new(&Poseidon::new(), 1);
    assert_eq!(
        mt.ZERO_VALUE,
        fe("21663839004416932945382355908790599225266501822907911457504978515578255421292")
    );
}

#[test]
fn test_fresh_tree_known_roots_all_depths() {
    let hasher = Poseidon::new();
    for depth in [1u32, 2, 3, 16, 31] {
        let mt = MerkleTreeWithHistory::new(&hasher, depth);
        assert!(!mt.is_known_root(&FieldElement::zero()));
        assert!(mt.is_known_root(&mt.get_last_root()));
    }
}

#[test]
fn test_insert_counts_indices() {
    let hasher = Poseidon::new();
    let mut mt = MerkleTreeWithHistory::new(&hasher, 3);
    for k in 0u32..8 {
        assert_eq!(mt.next_index, k);
        let idx = mt.insert(&hasher, &FieldElement::from_u128(1000 + k as u128));
        assert_eq!(idx, Some(k));
        assert_eq!(mt.next_index, k + 1);
    }
}

#[test]
fn test_insert_full_tree_unchanged() {
    let hasher = Poseidon::new();
    let mut mt = MerkleTreeWithHistory::new(&hasher, 2);
    for k in 0u32..4 {
        assert_eq!(mt.insert(&hasher, &FieldElement::from_u128(7 + k as u128)), Some(k));
    }
    let snapshot = mt.clone();
    assert_eq!(mt.insert(&hasher, &FieldElement::from_u128(1337)), None);
    assert_eq!(mt, snapshot);
}

#[test]
fn test_root_history_window_bound() {
    let hasher = Poseidon::new();
    let mut mt = MerkleTreeWithHistory::new(&hasher, 7);
    let initial_root = mt.get_last_root();
    let mut produced: Vec<FieldElement> = Vec::new();
    for k in 0u32..101 {
        mt.insert(&hasher, &FieldElement::from_u128(k as u128 + 1)).unwrap();
        produced.push(mt.get_last_root());
    }
    // 102 roots were produced in all; the ring keeps the last 100: the
    // initial root and the first insert's root have been overwritten.
    assert!(!mt.is_known_root(&initial_root));
    assert!(!mt.is_known_root(&produced[0]));
    for k in 1..101 {
        assert!(mt.is_known_root(&produced[k]));
    }
}

#[test]
fn test_insert_matches_naive_root() {
    // Three leaves in a depth-2 tree: the online insert must produce the
    // same root as hashing the padded leaf level by hand.
    let hasher = Poseidon::new();
    let mut mt = MerkleTreeWithHistory::new(&hasher, 2);
    let l1 = FieldElement::from_u128(11);
    let l2 = FieldElement::from_u128(22);
    let l3 = FieldElement::from_u128(33);
    mt.insert(&hasher, &l1).unwrap();
    mt.insert(&hasher, &l2).unwrap();
    mt.insert(&hasher, &l3).unwrap();
    let left = mt.hash_left_right(&hasher, &l1, &l2);
    let right = mt.hash_left_right(&hasher, &l3, &mt.ZERO_VALUE.clone());
    let naive_root = mt.hash_left_right(&hasher, &left, &right);
    assert_eq!(mt.get_last_root(), naive_root);
}

#[test]
fn test_hash_left_right_matches_zeros_chain() {
    let hasher = Poseidon::new();
    let mt = MerkleTreeWithHistory::new(&hasher, 4);
    for level in 1usize..4 {
        let parent = mt.hash_left_right(&hasher, &mt.zeros[level - 1], &mt.zeros[level - 1]);
        assert_eq!(parent, mt.zeros[level]);
    }
}
