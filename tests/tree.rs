use merkle_tree::{
    add_element, create_merkle_tree, create_proof, get_leaf, get_root, hash_pair, verify_proof,
    MerkleTree, NodeHash,
};
use sha3::{Digest, Sha3_256};

fn hash_one(value: &[u8]) -> NodeHash {
    Sha3_256::digest(value).into()
}

fn leaves_of(values: &[String]) -> Vec<&[u8]> {
    values.iter().map(|v| v.as_bytes()).collect()
}

fn numbered(n: usize) -> Vec<String> {
    (1..=n).map(|i| i.to_string()).collect()
}

#[test]
fn empty_tree() {
    let tree = create_merkle_tree(Vec::new());
    assert_eq!(get_root(&tree), None);
}

#[test]
fn tree_power_of_2_with_4_leaves() {
    let tree = create_merkle_tree(vec![b"1", b"2", b"3", b"4"]);
    assert_eq!(
        get_root(&tree),
        Some([
            137, 153, 44, 123, 164, 130, 79, 195, 21, 135, 186, 74, 94, 220, 125, 98, 73, 20,
            100, 119, 87, 220, 77, 185, 218, 60, 243, 252, 72, 120, 28, 89
        ]),
    );
}

#[test]
fn tree_not_power_of_2_with_6_leaves() {
    let tree = create_merkle_tree(vec![b"1", b"2", b"3", b"4", b"5", b"6"]);
    assert_eq!(
        get_root(&tree),
        Some([
            150, 175, 62, 140, 117, 101, 10, 4, 24, 24, 124, 179, 100, 93, 142, 72, 141, 188,
            224, 58, 237, 118, 71, 58, 207, 196, 14, 41, 47, 173, 190, 67,
        ]),
    );
}

#[test]
fn tree_add_element() {
    let mut tree = create_merkle_tree(vec![b"1", b"2", b"3"]);
    tree = add_element(&mut tree, b"4");
    assert_eq!(
        get_root(&tree),
        Some([
            137, 153, 44, 123, 164, 130, 79, 195, 21, 135, 186, 74, 94, 220, 125, 98, 73, 20,
            100, 119, 87, 220, 77, 185, 218, 60, 243, 252, 72, 120, 28, 89
        ]),
    );
}

#[test]
fn leaf_hash_is_sha3_256() {
    let mut expected = [0u8; 32];
    hex::decode_to_slice(
        "a7ffc6f8bf1ed76651c14756a061d662f580ff4de43b49fa82d80a4b80f8434a",
        &mut expected,
    )
    .unwrap();
    let empty_leaf: Vec<&[u8]> = vec![b""];
    assert_eq!(get_root(&create_merkle_tree(empty_leaf)), Some(expected));
    hex::decode_to_slice(
        "3a985da74fe225b2045c172d6bd390bd855f086e3e9d525b46bfe24511431532",
        &mut expected,
    )
    .unwrap();
    assert_eq!(get_root(&create_merkle_tree(vec![b"abc"])), Some(expected));
}

#[test]
fn hash_pair_digests_the_concatenation() {
    let l = hash_one(b"left");
    let r = hash_one(b"right");
    let mut joined = l.to_vec();
    joined.extend_from_slice(&r);
    let expected: [u8; 32] = Sha3_256::digest(&joined).into();
    assert_eq!(hash_pair(&l, &r), expected);
    assert_ne!(hash_pair(&l, &r), hash_pair(&r, &l));
}

#[test]
fn layer_counts_follow_ceil_log2() {
    let expected_layers = [1usize, 2, 3, 3, 4, 4, 4, 4, 5, 5, 5];
    for (i, &want) in expected_layers.iter().enumerate() {
        let values = numbered(i + 1);
        let tree = create_merkle_tree(leaves_of(&values));
        assert_eq!(tree.len(), want, "{} leaves", i + 1);
        assert_eq!(tree.last().unwrap().len(), 1);
        for k in 0..tree.len() - 1 {
            assert_eq!(tree[k + 1].len(), tree[k].len().div_ceil(2));
        }
    }
}

#[test]
fn empty_tree_has_one_empty_layer() {
    let tree = create_merkle_tree(Vec::new());
    assert_eq!(tree.len(), 1);
    assert!(tree[0].is_empty());
}

#[test]
fn empty_tree_gives_no_proof_and_rejects() {
    let tree = create_merkle_tree(Vec::new());
    assert_eq!(create_proof(&tree, b"1"), None);
    assert!(!verify_proof(&tree, Vec::new(), b"1"));
    let no_layers: MerkleTree = Vec::new();
    assert_eq!(get_root(&no_layers), None);
    assert_eq!(create_proof(&no_layers, b"1"), None);
    assert!(!verify_proof(&no_layers, Vec::new(), b"1"));
}

#[test]
fn single_leaf_tree() {
    let tree = create_merkle_tree(vec![b"only"]);
    assert_eq!(tree.len(), 1);
    assert_eq!(get_root(&tree), Some(hash_one(b"only")));
    let (proof, index) = create_proof(&tree, b"only").unwrap();
    assert!(proof.is_empty());
    assert_eq!(index, 0);
    assert!(verify_proof(&tree, proof, b"only"));
}

#[test]
fn three_leaf_tree_pairs_last_hash_with_itself() {
    let tree = create_merkle_tree(vec![b"1", b"2", b"3"]);
    assert_eq!(tree[1].len(), 2);
    assert_eq!(tree[1][1], hash_pair(&tree[0][2], &tree[0][2]));
    let mut doubled = hash_one(b"3").to_vec();
    doubled.extend_from_slice(&hash_one(b"3"));
    let expected: [u8; 32] = Sha3_256::digest(&doubled).into();
    assert_eq!(tree[1][1], expected);
}

#[test]
fn every_member_proof_verifies() {
    for n in 1..=13 {
        let values = numbered(n);
        let tree = create_merkle_tree(leaves_of(&values));
        for v in &values {
            let (proof, index) = create_proof(&tree, v.as_bytes()).unwrap();
            assert_eq!(proof.len(), tree.len() - 1);
            assert_eq!(index, 0);
            assert!(verify_proof(&tree, proof, v.as_bytes()), "{} of {}", v, n);
        }
    }
}

#[test]
fn proof_in_four_leaf_tree() {
    let tree = create_merkle_tree(vec![b"1", b"2", b"3", b"4"]);
    let (proof, index) = create_proof(&tree, b"2").unwrap();
    assert_eq!(proof, vec![hash_one(b"1"), tree[1][1]]);
    assert_eq!(index, 0);
    assert!(verify_proof(&tree, proof, b"2"));
    assert_eq!(create_proof(&tree, b"9"), None);
}

#[test]
fn absent_value_has_no_proof() {
    let values = numbered(7);
    let tree = create_merkle_tree(leaves_of(&values));
    assert_eq!(create_proof(&tree, b"8"), None);
    assert_eq!(create_proof(&tree, b""), None);
    assert!(!verify_proof(&tree, Vec::new(), b"8"));
}

#[test]
fn tampered_proof_is_rejected() {
    let values = numbered(5);
    let tree = create_merkle_tree(leaves_of(&values));
    let (proof, _) = create_proof(&tree, b"3").unwrap();
    let mut bad = proof.clone();
    bad[1][0] ^= 1;
    assert!(!verify_proof(&tree, bad, b"3"));
    let mut short = proof.clone();
    short.pop();
    assert!(!verify_proof(&tree, short, b"3"));
    let (other, _) = create_proof(&tree, b"4").unwrap();
    assert!(!verify_proof(&tree, other, b"3"));
}

#[test]
fn proof_of_lone_last_leaf_uses_its_own_layer() {
    let values = numbered(5);
    let tree = create_merkle_tree(leaves_of(&values));
    let (proof, _) = create_proof(&tree, b"5").unwrap();
    assert_eq!(proof, vec![tree[0][4], tree[1][2], tree[2][0]]);
    assert!(verify_proof(&tree, proof, b"5"));
}

#[test]
fn append_matches_rebuild() {
    for n in 0..=9 {
        let values = numbered(n + 1);
        let mut tree = create_merkle_tree(leaves_of(&values[..n]));
        let before = tree.clone();
        let appended = add_element(&mut tree, values[n].as_bytes());
        assert_eq!(tree, before);
        assert_eq!(appended, create_merkle_tree(leaves_of(&values)));
        assert_eq!(get_root(&appended), get_root(&create_merkle_tree(leaves_of(&values))));
    }
}

#[test]
fn append_to_tree_with_no_layers() {
    let mut tree: MerkleTree = Vec::new();
    let appended = add_element(&mut tree, b"1");
    assert_eq!(appended, create_merkle_tree(vec![b"1"]));
}

#[test]
fn duplicate_leaves_prove_first_position() {
    let tree = create_merkle_tree(vec![b"a", b"b", b"a"]);
    assert_eq!(get_leaf(&tree[0], &hash_one(b"a")), Some(0));
    assert_eq!(get_leaf(&tree[0], &hash_one(b"b")), Some(1));
    assert_eq!(get_leaf(&tree[0], &hash_one(b"c")), None);
    let (proof, _) = create_proof(&tree, b"a").unwrap();
    assert_eq!(proof[0], hash_one(b"b"));
    assert!(verify_proof(&tree, proof, b"a"));
}
