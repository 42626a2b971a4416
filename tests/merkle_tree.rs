use veccom_verified::error::VcError;
use veccom_verified::merkle::{commit_no_tree, commit_update, paramgen, prove, verify};
use veccom_verified::merkle_tree::{commit_with_tree, prove_from_tree, tree_update, MerkleTree};

fn numbered(n: usize) -> Vec<Vec<u8>> {
    (0..n).map(|i| format!("this is message number {}", i).into_bytes()).collect()
}

#[test]
fn tree_root_matches_tree_free_root() {
    for n in 1..12 {
        let params = paramgen(n);
        let v = numbered(n);
        let tree = commit_with_tree(&params, &v).unwrap();
        assert_eq!(tree.levels.len(), params.max_depth + 1);
        assert_eq!(tree.root(), Some(commit_no_tree(&params, &v).unwrap()));
    }
}

#[test]
fn tree_rejects_wrong_length() {
    let params = paramgen(4);
    assert!(matches!(commit_with_tree(&params, &numbered(2)), Err(VcError::CapacityMismatch)));
}

#[test]
fn proofs_from_tree_match_proofs_from_scratch() {
    for n in 1..10 {
        let params = paramgen(n);
        let v = numbered(n);
        let tree = commit_with_tree(&params, &v).unwrap();
        let root = tree.root().unwrap();
        for i in 0..n {
            let p = prove_from_tree(&params, &tree, i).unwrap();
            assert_eq!(p, prove(&params, &v, i).unwrap());
            assert_eq!(verify(&params, &root, &p, &v[i], i), Ok(true));
        }
        assert_eq!(prove_from_tree(&params, &tree, n), Err(VcError::IndexOutOfRange));
    }
}

#[test]
fn tree_update_matches_rebuild() {
    let n = 6;
    let params = paramgen(n);
    let v = numbered(n);
    for i in 0..n {
        let mut tree = commit_with_tree(&params, &v).unwrap();
        let proof = prove(&params, &v, i).unwrap();
        let (new_root, _) = commit_update(&params, i, &proof, b"changed").unwrap();
        assert_eq!(tree_update(&params, i, b"changed", &mut tree), Ok(()));
        let mut w = v.clone();
        w[i] = b"changed".to_vec();
        let rebuilt = commit_with_tree(&params, &w).unwrap();
        assert_eq!(tree.levels, rebuilt.levels);
        assert_eq!(tree.root(), Some(new_root));
    }
}

#[test]
fn tree_update_rejects_bad_input() {
    let params = paramgen(4);
    let v = numbered(4);
    let mut tree = commit_with_tree(&params, &v).unwrap();
    let before = tree.levels.clone();
    assert_eq!(tree_update(&params, 4, b"x", &mut tree), Err(VcError::IndexOutOfRange));
    assert_eq!(tree.levels, before);
    let mut small = MerkleTree { levels: vec![vec![vec![0u8; 32]]] };
    assert_eq!(tree_update(&params, 1, b"x", &mut small), Err(VcError::ParameterMismatch));
    assert_eq!(prove_from_tree(&params, &small, 1), Err(VcError::ParameterMismatch));
    let empty = MerkleTree { levels: Vec::new() };
    assert_eq!(empty.root(), None);
}

#[test]
fn single_leaf_tree() {
    let params = paramgen(1);
    let v = numbered(1);
    let mut tree = commit_with_tree(&params, &v).unwrap();
    assert_eq!(tree.levels.len(), 1);
    assert_eq!(prove_from_tree(&params, &tree, 0), Ok(Vec::new()));
    tree_update(&params, 0, b"other", &mut tree).unwrap();
    assert_eq!(tree.root(), commit_no_tree(&params, &vec![b"other".to_vec()]).ok());
}
