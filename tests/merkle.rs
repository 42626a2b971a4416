use veccom_verified::error::VcError;
use veccom_verified::merkle::{
    commit_no_tree, commit_update, paramgen, proof_update, prove, verify, Params,
};

fn hex(b: &[u8]) -> String {
    b.iter().map(|x| format!("{:02x}", x)).collect()
}

fn vals(items: &[&str]) -> Vec<Vec<u8>> {
    items.iter().map(|s| s.as_bytes().to_vec()).collect()
}

fn numbered(n: usize) -> Vec<Vec<u8>> {
    (0..n).map(|i| format!("this is message number {}", i).into_bytes()).collect()
}

#[test]
fn paramgen_depths() {
    assert_eq!(paramgen(1), Params { max_depth: 0, n: 1 });
    assert_eq!(paramgen(2).max_depth, 1);
    assert_eq!(paramgen(4).max_depth, 2);
    assert_eq!(paramgen(5).max_depth, 3);
    assert_eq!(paramgen(8).max_depth, 3);
    assert_eq!(paramgen(9).max_depth, 4);
}

#[test]
fn single_leaf_root_is_leaf_hash() {
    let params = paramgen(1);
    let v = vals(&["a"]);
    let root = commit_no_tree(&params, &v).unwrap();
    assert_eq!(hex(&root), "ca978112ca1bbdcafac231b39a23dc4da786eff8147c4e72b9807785afee48bb");
    let proof = prove(&params, &v, 0).unwrap();
    assert!(proof.is_empty());
    assert_eq!(verify(&params, &root, &proof, b"a", 0), Ok(true));
    assert_eq!(verify(&params, &root, &proof, b"b", 0), Ok(false));
    assert_eq!(prove(&params, &v, 1), Err(VcError::IndexOutOfRange));
}

#[test]
fn two_leaf_root() {
    let params = paramgen(2);
    let root = commit_no_tree(&params, &vals(&["a", "b"])).unwrap();
    assert_eq!(hex(&root), "e5a01fee14e0ed5c48714f22180f25ad8365b53f9779f79dc4a3d7e93963f94a");
}

#[test]
fn padded_root_uses_empty_leaf() {
    let params = paramgen(3);
    assert_eq!(params.max_depth, 2);
    let root = commit_no_tree(&params, &vals(&["a", "b", "c"])).unwrap();
    assert_eq!(hex(&root), "8b647566a3d9a04e3e11b3dbe6253aee49611f98147525b6583f8e45d028c015");
}

#[test]
fn commit_is_repeatable() {
    let params = paramgen(7);
    let v = numbered(7);
    assert_eq!(commit_no_tree(&params, &v), commit_no_tree(&params, &v));
}

#[test]
fn commit_rejects_wrong_length() {
    let params = paramgen(4);
    assert_eq!(commit_no_tree(&params, &numbered(3)), Err(VcError::CapacityMismatch));
    assert_eq!(prove(&params, &numbered(5), 0), Err(VcError::CapacityMismatch));
}

#[test]
fn every_position_verifies() {
    for n in 1..10 {
        let params = paramgen(n);
        let v = numbered(n);
        let root = commit_no_tree(&params, &v).unwrap();
        for i in 0..n {
            let proof = prove(&params, &v, i).unwrap();
            assert_eq!(proof.len(), params.max_depth);
            assert_eq!(verify(&params, &root, &proof, &v[i], i), Ok(true));
        }
    }
}

#[test]
fn wrong_value_or_position_fails() {
    let n = 6;
    let params = paramgen(n);
    let v = numbered(n);
    let root = commit_no_tree(&params, &v).unwrap();
    for i in 0..n {
        let proof = prove(&params, &v, i).unwrap();
        assert_eq!(verify(&params, &root, &proof, b"something else", i), Ok(false));
        for j in 0..n {
            if j != i {
                assert_eq!(verify(&params, &root, &proof, &v[i], j), Ok(false));
            }
        }
    }
}

#[test]
fn corrupted_proof_fails() {
    let params = paramgen(4);
    let v = numbered(4);
    let root = commit_no_tree(&params, &v).unwrap();
    let mut proof = prove(&params, &v, 1).unwrap();
    proof[1][0] ^= 1;
    assert_eq!(verify(&params, &root, &proof, &v[1], 1), Ok(false));
    proof.pop();
    assert_eq!(verify(&params, &root, &proof, &v[1], 1), Err(VcError::ParameterMismatch));
}

#[test]
fn update_matches_recommit() {
    for n in 1..9 {
        let params = paramgen(n);
        let v = numbered(n);
        let root = commit_no_tree(&params, &v).unwrap();
        for i in 0..n {
            let proof = prove(&params, &v, i).unwrap();
            let (new_root, helper) = commit_update(&params, i, &proof, b"fresh value").unwrap();
            let mut w = v.clone();
            w[i] = b"fresh value".to_vec();
            assert_eq!(new_root, commit_no_tree(&params, &w).unwrap());
            assert_ne!(new_root, root);
            assert_eq!(helper.len(), params.max_depth);
        }
    }
}

#[test]
fn proof_update_with_and_without_helper() {
    let n = 7;
    let params = paramgen(n);
    let v = numbered(n);
    for j in 0..n {
        let proof_j = prove(&params, &v, j).unwrap();
        let (new_root, helper) = commit_update(&params, j, &proof_j, b"new").unwrap();
        let mut w = v.clone();
        w[j] = b"new".to_vec();
        for i in 0..n {
            if i == j {
                continue;
            }
            let stale = prove(&params, &v, i).unwrap();
            assert_eq!(verify(&params, &new_root, &stale, &v[i], i), Ok(false));
            let mut plain = stale.clone();
            proof_update(&params, &mut plain, i, j, &proof_j, b"new", None).unwrap();
            let mut helped = stale.clone();
            proof_update(&params, &mut helped, i, j, &proof_j, b"new", Some(&helper)).unwrap();
            assert_eq!(plain, helped);
            assert_eq!(plain, prove(&params, &w, i).unwrap());
            assert_eq!(verify(&params, &new_root, &plain, &v[i], i), Ok(true));
        }
    }
}

#[test]
fn self_update_is_noop() {
    let params = paramgen(5);
    let v = numbered(5);
    let p = prove(&params, &v, 3).unwrap();
    let mut q = p.clone();
    assert_eq!(proof_update(&params, &mut q, 3, 3, &[], b"other", None), Ok(()));
    assert_eq!(q, p);
    let mut junk = vec![vec![1u8, 2, 3]];
    assert_eq!(proof_update(&params, &mut junk, 2, 2, &[], b"x", None), Ok(()));
    assert_eq!(junk, vec![vec![1u8, 2, 3]]);
}

#[test]
fn out_of_range_index_is_rejected() {
    let n = 4;
    let params = paramgen(n);
    let v = numbered(n);
    let root = commit_no_tree(&params, &v).unwrap();
    let proof = prove(&params, &v, n - 1).unwrap();
    assert_eq!(verify(&params, &root, &proof, &v[n - 1], n - 1), Ok(true));
    assert_eq!(prove(&params, &v, n), Err(VcError::IndexOutOfRange));
    assert_eq!(verify(&params, &root, &proof, &v[0], n), Err(VcError::IndexOutOfRange));
    assert_eq!(commit_update(&params, n, &proof, b"x"), Err(VcError::IndexOutOfRange));
    let mut p = proof.clone();
    assert_eq!(proof_update(&params, &mut p, n, 0, &proof, b"x", None), Err(VcError::IndexOutOfRange));
    assert_eq!(proof_update(&params, &mut p, 0, n, &proof, b"x", None), Err(VcError::IndexOutOfRange));
    assert_eq!(p, proof);
}

#[test]
fn mismatched_proof_lengths_are_rejected() {
    let params = paramgen(4);
    let v = numbered(4);
    let proof = prove(&params, &v, 0).unwrap();
    let short = vec![proof[0].clone()];
    assert_eq!(commit_update(&params, 0, &short, b"x"), Err(VcError::ParameterMismatch));
    let mut p = proof.clone();
    assert_eq!(proof_update(&params, &mut p, 0, 1, &short, b"x", None), Err(VcError::ParameterMismatch));
    let bad_helper = vec![vec![0u8; 32]];
    assert_eq!(
        proof_update(&params, &mut p, 0, 1, &proof, b"x", Some(&bad_helper)),
        Err(VcError::ParameterMismatch)
    );
    assert_eq!(p, proof);
}

#[test]
fn four_letter_scenario() {
    let params = paramgen(4);
    let v = vals(&["a", "b", "c", "d"]);
    let root = commit_no_tree(&params, &v).unwrap();
    let proof2 = prove(&params, &v, 2).unwrap();
    assert_eq!(verify(&params, &root, &proof2, b"c", 2), Ok(true));

    let (new_root, _) = commit_update(&params, 2, &proof2, b"z").unwrap();
    let w = vals(&["a", "b", "z", "d"]);
    assert_eq!(new_root, commit_no_tree(&params, &w).unwrap());

    let fresh2 = prove(&params, &w, 2).unwrap();
    assert_eq!(verify(&params, &new_root, &fresh2, b"z", 2), Ok(true));

    let mut proof0 = prove(&params, &v, 0).unwrap();
    assert_eq!(verify(&params, &new_root, &proof0, b"a", 0), Ok(false));
    proof_update(&params, &mut proof0, 0, 2, &proof2, b"z", None).unwrap();
    assert_eq!(verify(&params, &new_root, &proof0, b"a", 0), Ok(true));
}
