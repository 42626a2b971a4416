use veccom_verified::error::VcError;
use veccom_verified::pairings::{
    check_ciphersuite, hash_to_field_repr, paramgen_from_seed, proof_update, prove, verify, Commitment,
};

fn numbered(n: usize) -> Vec<Vec<u8>> {
    (0..n).map(|i| format!("this is message number {}", i).into_bytes()).collect()
}

#[test]
fn scalar_of_a() {
    assert_eq!(
        hash_to_field_repr(b"a"),
        [0xd5ea091ca64e25e3, 0x566a947ef03b1da0, 0xa18c6bc4d12c6c1c, 0x1fd0a7269d72a8bf]
    );
}

#[test]
fn only_ciphersuite_zero() {
    assert!(check_ciphersuite(0));
    assert!(!check_ciphersuite(1));
}

#[test]
fn setup_is_deterministic() {
    let (a, va) = paramgen_from_seed(b"a public seed", 6);
    let (b, vb) = paramgen_from_seed(b"a public seed", 6);
    let (c, _) = paramgen_from_seed(b"another seed", 6);
    assert_eq!(a.n, 6);
    assert_eq!(a.generators.len(), 12);
    assert_eq!(va.generators.len(), 6);
    assert_eq!(a.generators, b.generators);
    assert_eq!(va.generators, vb.generators);
    assert_eq!(va.g1_top, vb.g1_top);
    assert_eq!(va.g1_top, a.generators[5]);
    let mut identity = vec![0u8; 96];
    identity[0] = 0x40;
    assert_eq!(a.generators[6], identity);
    assert_eq!(a.generators[0].len(), 96);
    assert_eq!(va.generators[0].len(), 192);
    assert_ne!(a.generators, c.generators);
    assert_ne!(a.generators[0], a.generators[1]);
}

#[test]
fn algebraic_commit_is_repeatable() {
    let (pp, _) = paramgen_from_seed(b"seed", 5);
    let v = numbered(5);
    let c1 = Commitment::new(&pp, &v).unwrap();
    let c2 = Commitment::new(&pp, &v).unwrap();
    assert_eq!(c1.commit, c2.commit);
    assert_eq!(c1.ciphersuite, 0);
}

#[test]
fn algebraic_every_position_verifies() {
    for n in 1..5 {
        let (pp, vp) = paramgen_from_seed(b"seed", n);
        let v = numbered(n);
        let com = Commitment::new(&pp, &v).unwrap();
        for i in 0..n {
            let p = prove(&pp, &v, i).unwrap();
            assert_eq!(verify(&vp, &com, &p, &v[i], i), Ok(true));
        }
    }
}

#[test]
fn algebraic_wrong_value_or_position_fails() {
    let n = 4;
    let (pp, vp) = paramgen_from_seed(b"seed", n);
    let v = numbered(n);
    let com = Commitment::new(&pp, &v).unwrap();
    for i in 0..n {
        let p = prove(&pp, &v, i).unwrap();
        assert_eq!(verify(&vp, &com, &p, b"something else", i), Ok(false));
        for j in 0..n {
            if j != i {
                assert_eq!(verify(&vp, &com, &p, &v[i], j), Ok(false));
            }
        }
    }
}

#[test]
fn algebraic_update_matches_recommit() {
    let n = 5;
    let (pp, _) = paramgen_from_seed(b"seed", n);
    let v = numbered(n);
    for i in 0..n {
        let mut c = Commitment::new(&pp, &v).unwrap();
        let before = c.commit.clone();
        c.update(&pp, i, &v[i], b"new value").unwrap();
        assert_ne!(c.commit, before);
        let mut w = v.clone();
        w[i] = b"new value".to_vec();
        assert_eq!(c.commit, Commitment::new(&pp, &w).unwrap().commit);
    }
}

#[test]
fn algebraic_proof_update() {
    let n = 5;
    let (pp, vp) = paramgen_from_seed(b"seed", n);
    let v = numbered(n);
    let j = 2;
    let mut com = Commitment::new(&pp, &v).unwrap();
    com.update(&pp, j, &v[j], b"new").unwrap();
    let mut w = v.clone();
    w[j] = b"new".to_vec();
    for i in 0..n {
        let mut p = prove(&pp, &v, i).unwrap();
        if i == j {
            assert_eq!(verify(&vp, &com, &p, b"new", i), Ok(true));
            assert_eq!(verify(&vp, &com, &p, &v[i], i), Ok(false));
            let before = p.clone();
            assert_eq!(proof_update(&pp, &mut p, i, j, &v[j], b"new"), Ok(()));
            assert_eq!(p, before);
            continue;
        }
        assert_eq!(verify(&vp, &com, &p, &v[i], i), Ok(false));
        assert_eq!(proof_update(&pp, &mut p, i, j, &v[j], b"new"), Ok(()));
        assert_eq!(p, prove(&pp, &w, i).unwrap());
        assert_eq!(verify(&vp, &com, &p, &v[i], i), Ok(true));
    }
}

#[test]
fn algebraic_single_position() {
    let (pp, vp) = paramgen_from_seed(b"seed", 1);
    let v = numbered(1);
    let com = Commitment::new(&pp, &v).unwrap();
    let p = prove(&pp, &v, 0).unwrap();
    assert_eq!(verify(&vp, &com, &p, &v[0], 0), Ok(true));
    assert_eq!(prove(&pp, &v, 1), Err(VcError::IndexOutOfRange));
}

#[test]
fn algebraic_equal_values_update_and_undo() {
    let n = 4;
    let (pp, vp) = paramgen_from_seed(b"seed", n);
    let v = numbered(n);
    let initial = Commitment::new(&pp, &v).unwrap();
    let mut c = Commitment::new(&pp, &v).unwrap();
    c.update(&pp, 1, &v[1], &v[1]).unwrap();
    assert_eq!(c.commit, initial.commit);
    c.update(&pp, 1, &v[1], b"other").unwrap();
    c.update(&pp, 1, b"other", &v[1]).unwrap();
    assert_eq!(c.commit, initial.commit);
    let p = prove(&pp, &v, 1).unwrap();
    assert_eq!(verify(&vp, &c, &p, &v[1], 1), Ok(true));
}

#[test]
fn algebraic_malformed_points_are_rejected() {
    let (mut pp, vp) = paramgen_from_seed(b"seed", 3);
    let v = numbered(3);
    let mut c = Commitment::new(&pp, &v).unwrap();
    let p = prove(&pp, &v, 0).unwrap();
    let mut bad = c.commit.clone();
    bad[50] ^= 1;
    let broken = Commitment { ciphersuite: 0, commit: bad.clone() };
    assert_eq!(verify(&vp, &broken, &p, &v[0], 0), Err(VcError::ParameterMismatch));
    assert_eq!(verify(&vp, &c, &bad, &v[0], 0), Err(VcError::ParameterMismatch));
    let mut q = bad.clone();
    assert_eq!(proof_update(&pp, &mut q, 0, 1, &v[1], b"x"), Err(VcError::ParameterMismatch));
    assert_eq!(q, bad);
    pp.generators[1] = vec![0u8; 96];
    assert!(matches!(Commitment::new(&pp, &v), Err(VcError::ParameterMismatch)));
    let before = c.commit.clone();
    assert_eq!(c.update(&pp, 1, &v[1], b"x"), Err(VcError::ParameterMismatch));
    assert_eq!(c.commit, before);
    let mut zero_g2 = vp;
    zero_g2.generators[2] = vec![0u8; 192];
    assert_eq!(verify(&zero_g2, &c, &p, &v[0], 0), Err(VcError::ParameterMismatch));
}

#[test]
fn algebraic_errors() {
    let (mut pp, vp) = paramgen_from_seed(b"seed", 3);
    let v = numbered(3);
    assert!(matches!(Commitment::new(&pp, &numbered(2)), Err(VcError::CapacityMismatch)));
    let mut c = Commitment::new(&pp, &v).unwrap();
    let p = prove(&pp, &v, 0).unwrap();
    assert_eq!(prove(&pp, &numbered(2), 0), Err(VcError::CapacityMismatch));
    assert_eq!(prove(&pp, &v, 3), Err(VcError::IndexOutOfRange));
    assert_eq!(verify(&vp, &c, &p, &v[0], 3), Err(VcError::IndexOutOfRange));
    let mut q = p.clone();
    assert_eq!(proof_update(&pp, &mut q, 3, 0, &v[0], b"x"), Err(VcError::IndexOutOfRange));
    assert_eq!(proof_update(&pp, &mut q, 0, 3, &v[0], b"x"), Err(VcError::IndexOutOfRange));
    assert_eq!(q, p);
    let before = c.commit.clone();
    assert_eq!(c.update(&pp, 3, &v[0], b"x"), Err(VcError::IndexOutOfRange));
    assert_eq!(c.commit, before);
    pp.ciphersuite = 7;
    assert_eq!(c.update(&pp, 0, &v[0], b"x"), Err(VcError::ParameterMismatch));
    assert!(matches!(Commitment::new(&pp, &v), Err(VcError::UnsupportedCiphersuite)));
    assert_eq!(prove(&pp, &v, 0), Err(VcError::UnsupportedCiphersuite));
    assert_eq!(proof_update(&pp, &mut q, 0, 1, &v[0], b"x"), Err(VcError::UnsupportedCiphersuite));
    c.ciphersuite = 7;
    assert_eq!(c.update(&pp, 0, &v[0], b"x"), Err(VcError::UnsupportedCiphersuite));
    assert_eq!(verify(&vp, &c, &p, &v[0], 0), Err(VcError::ParameterMismatch));
    pp.ciphersuite = 0;
    pp.generators.truncate(2);
    assert!(matches!(Commitment::new(&pp, &v), Err(VcError::ParameterMismatch)));
    assert_eq!(prove(&pp, &v, 0), Err(VcError::ParameterMismatch));
}
