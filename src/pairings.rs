//! The algebraic backend over the BLS12-381 pairing groups.
//!
//! Points are held as their uncompressed encodings (96 bytes in G1, 192 in
//! G2) and every group operation is a function from encodings to an
//! encoding. A commitment is the sum of the generators, each scaled by the
//! scalar derived from the value at its position; a proof for position `i`
//! is the same sum with the generators shifted by `n - i` and position `i`
//! left out. Generator `k` of the prover is `g1` scaled by `alpha^(k + 1)`,
//! generator `k` of the verifier is `g2` scaled by `alpha^(k + 1)`, and
//! `alpha^(n + 1)` is left out of the prover's generators.
use vstd::prelude::*;
use pairing::bls12_381::{Bls12, Fq12, FrRepr, G1Affine, G1Uncompressed, G2Affine, G2Uncompressed};
use pairing::{Engine, PairingCurveAffine};
use ff::Field;
use group::{CurveAffine, CurveProjective, EncodedPoint};
use vstd::slice::slice_to_vec;
use crate::error::VcError;
use crate::hashing::{sha256, sha256_of};
use crate::merkle_spec::views;

verus! {

/// The one ciphersuite that this backend supports.
pub const CIPHERSUITE: u8 = 0;

/// The domain tag prefixed to a value before it is hashed to a scalar.
pub const VALUE_TAG: u8 = 1;

/// The domain tag prefixed to the seed before it is hashed to `alpha`.
pub const SEED_TAG: u8 = 2;

/// The length of an uncompressed G1 point.
pub const G1_LEN: usize = 96;

/// The length of an uncompressed G2 point.
pub const G2_LEN: usize = 192;

/// Whether these 96 bytes decode to a point of the prime-order subgroup of G1.
pub uninterp spec fn g1_valid_of(b: Seq<u8>) -> bool;

/// Whether these 192 bytes decode to a point of the prime-order subgroup of G2.
pub uninterp spec fn g2_valid_of(b: Seq<u8>) -> bool;

/// The encoding of the sum of two G1 points.
pub uninterp spec fn g1_add_of(a: Seq<u8>, b: Seq<u8>) -> Seq<u8>;

/// The encoding of the difference of two G1 points.
pub uninterp spec fn g1_sub_of(a: Seq<u8>, b: Seq<u8>) -> Seq<u8>;

/// The encoding of a G1 point scaled by the integer with these limbs.
pub uninterp spec fn g1_mul_of(p: Seq<u8>, k: Seq<u64>) -> Seq<u8>;

/// The encoding of a G2 point scaled by the integer with these limbs.
pub uninterp spec fn g2_mul_of(p: Seq<u8>, k: Seq<u64>) -> Seq<u8>;

/// Whether the product of the pairings of the G1 points with the G2 points,
/// pair by pair, is the identity of the target group.
pub uninterp spec fn pairing_product_is_one_of(g1s: Seq<Seq<u8>>, g2s: Seq<Seq<u8>>) -> bool;

/// A well-formed G1 encoding of a subgroup point.
pub open spec fn g1_ok(b: Seq<u8>) -> bool {
    b.len() == G1_LEN && g1_valid_of(b)
}

/// A well-formed G2 encoding of a subgroup point.
pub open spec fn g2_ok(b: Seq<u8>) -> bool {
    b.len() == G2_LEN && g2_valid_of(b)
}

/// The encoding of the identity of G1: the infinity flag and zeroes.
pub open spec fn g1_identity() -> Seq<u8> {
    Seq::new(96, |i: int| if i == 0 { 0x40u8 } else { 0u8 })
}

/// The encoding of the fixed generator of G1.
pub open spec fn g1_base_bytes() -> Seq<u8> {
    seq![
        0x17u8, 0xf1, 0xd3, 0xa7, 0x31, 0x97, 0xd7, 0x94, 0x26, 0x95, 0x63, 0x8c,
        0x4f, 0xa9, 0xac, 0x0f, 0xc3, 0x68, 0x8c, 0x4f, 0x97, 0x74, 0xb9, 0x05,
        0xa1, 0x4e, 0x3a, 0x3f, 0x17, 0x1b, 0xac, 0x58, 0x6c, 0x55, 0xe8, 0x3f,
        0xf9, 0x7a, 0x1a, 0xef, 0xfb, 0x3a, 0xf0, 0x0a, 0xdb, 0x22, 0xc6, 0xbb,
        0x08, 0xb3, 0xf4, 0x81, 0xe3, 0xaa, 0xa0, 0xf1, 0xa0, 0x9e, 0x30, 0xed,
        0x74, 0x1d, 0x8a, 0xe4, 0xfc, 0xf5, 0xe0, 0x95, 0xd5, 0xd0, 0x0a, 0xf6,
        0x00, 0xdb, 0x18, 0xcb, 0x2c, 0x04, 0xb3, 0xed, 0xd0, 0x3c, 0xc7, 0x44,
        0xa2, 0x88, 0x8a, 0xe4, 0x0c, 0xaa, 0x23, 0x29, 0x46, 0xc5, 0xe7, 0xe1,
    ]
}

/// The encoding of the fixed generator of G2.
pub open spec fn g2_base_bytes() -> Seq<u8> {
    seq![
        0x13u8, 0xe0, 0x2b, 0x60, 0x52, 0x71, 0x9f, 0x60, 0x7d, 0xac, 0xd3, 0xa0,
        0x88, 0x27, 0x4f, 0x65, 0x59, 0x6b, 0xd0, 0xd0, 0x99, 0x20, 0xb6, 0x1a,
        0xb5, 0xda, 0x61, 0xbb, 0xdc, 0x7f, 0x50, 0x49, 0x33, 0x4c, 0xf1, 0x12,
        0x13, 0x94, 0x5d, 0x57, 0xe5, 0xac, 0x7d, 0x05, 0x5d, 0x04, 0x2b, 0x7e,
        0x02, 0x4a, 0xa2, 0xb2, 0xf0, 0x8f, 0x0a, 0x91, 0x26, 0x08, 0x05, 0x27,
        0x2d, 0xc5, 0x10, 0x51, 0xc6, 0xe4, 0x7a, 0xd4, 0xfa, 0x40, 0x3b, 0x02,
        0xb4, 0x51, 0x0b, 0x64, 0x7a, 0xe3, 0xd1, 0x77, 0x0b, 0xac, 0x03, 0x26,
        0xa8, 0x05, 0xbb, 0xef, 0xd4, 0x80, 0x56, 0xc8, 0xc1, 0x21, 0xbd, 0xb8,
        0x06, 0x06, 0xc4, 0xa0, 0x2e, 0xa7, 0x34, 0xcc, 0x32, 0xac, 0xd2, 0xb0,
        0x2b, 0xc2, 0x8b, 0x99, 0xcb, 0x3e, 0x28, 0x7e, 0x85, 0xa7, 0x63, 0xaf,
        0x26, 0x74, 0x92, 0xab, 0x57, 0x2e, 0x99, 0xab, 0x3f, 0x37, 0x0d, 0x27,
        0x5c, 0xec, 0x1d, 0xa1, 0xaa, 0xa9, 0x07, 0x5f, 0xf0, 0x5f, 0x79, 0xbe,
        0x0c, 0xe5, 0xd5, 0x27, 0x72, 0x7d, 0x6e, 0x11, 0x8c, 0xc9, 0xcd, 0xc6,
        0xda, 0x2e, 0x35, 0x1a, 0xad, 0xfd, 0x9b, 0xaa, 0x8c, 0xbd, 0xd3, 0xa7,
        0x6d, 0x42, 0x9a, 0x69, 0x51, 0x60, 0xd1, 0x2c, 0x92, 0x3a, 0xc9, 0xcc,
        0x3b, 0xac, 0xa2, 0x89, 0xe1, 0x93, 0x54, 0x86, 0x08, 0xb8, 0x28, 0x01,
    ]
}

/// Relies on `G1Affine::zero` and `into_uncompressed`: the identity,
/// encoded as the infinity flag followed by zeroes, which decodes.
#[verifier::external_body]
fn g1_identity_raw() -> (r: Vec<u8>)
    ensures
        r@ == g1_identity(),
        g1_valid_of(r@),
{
    G1Affine::zero().into_uncompressed().as_ref().to_vec()
}

/// Relies on `G1Affine::one` and `into_uncompressed`: the encoding of the
/// fixed generator of G1.
#[verifier::external_body]
fn g1_base_raw() -> (r: Vec<u8>)
    ensures
        r@ == g1_base_bytes(),
        g1_valid_of(r@),
{
    G1Affine::one().into_uncompressed().as_ref().to_vec()
}

/// Relies on `G2Affine::one` and `into_uncompressed`: the encoding of the
/// fixed generator of G2.
#[verifier::external_body]
fn g2_base_raw() -> (r: Vec<u8>)
    ensures
        r@ == g2_base_bytes(),
        g2_valid_of(r@),
{
    G2Affine::one().into_uncompressed().as_ref().to_vec()
}

/// Relies on `G1Uncompressed::into_affine` and `CurveProjective::add_assign_mixed`:
/// decodes both points, adds them and encodes the sum; `None` exactly when
/// a point does not decode.
#[verifier::external_body]
fn g1_add_raw(a: &[u8], b: &[u8]) -> (r: Option<Vec<u8>>)
    requires
        a@.len() == G1_LEN,
        b@.len() == G1_LEN,
    ensures
        match r {
            Some(x) => g1_valid_of(a@) && g1_valid_of(b@) && x@ == g1_add_of(a@, b@) && g1_ok(x@),
            None => !(g1_valid_of(a@) && g1_valid_of(b@)),
        },
{
    let (mut x, mut y) = (G1Uncompressed::empty(), G1Uncompressed::empty());
    x.as_mut().copy_from_slice(a);
    y.as_mut().copy_from_slice(b);
    match (x.into_affine(), y.into_affine()) {
        (Ok(p), Ok(q)) => {
            let mut s = p.into_projective();
            s.add_assign_mixed(&q);
            Some(s.into_affine().into_uncompressed().as_ref().to_vec())
        },
        _ => None,
    }
}

/// Relies on `G1Uncompressed::into_affine` and `CurveProjective::sub_assign`:
/// decodes both points, subtracts the second from the first and encodes the
/// difference; `None` exactly when a point does not decode.
#[verifier::external_body]
fn g1_sub_raw(a: &[u8], b: &[u8]) -> (r: Option<Vec<u8>>)
    requires
        a@.len() == G1_LEN,
        b@.len() == G1_LEN,
    ensures
        match r {
            Some(x) => g1_valid_of(a@) && g1_valid_of(b@) && x@ == g1_sub_of(a@, b@) && g1_ok(x@),
            None => !(g1_valid_of(a@) && g1_valid_of(b@)),
        },
{
    let (mut x, mut y) = (G1Uncompressed::empty(), G1Uncompressed::empty());
    x.as_mut().copy_from_slice(a);
    y.as_mut().copy_from_slice(b);
    match (x.into_affine(), y.into_affine()) {
        (Ok(p), Ok(q)) => {
            let mut s = p.into_projective();
            s.sub_assign(&q.into_projective());
            Some(s.into_affine().into_uncompressed().as_ref().to_vec())
        },
        _ => None,
    }
}

/// Relies on `G1Uncompressed::into_affine` and `CurveAffine::mul`: decodes
/// the point, scales it by the integer with these limbs and encodes the
/// result; `None` exactly when the point does not decode.
#[verifier::external_body]
fn g1_mul_raw(p: &[u8], k: [u64; 4]) -> (r: Option<Vec<u8>>)
    requires
        p@.len() == G1_LEN,
    ensures
        match r {
            Some(x) => g1_valid_of(p@) && x@ == g1_mul_of(p@, k@) && g1_ok(x@),
            None => !g1_valid_of(p@),
        },
{
    let mut x = G1Uncompressed::empty();
    x.as_mut().copy_from_slice(p);
    match x.into_affine() {
        Ok(a) => Some(a.mul(FrRepr(k)).into_affine().into_uncompressed().as_ref().to_vec()),
        Err(_) => None,
    }
}

/// Relies on `G2Uncompressed::into_affine` and `CurveAffine::mul`: decodes
/// the point, scales it by the integer with these limbs and encodes the
/// result; `None` exactly when the point does not decode.
#[verifier::external_body]
fn g2_mul_raw(p: &[u8], k: [u64; 4]) -> (r: Option<Vec<u8>>)
    requires
        p@.len() == G2_LEN,
    ensures
        match r {
            Some(x) => g2_valid_of(p@) && x@ == g2_mul_of(p@, k@) && g2_ok(x@),
            None => !g2_valid_of(p@),
        },
{
    let mut x = G2Uncompressed::empty();
    x.as_mut().copy_from_slice(p);
    match x.into_affine() {
        Ok(a) => Some(a.mul(FrRepr(k)).into_affine().into_uncompressed().as_ref().to_vec()),
        Err(_) => None,
    }
}

/// Relies on `Engine::miller_loop` and `Engine::final_exponentiation` for
/// BLS12-381: decodes the points pair by pair, and whether the product of
/// their pairings is one; `None` where a point does not decode or the final
/// exponentiation fails, so that no input makes it panic.
#[verifier::external_body]
fn pairing_product_is_one(g1s: &Vec<Vec<u8>>, g2s: &Vec<Vec<u8>>) -> (r: Option<bool>)
    requires
        g1s@.len() == g2s@.len(),
        forall|k: int| 0 <= k < g1s@.len() ==> (#[trigger] g1s@[k])@.len() == G1_LEN,
        forall|k: int| 0 <= k < g2s@.len() ==> (#[trigger] g2s@[k])@.len() == G2_LEN,
    ensures
        r matches Some(b) ==> b == pairing_product_is_one_of(views(g1s@), views(g2s@)),
{
    let mut pairs = Vec::new();
    for (a, b) in g1s.iter().zip(g2s.iter()) {
        let (mut x, mut y) = (G1Uncompressed::empty(), G2Uncompressed::empty());
        x.as_mut().copy_from_slice(a);
        y.as_mut().copy_from_slice(b);
        pairs.push((x.into_affine().ok()?.prepare(), y.into_affine().ok()?.prepare()));
    }
    let refs: Vec<_> = pairs.iter().map(|(p, q)| (p, q)).collect();
    Bls12::final_exponentiation(&Bls12::miller_loop(refs.iter())).map(|f| f == Fq12::one())
}

/// The sum of two G1 points given as encodings, `None` unless both are
/// well formed.
fn g1_add(a: &[u8], b: &[u8]) -> (r: Option<Vec<u8>>)
    ensures
        match r {
            Some(x) => g1_ok(a@) && g1_ok(b@) && x@ == g1_add_of(a@, b@) && g1_ok(x@),
            None => !(g1_ok(a@) && g1_ok(b@)),
        },
{
    if a.len() != G1_LEN || b.len() != G1_LEN {
        return None;
    }
    g1_add_raw(a, b)
}

/// The difference of two G1 points given as encodings, `None` unless both
/// are well formed.
fn g1_sub(a: &[u8], b: &[u8]) -> (r: Option<Vec<u8>>)
    ensures
        match r {
            Some(x) => g1_ok(a@) && g1_ok(b@) && x@ == g1_sub_of(a@, b@) && g1_ok(x@),
            None => !(g1_ok(a@) && g1_ok(b@)),
        },
{
    if a.len() != G1_LEN || b.len() != G1_LEN {
        return None;
    }
    g1_sub_raw(a, b)
}

/// A G1 point given as an encoding scaled by `k`, `None` unless the point
/// is well formed.
fn g1_mul(p: &[u8], k: [u64; 4]) -> (r: Option<Vec<u8>>)
    ensures
        match r {
            Some(x) => g1_ok(p@) && x@ == g1_mul_of(p@, k@) && g1_ok(x@),
            None => !g1_ok(p@),
        },
{
    if p.len() != G1_LEN {
        return None;
    }
    g1_mul_raw(p, k)
}

/// A G2 point given as an encoding scaled by `k`, `None` unless the point
/// is well formed.
fn g2_mul(p: &[u8], k: [u64; 4]) -> (r: Option<Vec<u8>>)
    ensures
        match r {
            Some(x) => g2_ok(p@) && x@ == g2_mul_of(p@, k@) && g2_ok(x@),
            None => !g2_ok(p@),
        },
{
    if p.len() != G2_LEN {
        return None;
    }
    g2_mul_raw(p, k)
}

/// The little-endian value of a byte string.
pub open spec fn le_value(b: Seq<u8>) -> nat
    decreases b.len(),
{
    if b.len() == 0 {
        0
    } else {
        b[0] as nat + 256 * le_value(b.drop_first())
    }
}

/// The four 64-bit limbs of the scalar derived from `input` under a domain
/// tag: the SHA-256 digest of the tag and the input, read as little-endian
/// limbs, with the top two bits cleared so that it lies below the group order.
pub open spec fn tagged_scalar(tag: u8, input: Seq<u8>) -> Seq<u64> {
    let d = sha256_of(seq![tag] + input);
    seq![
        le_value(d.subrange(0, 8)) as u64,
        le_value(d.subrange(8, 16)) as u64,
        le_value(d.subrange(16, 24)) as u64,
        (le_value(d.subrange(24, 32)) % 0x4000_0000_0000_0000) as u64,
    ]
}

/// The scalar that a value stands for.
pub open spec fn scalar_limbs(value: Seq<u8>) -> Seq<u64> {
    tagged_scalar(VALUE_TAG, value)
}

/// The secret-free exponent base derived from the public seed.
pub open spec fn alpha_of(seed: Seq<u8>) -> Seq<u64> {
    tagged_scalar(SEED_TAG, seed)
}

/// `g1` scaled by `alpha^k`.
pub open spec fn g1_power(alpha: Seq<u64>, k: nat) -> Seq<u8>
    decreases k,
{
    if k == 0 {
        g1_base_bytes()
    } else {
        g1_mul_of(g1_power(alpha, (k - 1) as nat), alpha)
    }
}

/// `g2` scaled by `alpha^k`.
pub open spec fn g2_power(alpha: Seq<u64>, k: nat) -> Seq<u8>
    decreases k,
{
    if k == 0 {
        g2_base_bytes()
    } else {
        g2_mul_of(g2_power(alpha, (k - 1) as nat), alpha)
    }
}

/// Generator `k` of the prover for capacity `n`.
pub open spec fn prover_generator(alpha: Seq<u64>, n: nat, k: nat) -> Seq<u8> {
    if k == n {
        g1_identity()
    } else {
        g1_power(alpha, k + 1)
    }
}

/// Whether the backend supports the ciphersuite `cs`.
pub open spec fn supported(cs: u8) -> bool {
    cs == CIPHERSUITE
}

/// The little-endian value of eight bytes, written out.
proof fn lemma_le_value_8(s: Seq<u8>)
    requires
        s.len() == 8,
    ensures
        le_value(s) == s[0] + 256 * (s[1] + 256 * (s[2] + 256 * (s[3] + 256 * (s[4] + 256 * (s[5] + 256 * (s[6]
            + 256 * s[7])))))),
{
    reveal_with_fuel(le_value, 9);
    assert(s.drop_first().drop_first().drop_first().drop_first().drop_first().drop_first().drop_first().drop_first().len() == 0);
}

/// Whether the backend supports the ciphersuite `cs`.
pub fn check_ciphersuite(cs: u8) -> (r: bool)
    ensures
        r == supported(cs),
{
    cs == CIPHERSUITE
}

/// The little-endian integer held in `d[start..start + 8]`.
fn limb_at(d: &[u8], start: usize) -> (r: u64)
    requires
        start <= 24,
        d@.len() == 32,
    ensures
        r as nat == le_value(d@.subrange(start as int, start + 8)),
{
    let ghost s = d@.subrange(start as int, start + 8);
    proof {
        lemma_le_value_8(s);
    }
    let mut v: u64 = d[start + 7] as u64;
    v = v * 256 + d[start + 6] as u64;
    v = v * 256 + d[start + 5] as u64;
    v = v * 256 + d[start + 4] as u64;
    v = v * 256 + d[start + 3] as u64;
    v = v * 256 + d[start + 2] as u64;
    v = v * 256 + d[start + 1] as u64;
    v = v * 256 + d[start] as u64;
    v
}

/// The scalar derived from `input` under the domain tag `tag`.
fn hash_to_scalar(tag: u8, input: &[u8]) -> (r: [u64; 4])
    ensures
        r@ == tagged_scalar(tag, input@),
{
    let mut buf: Vec<u8> = Vec::new();
    buf.push(tag);
    let mut rest = slice_to_vec(input);
    buf.append(&mut rest);
    assert(buf@ =~= seq![tag] + input@);
    let d = sha256(buf.as_slice());
    let l0 = limb_at(d.as_slice(), 0);
    let l1 = limb_at(d.as_slice(), 8);
    let l2 = limb_at(d.as_slice(), 16);
    let l3 = limb_at(d.as_slice(), 24) % 0x4000_0000_0000_0000;
    let r = [l0, l1, l2, l3];
    assert(r@ =~= tagged_scalar(tag, input@));
    r
}

/// The scalar that a value stands for, as four little-endian limbs.
pub fn hash_to_field_repr(input: &[u8]) -> (r: [u64; 4])
    ensures
        r@ == scalar_limbs(input@),
{
    hash_to_scalar(VALUE_TAG, input)
}

/// The prover's parameters: the ciphersuite, the capacity, and `2n`
/// encoded G1 generators.
pub struct ProverParams {
    pub ciphersuite: u8,
    pub n: usize,
    pub generators: Vec<Vec<u8>>,
}

/// The verifier's parameters: `n` encoded G2 generators and `g1` scaled by
/// `alpha^n`.
pub struct VerifierParams {
    pub ciphersuite: u8,
    pub n: usize,
    pub generators: Vec<Vec<u8>>,
    pub g1_top: Vec<u8>,
}

/// Derives both parameter sets for `n` positions from a public seed.
pub fn paramgen_from_seed(seed: &[u8], n: usize) -> (r: (ProverParams, VerifierParams))
    requires
        1 <= n <= usize::MAX / 2,
    ensures
        r.0.ciphersuite == CIPHERSUITE,
        r.0.n == n,
        views(r.0.generators@) == Seq::new(2 * n as nat, |k: int| prover_generator(alpha_of(seed@), n as nat, k as nat)),
        r.1.ciphersuite == CIPHERSUITE,
        r.1.n == n,
        views(r.1.generators@) == Seq::new(n as nat, |k: int| g2_power(alpha_of(seed@), (k + 1) as nat)),
        r.1.g1_top@ == g1_power(alpha_of(seed@), n as nat),
{
    let alpha = hash_to_scalar(SEED_TAG, seed);
    let ghost a = alpha_of(seed@);
    let mut power = g1_base_raw();
    let mut generators: Vec<Vec<u8>> = Vec::new();
    let mut top: Vec<u8> = Vec::new();
    let mut k: usize = 0;
    while k < 2 * n
        invariant
            1 <= n <= usize::MAX / 2,
            alpha@ == a,
            k <= 2 * n,
            power@ == g1_power(a, k as nat),
            g1_ok(power@),
            k >= n ==> top@ == g1_power(a, n as nat),
            views(generators@) == Seq::new(k as nat, |j: int| prover_generator(a, n as nat, j as nat)),
        decreases 2 * n - k,
    {
        let next = match g1_mul(power.as_slice(), alpha) {
            Some(x) => x,
            None => {
                assert(false);
                Vec::new()
            },
        };
        let ghost before = views(generators@);
        if k == n {
            generators.push(g1_identity_raw());
        } else {
            generators.push(slice_to_vec(next.as_slice()));
        }
        if k + 1 == n {
            top = slice_to_vec(next.as_slice());
        }
        assert(views(generators@) =~= before.push(prover_generator(a, n as nat, k as nat)));
        assert(views(generators@) =~= Seq::new((k + 1) as nat, |j: int| prover_generator(a, n as nat, j as nat)));
        power = next;
        k = k + 1;
    }
    let mut power2 = g2_base_raw();
    let mut verifier_generators: Vec<Vec<u8>> = Vec::new();
    k = 0;
    while k < n
        invariant
            alpha@ == a,
            k <= n,
            power2@ == g2_power(a, k as nat),
            g2_ok(power2@),
            views(verifier_generators@) == Seq::new(k as nat, |j: int| g2_power(a, (j + 1) as nat)),
        decreases n - k,
    {
        let next = match g2_mul(power2.as_slice(), alpha) {
            Some(x) => x,
            None => {
                assert(false);
                Vec::new()
            },
        };
        let ghost before = views(verifier_generators@);
        verifier_generators.push(slice_to_vec(next.as_slice()));
        assert(next@ == g2_power(a, (k + 1) as nat));
        assert(views(verifier_generators@) =~= before.push(g2_power(a, (k + 1) as nat)));
        assert(views(verifier_generators@) =~= Seq::new((k + 1) as nat, |j: int| g2_power(a, (j + 1) as nat)));
        power2 = next;
        k = k + 1;
    }
    (
        ProverParams { ciphersuite: CIPHERSUITE, n, generators },
        VerifierParams { ciphersuite: CIPHERSUITE, n, generators: verifier_generators, g1_top: top },
    )
}

/// The commitment point to the first `k` values: the sum of generator `j`
/// scaled by the scalar of value `j`, for `j < k`.
pub open spec fn commit_sum(gens: Seq<Seq<u8>>, values: Seq<Seq<u8>>, k: nat) -> Seq<u8>
    decreases k,
{
    if k == 0 {
        g1_identity()
    } else {
        let j = k - 1;
        g1_add_of(commit_sum(gens, values, j as nat), g1_mul_of(gens[j], scalar_limbs(values[j])))
    }
}

/// The proof point for position `index` over the first `k` values: the sum
/// over `j < k`, `j != index`, of generator `n - index + j` scaled by the
/// scalar of value `j`.
pub open spec fn proof_sum(gens: Seq<Seq<u8>>, values: Seq<Seq<u8>>, n: nat, index: nat, k: nat) -> Seq<u8>
    decreases k,
{
    if k == 0 {
        g1_identity()
    } else {
        let j = (k - 1) as nat;
        let prev = proof_sum(gens, values, n, index, j);
        if j == index {
            prev
        } else {
            g1_add_of(prev, g1_mul_of(gens[n - index + j], scalar_limbs(values[j as int])))
        }
    }
}

/// `point` moved from `before` to `after` along generator `g`: plus `g`
/// scaled by the new scalar, minus `g` scaled by the old one.
pub open spec fn shifted(point: Seq<u8>, g: Seq<u8>, before: Seq<u8>, after: Seq<u8>) -> Seq<u8> {
    g1_sub_of(g1_add_of(point, g1_mul_of(g, scalar_limbs(after))), g1_mul_of(g, scalar_limbs(before)))
}

/// The verification equation: the pairing of the commitment with verifier
/// generator `n - 1 - index`, times the pairing of the negated proof with
/// `g2`, times the pairing of `g1 * alpha^n` scaled by the negated scalar of
/// the value with `g2 * alpha`, is one.
pub open spec fn verify_equation(vp_gens: Seq<Seq<u8>>, g1_top: Seq<u8>, n: nat, com: Seq<u8>, proof: Seq<u8>, value: Seq<u8>, index: nat) -> bool {
    pairing_product_is_one_of(
        seq![com, g1_sub_of(g1_identity(), proof), g1_sub_of(g1_identity(), g1_mul_of(g1_top, scalar_limbs(value)))],
        seq![vp_gens[n - 1 - index], g2_base_bytes(), vp_gens[0]],
    )
}

/// A copy of the point moved from `before` to `after` along `g`, or `None`
/// where `point` or `g` is not a well-formed point.
fn shift(point: &[u8], g: &[u8], before: &[u8], after: &[u8]) -> (r: Option<Vec<u8>>)
    ensures
        match r {
            Some(x) => g1_ok(point@) && g1_ok(g@) && x@ == shifted(point@, g@, before@, after@),
            None => !(g1_ok(point@) && g1_ok(g@)),
        },
{
    let added = match g1_mul(g, hash_to_field_repr(after)) {
        Some(x) => x,
        None => return None,
    };
    let removed = match g1_mul(g, hash_to_field_repr(before)) {
        Some(x) => x,
        None => return None,
    };
    let moved = match g1_add(point, added.as_slice()) {
        Some(x) => x,
        None => return None,
    };
    g1_sub(moved.as_slice(), removed.as_slice())
}

/// A commitment of the algebraic backend, tagged with its ciphersuite.
pub struct Commitment {
    pub ciphersuite: u8,
    pub commit: Vec<u8>,
}

impl Commitment {
    /// Commits to `values`: the sum over all positions of the generator
    /// scaled by the scalar derived from the value there.
    pub fn new(prover_params: &ProverParams, values: &[Vec<u8>]) -> (r: Result<Self, VcError>)
        ensures
            match r {
                Ok(c) => {
                    &&& supported(prover_params.ciphersuite)
                    &&& values@.len() == prover_params.n
                    &&& prover_params.generators@.len() >= prover_params.n
                    &&& forall|k: int| 0 <= k < prover_params.n ==> g1_ok(#[trigger] prover_params.generators@[k]@)
                    &&& c.ciphersuite == prover_params.ciphersuite
                    &&& c.commit@ == commit_sum(views(prover_params.generators@), views(values@), prover_params.n as nat)
                },
                Err(e) => {
                    &&& !supported(prover_params.ciphersuite) ==> e == VcError::UnsupportedCiphersuite
                    &&& supported(prover_params.ciphersuite) && values@.len() != prover_params.n
                        ==> e == VcError::CapacityMismatch
                    &&& supported(prover_params.ciphersuite) && values@.len() == prover_params.n ==> {
                        &&& e == VcError::ParameterMismatch
                        &&& prover_params.generators@.len() < prover_params.n
                            || exists|k: int| 0 <= k < prover_params.n && !g1_ok(#[trigger] prover_params.generators@[k]@)
                    }
                },
            },
    {
        if !check_ciphersuite(prover_params.ciphersuite) {
            return Err(VcError::UnsupportedCiphersuite);
        }
        if prover_params.n != values.len() {
            return Err(VcError::CapacityMismatch);
        }
        if prover_params.generators.len() < prover_params.n {
            return Err(VcError::ParameterMismatch);
        }
        let ghost gens = views(prover_params.generators@);
        let ghost vals = views(values@);
        let mut commit = g1_identity_raw();
        let mut k: usize = 0;
        while k < values.len()
            invariant
                gens == views(prover_params.generators@),
                vals == views(values@),
                supported(prover_params.ciphersuite),
                values@.len() == prover_params.n <= prover_params.generators@.len(),
                k <= values@.len(),
                commit@ == commit_sum(gens, vals, k as nat),
                g1_ok(commit@),
                forall|j: int| 0 <= j < k ==> g1_ok(#[trigger] prover_params.generators@[j]@),
            decreases values@.len() - k,
        {
            let term = match g1_mul(prover_params.generators[k].as_slice(), hash_to_field_repr(values[k].as_slice())) {
                Some(x) => x,
                None => {
                    assert(!g1_ok(prover_params.generators@[k as int]@));
                    assert(exists|m: int| 0 <= m < prover_params.n && !g1_ok(#[trigger] prover_params.generators@[m]@));
                    return Err(VcError::ParameterMismatch);
                },
            };
            commit = match g1_add(commit.as_slice(), term.as_slice()) {
                Some(x) => x,
                None => {
                    assert(false);
                    Vec::new()
                },
            };
            k = k + 1;
        }
        Ok(Commitment { ciphersuite: prover_params.ciphersuite, commit })
    }

    /// Moves the commitment from `value_before` to `value_after` at
    /// `changed_index`: adds the generator there scaled by the new scalar
    /// and subtracts it scaled by the old one.
    pub fn update(
        &mut self,
        prover_params: &ProverParams,
        changed_index: usize,
        value_before: &[u8],
        value_after: &[u8],
    ) -> (r: Result<(), VcError>)
        ensures
            final(self).ciphersuite == old(self).ciphersuite,
            r.is_err() ==> *final(self) == *old(self),
            old(self).ciphersuite != prover_params.ciphersuite ==> r == Err::<(), VcError>(VcError::ParameterMismatch),
            old(self).ciphersuite == prover_params.ciphersuite && !supported(prover_params.ciphersuite)
                ==> r == Err::<(), VcError>(VcError::UnsupportedCiphersuite),
            old(self).ciphersuite == prover_params.ciphersuite && supported(prover_params.ciphersuite)
                ==> {
                &&& changed_index >= prover_params.n ==> r == Err::<(), VcError>(VcError::IndexOutOfRange)
                &&& changed_index < prover_params.n ==> {
                    let ok = changed_index < prover_params.generators@.len()
                        && g1_ok(prover_params.generators@[changed_index as int]@)
                        && g1_ok(old(self).commit@);
                    &&& !ok ==> r == Err::<(), VcError>(VcError::ParameterMismatch)
                    &&& ok ==> r == Ok::<(), VcError>(())
                }
            },
            r.is_ok() ==> final(self).commit@ == shifted(
                old(self).commit@,
                prover_params.generators@[changed_index as int]@,
                value_before@,
                value_after@,
            ),
    {
        if self.ciphersuite != prover_params.ciphersuite {
            return Err(VcError::ParameterMismatch);
        }
        if !check_ciphersuite(prover_params.ciphersuite) {
            return Err(VcError::UnsupportedCiphersuite);
        }
        if prover_params.n <= changed_index {
            return Err(VcError::IndexOutOfRange);
        }
        if prover_params.generators.len() <= changed_index {
            return Err(VcError::ParameterMismatch);
        }
        match shift(self.commit.as_slice(), prover_params.generators[changed_index].as_slice(), value_before, value_after) {
            Some(x) => {
                self.commit = x;
                Ok(())
            },
            None => Err(VcError::ParameterMismatch),
        }
    }
}

/// The proof that position `index` holds `values[index]`: the sum over all
/// other positions `j` of generator `n - index + j` scaled by the scalar of
/// the value at `j`.
pub fn prove(prover_params: &ProverParams, values: &[Vec<u8>], index: usize) -> (r: Result<Vec<u8>, VcError>)
    ensures
        match r {
            Ok(p) => {
                &&& supported(prover_params.ciphersuite)
                &&& values@.len() == prover_params.n
                &&& index < prover_params.n
                &&& prover_params.generators@.len() == 2 * prover_params.n
                &&& p@ == proof_sum(views(prover_params.generators@), views(values@), prover_params.n as nat, index as nat, prover_params.n as nat)
            },
            Err(e) => {
                &&& !supported(prover_params.ciphersuite) ==> e == VcError::UnsupportedCiphersuite
                &&& supported(prover_params.ciphersuite) && values@.len() != prover_params.n
                    ==> e == VcError::CapacityMismatch
                &&& supported(prover_params.ciphersuite) && values@.len() == prover_params.n
                    && index >= prover_params.n ==> e == VcError::IndexOutOfRange
                &&& supported(prover_params.ciphersuite) && values@.len() == prover_params.n
                    && index < prover_params.n ==> {
                    &&& e == VcError::ParameterMismatch
                    &&& prover_params.generators@.len() != 2 * prover_params.n
                        || exists|j: int| 0 <= j < prover_params.n && j != index
                            && !g1_ok(#[trigger] prover_params.generators@[prover_params.n - index + j]@)
                }
            },
        },
{
    if !check_ciphersuite(prover_params.ciphersuite) {
        return Err(VcError::UnsupportedCiphersuite);
    }
    let n = prover_params.n;
    if values.len() != n {
        return Err(VcError::CapacityMismatch);
    }
    if index >= n {
        return Err(VcError::IndexOutOfRange);
    }
    if prover_params.generators.len() / 2 != n || prover_params.generators.len() % 2 != 0 {
        return Err(VcError::ParameterMismatch);
    }
    let ghost gens = views(prover_params.generators@);
    let ghost vals = views(values@);
    let glen = prover_params.generators.len();
    let mut proof = g1_identity_raw();
    let mut j: usize = 0;
    while j < n
        invariant
            gens == views(prover_params.generators@),
            vals == views(values@),
            supported(prover_params.ciphersuite),
            glen == prover_params.generators@.len(),
            n == prover_params.n == values@.len(),
            index < n,
            prover_params.generators@.len() == 2 * n,
            j <= n,
            proof@ == proof_sum(gens, vals, n as nat, index as nat, j as nat),
            g1_ok(proof@),
        decreases n - j,
    {
        if j != index {
            let term = match g1_mul(prover_params.generators[n - index + j].as_slice(), hash_to_field_repr(values[j].as_slice())) {
                Some(x) => x,
                None => {
                    assert(!g1_ok(prover_params.generators@[n - index + j]@));
                    assert(exists|m: int| 0 <= m < prover_params.n && m != index
                        && !g1_ok(#[trigger] prover_params.generators@[prover_params.n - index + m]@));
                    return Err(VcError::ParameterMismatch);
                },
            };
            proof = match g1_add(proof.as_slice(), term.as_slice()) {
                Some(x) => x,
                None => {
                    assert(false);
                    Vec::new()
                },
            };
        }
        j = j + 1;
    }
    Ok(proof)
}

/// Whether `proof` shows that `value` sits at `index` under `com`, by the
/// verification equation; an error where a point is not well formed.
pub fn verify(verifier_params: &VerifierParams, com: &Commitment, proof: &[u8], value: &[u8], index: usize) -> (r: Result<bool, VcError>)
    ensures
        match r {
            Ok(b) => {
                &&& com.ciphersuite == verifier_params.ciphersuite
                &&& supported(verifier_params.ciphersuite)
                &&& index < verifier_params.n
                &&& verifier_params.generators@.len() == verifier_params.n
                &&& b == verify_equation(
                    views(verifier_params.generators@),
                    verifier_params.g1_top@,
                    verifier_params.n as nat,
                    com.commit@,
                    proof@,
                    value@,
                    index as nat,
                )
            },
            Err(e) => {
                &&& com.ciphersuite != verifier_params.ciphersuite ==> e == VcError::ParameterMismatch
                &&& com.ciphersuite == verifier_params.ciphersuite && !supported(verifier_params.ciphersuite)
                    ==> e == VcError::UnsupportedCiphersuite
                &&& com.ciphersuite == verifier_params.ciphersuite && supported(verifier_params.ciphersuite)
                    && index >= verifier_params.n ==> e == VcError::IndexOutOfRange
                &&& com.ciphersuite == verifier_params.ciphersuite && supported(verifier_params.ciphersuite)
                    && index < verifier_params.n ==> e == VcError::ParameterMismatch
            },
        },
{
    if com.ciphersuite != verifier_params.ciphersuite {
        return Err(VcError::ParameterMismatch);
    }
    if !check_ciphersuite(verifier_params.ciphersuite) {
        return Err(VcError::UnsupportedCiphersuite);
    }
    let n = verifier_params.n;
    if index >= n {
        return Err(VcError::IndexOutOfRange);
    }
    if verifier_params.generators.len() != n {
        return Err(VcError::ParameterMismatch);
    }
    let h_i = verifier_params.generators[n - 1 - index].as_slice();
    let h_0 = verifier_params.generators[0].as_slice();
    if com.commit.len() != G1_LEN || h_i.len() != G2_LEN || h_0.len() != G2_LEN {
        return Err(VcError::ParameterMismatch);
    }
    let zero = g1_identity_raw();
    let neg_proof = match g1_sub(zero.as_slice(), proof) {
        Some(x) => x,
        None => return Err(VcError::ParameterMismatch),
    };
    let scaled_top = match g1_mul(verifier_params.g1_top.as_slice(), hash_to_field_repr(value)) {
        Some(x) => x,
        None => return Err(VcError::ParameterMismatch),
    };
    let neg_top = match g1_sub(zero.as_slice(), scaled_top.as_slice()) {
        Some(x) => x,
        None => return Err(VcError::ParameterMismatch),
    };
    let g1s: Vec<Vec<u8>> = vec![slice_to_vec(com.commit.as_slice()), neg_proof, neg_top];
    let g2s: Vec<Vec<u8>> = vec![slice_to_vec(h_i), g2_base_raw(), slice_to_vec(h_0)];
    proof {
        assert(views(g1s@) =~= seq![
            com.commit@,
            g1_sub_of(g1_identity(), proof@),
            g1_sub_of(g1_identity(), g1_mul_of(verifier_params.g1_top@, scalar_limbs(value@))),
        ]);
        assert(views(g2s@) =~= seq![
            views(verifier_params.generators@)[n - 1 - index],
            g2_base_bytes(),
            views(verifier_params.generators@)[0],
        ]);
    }
    match pairing_product_is_one(&g1s, &g2s) {
        Some(b) => Ok(b),
        None => Err(VcError::ParameterMismatch),
    }
}

/// Refreshes the proof for `proof_index` after position `changed_index`
/// went from `value_before` to `value_after`, by moving it along generator
/// `n - proof_index + changed_index`. A proof for the changed position
/// itself is left as it is.
pub fn proof_update(
    prover_params: &ProverParams,
    proof: &mut Vec<u8>,
    proof_index: usize,
    changed_index: usize,
    value_before: &[u8],
    value_after: &[u8],
) -> (r: Result<(), VcError>)
    ensures
        r.is_err() || proof_index == changed_index ==> *final(proof) == *old(proof),
        !supported(prover_params.ciphersuite) ==> r == Err::<(), VcError>(VcError::UnsupportedCiphersuite),
        supported(prover_params.ciphersuite) ==> {
            &&& proof_index >= prover_params.n || changed_index >= prover_params.n
                ==> r == Err::<(), VcError>(VcError::IndexOutOfRange)
            &&& proof_index < prover_params.n && changed_index < prover_params.n && proof_index == changed_index
                ==> r == Ok::<(), VcError>(())
            &&& proof_index < prover_params.n && changed_index < prover_params.n && proof_index != changed_index
                ==> {
                let ok = prover_params.generators@.len() == 2 * prover_params.n
                    && g1_ok(prover_params.generators@[prover_params.n - proof_index + changed_index]@)
                    && g1_ok(old(proof)@);
                &&& !ok ==> r == Err::<(), VcError>(VcError::ParameterMismatch)
                &&& ok ==> r == Ok::<(), VcError>(())
            }
        },
        r.is_ok() && proof_index != changed_index ==> final(proof)@ == shifted(
            old(proof)@,
            prover_params.generators@[prover_params.n - proof_index + changed_index]@,
            value_before@,
            value_after@,
        ),
{
    if !check_ciphersuite(prover_params.ciphersuite) {
        return Err(VcError::UnsupportedCiphersuite);
    }
    let n = prover_params.n;
    if proof_index >= n || changed_index >= n {
        return Err(VcError::IndexOutOfRange);
    }
    if proof_index == changed_index {
        return Ok(());
    }
    if prover_params.generators.len() / 2 != n || prover_params.generators.len() % 2 != 0 {
        return Err(VcError::ParameterMismatch);
    }
    match shift(proof.as_slice(), prover_params.generators[n - proof_index + changed_index].as_slice(), value_before, value_after) {
        Some(x) => {
            *proof = x;
            Ok(())
        },
        None => Err(VcError::ParameterMismatch),
    }
}

} // verus!
