//! The hash-tree backend: commit, prove, verify and the two updates.
use vstd::prelude::*;
use vstd::arithmetic::power2::{pow2, lemma_pow2_unfold, lemma_pow2_adds, lemma_pow2_strictly_increases};
use vstd::slice::slice_to_vec;
use crate::error::VcError;
use crate::hashing::{sha256, sha256_of};
use crate::merkle_spec::{lemma_ancestor_below, lemma_ancestor_meet, views, leaf_value, node_hash, root_of, ancestor, sibling, auth_path, path_root, is_divergence};

verus! {

/// The public parameters of a hash tree of capacity `n`.
#[derive(Debug, Clone, Copy, PartialEq, Eq, Structural)]
pub struct Params {
    /// The smallest depth whose padded leaf row holds `n` leaves.
    pub max_depth: usize,
    /// The number of committed values.
    pub n: usize,
}

impl Params {
    /// The parameters that setup makes: `max_depth` is minimal with
    /// `2^max_depth >= n`, and a padded leaf row is addressable.
    pub open spec fn wf(&self) -> bool {
        &&& 1 <= self.n
        &&& self.n <= pow2(self.max_depth as nat)
        &&& (self.max_depth == 0 || pow2((self.max_depth - 1) as nat) < self.n)
        &&& pow2(self.max_depth as nat) <= usize::MAX
    }

    pub open spec fn depth(&self) -> nat {
        self.max_depth as nat
    }
}

/// The unique height at which the paths of two distinct leaves meet.
pub open spec fn divergence(i: nat, j: nat) -> nat {
    choose|u: nat| is_divergence(i, j, u)
}

/// Derives the parameters for a capacity of `n` values.
pub fn paramgen(n: usize) -> (r: Params)
    requires
        1 <= n,
        n <= usize::MAX / 2,
    ensures
        r.n == n,
        r.wf(),
        r.max_depth == 0 <==> n == 1,
{
    let mut d: usize = 0;
    let mut cap: usize = 1;
    proof {
        lemma_pow2_unfold(1);
        vstd::arithmetic::power2::lemma2_to64();
    }
    while cap < n
        invariant
            1 <= n <= usize::MAX / 2,
            cap == pow2(d as nat),
            d < cap,
            d == 0 || pow2((d - 1) as nat) < n,
        decreases n - d,
    {
        proof {
            lemma_pow2_unfold((d + 1) as nat);
        }
        cap = cap * 2;
        d = d + 1;
    }
    proof {
        if d > 0 {
            vstd::arithmetic::power2::lemma_pow2_pos((d - 1) as nat);
        }
    }
    Params { max_depth: d, n }
}

/// The hash of two sibling hashes, left first.
pub(crate) fn hash_pair(left: Vec<u8>, right: Vec<u8>) -> (r: Vec<u8>)
    ensures
        r@ == sha256_of(left@ + right@),
{
    let mut buf = left;
    let mut tail = right;
    buf.append(&mut tail);
    sha256(buf.as_slice())
}

/// The hash of the leaf at `pos` of the padded leaf row.
pub(crate) fn leaf_hash(values: &[Vec<u8>], pos: usize) -> (r: Vec<u8>)
    ensures
        r@ == sha256_of(leaf_value(views(values@), pos as int)),
{
    if pos < values.len() {
        sha256(values[pos].as_slice())
    } else {
        let empty: Vec<u8> = Vec::new();
        sha256(empty.as_slice())
    }
}

/// The position of the ancestor of leaf `index` at `height`.
fn ancestor_exec(index: usize, height: usize) -> (r: usize)
    ensures
        r == ancestor(index as nat, height as nat),
{
    let mut a: usize = index;
    let mut k: usize = 0;
    while k < height
        invariant
            k <= height,
            a == ancestor(index as nat, k as nat),
        decreases height - k,
    {
        a = a / 2;
        k = k + 1;
    }
    a
}

/// The hash of the node at `level` below the root and position
/// `node_index` in its row, recomputed from the leaves.
pub fn commit_rec(params: &Params, values: &[Vec<u8>], level: usize, node_index: usize) -> (r: Vec<u8>)
    requires
        params.wf(),
        values.len() == params.n,
        level <= params.max_depth,
        node_index < pow2(level as nat),
    ensures
        r@ == node_hash(views(values@), (params.max_depth - level) as nat, node_index as int),
    decreases params.max_depth - level,
{
    if level < params.max_depth {
        proof {
            lemma_pow2_unfold((level + 1) as nat);
            if level + 1 < params.max_depth {
                lemma_pow2_strictly_increases((level + 1) as nat, params.max_depth as nat);
            }
        }
        let left = commit_rec(params, values, level + 1, 2 * node_index);
        let right = commit_rec(params, values, level + 1, 2 * node_index + 1);
        hash_pair(left, right)
    } else {
        leaf_hash(values, node_index)
    }
}

/// The root of the tree over `values`, computed without keeping the tree.
pub fn commit_no_tree(params: &Params, values: &[Vec<u8>]) -> (r: Result<Vec<u8>, VcError>)
    requires
        params.wf(),
    ensures
        match r {
            Ok(c) => values@.len() == params.n && c@ == root_of(views(values@), params.depth()),
            Err(e) => values@.len() != params.n && e == VcError::CapacityMismatch,
        },
{
    if values.len() != params.n {
        return Err(VcError::CapacityMismatch);
    }
    proof {
        vstd::arithmetic::power2::lemma2_to64();
    }
    Ok(commit_rec(params, values, 0, 0))
}

/// Bounds the ancestors of a leaf of the padded row.
pub(crate) proof fn lemma_ancestor_in_row(params: &Params, index: nat, level: nat)
    requires
        params.wf(),
        index < params.n,
        level <= params.max_depth,
    ensures
        ancestor(index, (params.max_depth - level) as nat) < pow2(level),
{
    let h = (params.max_depth - level) as nat;
    lemma_pow2_adds(h, level);
    assert(h + level == params.max_depth as nat);
    lemma_ancestor_below(index, h, pow2(level));
}

/// The authentication path of `index`, each sibling hash recomputed from
/// the values.
pub fn prove(params: &Params, values: &[Vec<u8>], index: usize) -> (r: Result<Vec<Vec<u8>>, VcError>)
    requires
        params.wf(),
    ensures
        match r {
            Ok(p) => {
                &&& values@.len() == params.n
                &&& index < params.n
                &&& views(p@) == auth_path(views(values@), params.depth(), index as nat)
            },
            Err(e) => {
                &&& values@.len() != params.n ==> e == VcError::CapacityMismatch
                &&& values@.len() == params.n ==> index >= params.n && e == VcError::IndexOutOfRange
            },
        },
{
    if values.len() != params.n {
        return Err(VcError::CapacityMismatch);
    }
    if index >= params.n {
        return Err(VcError::IndexOutOfRange);
    }
    proof {
        lemma_ancestor_in_row(params, index as nat, 0);
        vstd::arithmetic::power2::lemma2_to64();
    }
    Ok(prove_rec(params, values, 0, 0, index))
}

/// The authentication path of `index_being_proven` below the node at
/// `level` and position `current_node_index`, an ancestor of that leaf.
pub fn prove_rec(
    params: &Params,
    values: &[Vec<u8>],
    level: usize,
    current_node_index: usize,
    index_being_proven: usize,
) -> (r: Vec<Vec<u8>>)
    requires
        params.wf(),
        values.len() == params.n,
        level <= params.max_depth,
        index_being_proven < params.n,
        current_node_index == ancestor(index_being_proven as nat, (params.max_depth - level) as nat),
    ensures
        views(r@) == auth_path(views(values@), (params.max_depth - level) as nat, index_being_proven as nat),
    decreases params.max_depth - level,
{
    let ghost vals = views(values@);
    let ghost idx = index_being_proven as nat;
    if level < params.max_depth {
        let below = params.max_depth - level - 1;
        let a = ancestor_exec(index_being_proven, below);
        proof {
            lemma_ancestor_in_row(params, idx, level as nat);
            lemma_ancestor_in_row(params, idx, (level + 1) as nat);
            lemma_pow2_unfold((level + 1) as nat);
            assert(current_node_index == a / 2);
        }
        let mut ret;
        let sib;
        if a % 2 == 0 {
            ret = prove_rec(params, values, level + 1, 2 * current_node_index, index_being_proven);
            sib = commit_rec(params, values, level + 1, 2 * current_node_index + 1);
        } else {
            ret = prove_rec(params, values, level + 1, 2 * current_node_index + 1, index_being_proven);
            sib = commit_rec(params, values, level + 1, 2 * current_node_index);
        }
        assert(sib@ == node_hash(vals, below as nat, sibling(a as nat) as int));
        let ghost before = views(ret@);
        ret.push(sib);
        let ghost path = auth_path(vals, (params.max_depth - level) as nat, idx);
        assert(before == auth_path(vals, below as nat, idx));
        assert(before.len() == below);
        assert(ret@.len() == below + 1);
        assert(views(ret@).len() == below + 1);
        assert forall|h: int| 0 <= h < path.len() implies views(ret@)[h] == path[h] by {
            if h < below {
                assert(views(ret@)[h] == before[h]);
            }
        }
        assert(views(ret@) =~= path);
        ret
    } else {
        let ret: Vec<Vec<u8>> = Vec::new();
        assert(views(ret@) =~= auth_path(vals, 0, idx));
        ret
    }
}

/// Folds `leaf` up through the first `height` entries of `proof`.
fn fold_path(leaf: Vec<u8>, proof: &[Vec<u8>], index: usize, height: usize) -> (r: Vec<u8>)
    requires
        height <= proof@.len(),
    ensures
        r@ == path_root(leaf@, views(proof@), index as nat, height as nat),
{
    let mut acc = leaf;
    let mut a: usize = index;
    let mut h: usize = 0;
    while h < height
        invariant
            h <= height <= proof@.len(),
            a == ancestor(index as nat, h as nat),
            acc@ == path_root(leaf@, views(proof@), index as nat, h as nat),
        decreases height - h,
    {
        let sib = slice_to_vec(proof[h].as_slice());
        if a % 2 == 0 {
            acc = hash_pair(acc, sib);
        } else {
            acc = hash_pair(sib, acc);
        }
        a = a / 2;
        h = h + 1;
    }
    acc
}

/// Whether two byte strings are equal.
fn bytes_equal(x: &[u8], y: &[u8]) -> (r: bool)
    ensures
        r == (x@ == y@),
{
    if x.len() != y.len() {
        return false;
    }
    let mut k: usize = 0;
    while k < x.len()
        invariant
            x@.len() == y@.len(),
            k <= x@.len(),
            forall|m: int| 0 <= m < k ==> x@[m] == y@[m],
        decreases x@.len() - k,
    {
        if x[k] != y[k] {
            return false;
        }
        k = k + 1;
    }
    assert(x@ =~= y@);
    true
}

/// Whether `proof` shows that `value` sits at `index` under `commitment`.
pub fn verify(params: &Params, commitment: &[u8], proof: &[Vec<u8>], value: &[u8], index: usize) -> (r: Result<bool, VcError>)
    requires
        params.wf(),
    ensures
        match r {
            Ok(b) => {
                &&& index < params.n
                &&& proof@.len() == params.max_depth
                &&& b == (path_root(sha256_of(value@), views(proof@), index as nat, params.depth()) == commitment@)
            },
            Err(e) => {
                &&& index >= params.n ==> e == VcError::IndexOutOfRange
                &&& index < params.n ==> proof@.len() != params.max_depth && e == VcError::ParameterMismatch
            },
        },
{
    if index >= params.n {
        return Err(VcError::IndexOutOfRange);
    }
    if proof.len() != params.max_depth {
        return Err(VcError::ParameterMismatch);
    }
    let top = fold_path(sha256(value), proof, index, params.max_depth);
    Ok(bytes_equal(top.as_slice(), commitment))
}

/// The root after leaf `index` takes `value_after`, found from the leaf's
/// authentication path, with the new hashes along that path as helper
/// information for later proof updates.
pub fn commit_update(params: &Params, index: usize, proof: &[Vec<u8>], value_after: &[u8]) -> (r: Result<(Vec<u8>, Vec<Vec<u8>>), VcError>)
    requires
        params.wf(),
    ensures
        match r {
            Ok((c, helper)) => {
                &&& index < params.n
                &&& proof@.len() == params.max_depth
                &&& c@ == path_root(sha256_of(value_after@), views(proof@), index as nat, params.depth())
                &&& helper@.len() == params.max_depth
                &&& forall|h: int| 0 <= h < params.max_depth ==>
                    (#[trigger] helper@[h])@ == path_root(sha256_of(value_after@), views(proof@), index as nat, h as nat)
            },
            Err(e) => {
                &&& index >= params.n ==> e == VcError::IndexOutOfRange
                &&& index < params.n ==> proof@.len() != params.max_depth && e == VcError::ParameterMismatch
            },
        },
{
    if index >= params.n {
        return Err(VcError::IndexOutOfRange);
    }
    if proof.len() != params.max_depth {
        return Err(VcError::ParameterMismatch);
    }
    let ghost leaf = sha256_of(value_after@);
    let mut helper: Vec<Vec<u8>> = Vec::new();
    let mut acc = sha256(value_after);
    let mut a: usize = index;
    let mut h: usize = 0;
    while h < params.max_depth
        invariant
            h <= params.max_depth == proof@.len(),
            a == ancestor(index as nat, h as nat),
            acc@ == path_root(leaf, views(proof@), index as nat, h as nat),
            helper@.len() == h,
            forall|k: int| 0 <= k < h ==> (#[trigger] helper@[k])@ == path_root(leaf, views(proof@), index as nat, k as nat),
        decreases params.max_depth - h,
    {
        helper.push(slice_to_vec(acc.as_slice()));
        let sib = slice_to_vec(proof[h].as_slice());
        if a % 2 == 0 {
            acc = hash_pair(acc, sib);
        } else {
            acc = hash_pair(sib, acc);
        }
        a = a / 2;
        h = h + 1;
    }
    Ok((acc, helper))
}

/// The new hash at `update_height` on the path of `changed_index` once that
/// leaf holds `value_after`.
fn commit_update_helper(changed_index: usize, changed_index_proof: &[Vec<u8>], value_after: &[u8], update_height: usize) -> (r: Vec<u8>)
    requires
        update_height <= changed_index_proof@.len(),
    ensures
        r@ == path_root(sha256_of(value_after@), views(changed_index_proof@), changed_index as nat, update_height as nat),
{
    fold_path(sha256(value_after), changed_index_proof, changed_index, update_height)
}

/// Two heights that both satisfy the divergence condition are equal.
proof fn lemma_divergence_unique(i: nat, j: nat, u: nat)
    requires
        is_divergence(i, j, u),
    ensures
        divergence(i, j) == u,
{
    let v = divergence(i, j);
    assert(is_divergence(i, j, v));
    if v < u {
        lemma_ancestor_meet(i, j, v + 1, u);
        assert(ancestor(i, u) != ancestor(j, u));
    } else if u < v {
        lemma_ancestor_meet(i, j, u + 1, v);
        assert(ancestor(i, v) != ancestor(j, v));
    }
}

/// The height at which the paths of two distinct leaves meet.
fn divergence_height(i: usize, j: usize) -> (u: usize)
    requires
        i != j,
    ensures
        is_divergence(i as nat, j as nat, u as nat),
        u == divergence(i as nat, j as nat),
{
    let mut a: usize = i / 2;
    let mut b: usize = j / 2;
    let mut u: usize = 0;
    let ghost top: int = if i >= j { i as int } else { j as int };
    assert(ancestor(i as nat, 1) == ancestor(i as nat, 0) / 2);
    assert(ancestor(j as nat, 1) == ancestor(j as nat, 0) / 2);
    while a != b
        invariant
            a == ancestor(i as nat, (u + 1) as nat),
            b == ancestor(j as nat, (u + 1) as nat),
            forall|h: nat| h <= u ==> ancestor(i as nat, h) != #[trigger] ancestor(j as nat, h),
            u + (if a >= b { a as int } else { b as int }) <= top,
            top <= usize::MAX,
        decreases a + b,
    {
        let ghost old_u = u;
        a = a / 2;
        b = b / 2;
        u = u + 1;
        assert forall|h: nat| h <= u implies ancestor(i as nat, h) != #[trigger] ancestor(j as nat, h) by {
            if h == u {
                assert(ancestor(i as nat, h) == ancestor(i as nat, (old_u + 1) as nat));
            }
        }
    }
    proof {
        assert(is_divergence(i as nat, j as nat, u as nat));
        lemma_divergence_unique(i as nat, j as nat, u as nat);
    }
    u
}

/// Refreshes the proof for `proof_index` after leaf `changed_index` took
/// `value_after`: the one entry where the two paths meet is replaced, taken
/// from `helper_info` when given and recomputed from `changed_index_proof`
/// otherwise. A proof for the changed leaf itself is left as it is.
pub fn proof_update(
    params: &Params,
    proof: &mut Vec<Vec<u8>>,
    proof_index: usize,
    changed_index: usize,
    changed_index_proof: &[Vec<u8>],
    value_after: &[u8],
    helper_info: Option<&Vec<Vec<u8>>>,
) -> (r: Result<(), VcError>)
    requires
        params.wf(),
    ensures
        proof_index >= params.n || changed_index >= params.n ==> r == Err::<(), VcError>(VcError::IndexOutOfRange),
        proof_index < params.n && changed_index < params.n && proof_index == changed_index ==> r == Ok::<(), VcError>(()),
        proof_index < params.n && changed_index < params.n && proof_index != changed_index ==> {
            let well_shaped = old(proof)@.len() == params.max_depth
                && changed_index_proof@.len() == params.max_depth
                && match helper_info {
                    Some(hi) => hi@.len() == params.max_depth,
                    None => true,
                };
            &&& !well_shaped ==> r == Err::<(), VcError>(VcError::ParameterMismatch)
            &&& well_shaped ==> r == Ok::<(), VcError>(())
        },
        r.is_err() || proof_index == changed_index ==> *final(proof) == *old(proof),
        r.is_ok() && proof_index != changed_index ==> {
            let u = divergence(proof_index as nat, changed_index as nat);
            let entry = match helper_info {
                Some(hi) => hi@[u as int]@,
                None => path_root(sha256_of(value_after@), views(changed_index_proof@), changed_index as nat, u),
            };
            &&& u < params.max_depth
            &&& views(final(proof)@) == views(old(proof)@).update(u as int, entry)
        },
{
    if proof_index >= params.n || changed_index >= params.n {
        return Err(VcError::IndexOutOfRange);
    }
    if proof_index == changed_index {
        return Ok(());
    }
    if proof.len() != params.max_depth || changed_index_proof.len() != params.max_depth {
        return Err(VcError::ParameterMismatch);
    }
    match helper_info {
        Some(hi) => {
            if hi.len() != params.max_depth {
                return Err(VcError::ParameterMismatch);
            }
        },
        None => {},
    }
    let update_height = divergence_height(proof_index, changed_index);
    proof {
        let i = proof_index as nat;
        let j = changed_index as nat;
        assert(is_divergence(i, j, update_height as nat));
        lemma_ancestor_in_row(params, i, 0);
        lemma_ancestor_in_row(params, j, 0);
        vstd::arithmetic::power2::lemma2_to64();
        if update_height >= params.max_depth {
            lemma_ancestor_meet(i, j, params.max_depth as nat, update_height as nat);
        }
    }
    let entry = match helper_info {
        Some(hi) => slice_to_vec(hi[update_height].as_slice()),
        None => commit_update_helper(changed_index, changed_index_proof, value_after, update_height),
    };
    let ghost before = views(proof@);
    proof.set(update_height, entry);
    assert(views(proof@) =~= before.update(update_height as int, entry@));
    Ok(())
}

} // verus!
