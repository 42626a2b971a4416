//! The mathematical model of the hash tree: node hashes, authentication
//! paths, and the root that a path folds up to.
use vstd::prelude::*;
use vstd::arithmetic::power2::{pow2, lemma_pow2_unfold, lemma2_to64};
use crate::hashing::sha256_of;

verus! {

/// The byte strings that a vector of buffers holds.
pub open spec fn views(s: Seq<Vec<u8>>) -> Seq<Seq<u8>> {
    Seq::new(s.len(), |k: int| s[k]@)
}

/// The value at leaf `pos` of the padded leaf array: past the end of the
/// vector every leaf holds the empty string.
pub open spec fn leaf_value(values: Seq<Seq<u8>>, pos: int) -> Seq<u8> {
    if 0 <= pos < values.len() {
        values[pos]
    } else {
        Seq::empty()
    }
}

/// The hash of the node at `height` above the leaves and position `pos`
/// within its row: a leaf hashes its value, an inner node the concatenation
/// of its children's hashes.
pub open spec fn node_hash(values: Seq<Seq<u8>>, height: nat, pos: int) -> Seq<u8>
    decreases height,
{
    if height == 0 {
        sha256_of(leaf_value(values, pos))
    } else {
        sha256_of(
            node_hash(values, (height - 1) as nat, 2 * pos) + node_hash(
                values,
                (height - 1) as nat,
                2 * pos + 1,
            ),
        )
    }
}

/// The root of a tree of the given depth over `values`.
pub open spec fn root_of(values: Seq<Seq<u8>>, depth: nat) -> Seq<u8> {
    node_hash(values, depth, 0)
}

/// The position of the ancestor of leaf `index` at `height`.
pub open spec fn ancestor(index: nat, height: nat) -> nat
    decreases height,
{
    if height == 0 {
        index
    } else {
        ancestor(index, (height - 1) as nat) / 2
    }
}

/// The other child of the parent of node `pos`.
pub open spec fn sibling(pos: nat) -> nat {
    if pos % 2 == 0 {
        pos + 1
    } else {
        (pos - 1) as nat
    }
}

/// The authentication path of leaf `index`: entry `h` is the hash of the
/// sibling of its ancestor at height `h`.
pub open spec fn auth_path(values: Seq<Seq<u8>>, depth: nat, index: nat) -> Seq<Seq<u8>> {
    Seq::new(depth, |h: int| node_hash(values, h as nat, sibling(ancestor(index, h as nat)) as int))
}

/// One step up a path: `acc` is the left child when `acc_is_left` holds.
pub open spec fn combine(acc: Seq<u8>, sib: Seq<u8>, acc_is_left: bool) -> Seq<u8> {
    if acc_is_left {
        sha256_of(acc + sib)
    } else {
        sha256_of(sib + acc)
    }
}

/// The hash reached at `height` by folding `leaf_hash` up through the
/// first `height` entries of `proof`, in the directions that `index` gives.
pub open spec fn path_root(leaf_hash: Seq<u8>, proof: Seq<Seq<u8>>, index: nat, height: nat) -> Seq<u8>
    decreases height,
{
    if height == 0 {
        leaf_hash
    } else {
        let h = (height - 1) as nat;
        combine(path_root(leaf_hash, proof, index, h), proof[h as int], ancestor(index, h) % 2 == 0)
    }
}

/// The height at which the paths of two distinct leaves meet as siblings:
/// their ancestors differ up to it and share a parent above it.
pub open spec fn is_divergence(i: nat, j: nat, u: nat) -> bool {
    &&& forall|h: nat| h <= u ==> ancestor(i, h) != #[trigger] ancestor(j, h)
    &&& ancestor(i, u + 1) == ancestor(j, u + 1)
}

pub proof fn lemma_ancestor_below(index: nat, height: nat, k: nat)
    requires
        index < pow2(height) * k,
    ensures
        ancestor(index, height) < k,
    decreases height,
{
    if height > 0 {
        lemma_pow2_unfold(height);
        let hm = (height - 1) as nat;
        assert(pow2(height) * k == pow2(hm) * (2 * k)) by (nonlinear_arith)
            requires pow2(height) == 2 * pow2(hm);
        lemma_ancestor_below(index, hm, 2 * k);
    } else {
        lemma2_to64();
    }
}

/// Ancestors that meet stay together on the way up.
pub proof fn lemma_ancestor_meet(i: nat, j: nat, h1: nat, h2: nat)
    requires
        h1 <= h2,
        ancestor(i, h1) == ancestor(j, h1),
    ensures
        ancestor(i, h2) == ancestor(j, h2),
    decreases h2 - h1,
{
    if h1 < h2 {
        lemma_ancestor_meet(i, j, h1, (h2 - 1) as nat);
    }
}

/// Folding a leaf up through the authentication path of its own position
/// yields the hash of its ancestor at every height.
pub proof fn lemma_path_root_auth(values: Seq<Seq<u8>>, proof: Seq<Seq<u8>>, index: nat, height: nat)
    requires
        height <= proof.len(),
        forall|h: nat| h < height ==> proof[h as int] == node_hash(values, h, sibling(#[trigger] ancestor(index, h)) as int),
    ensures
        path_root(sha256_of(leaf_value(values, index as int)), proof, index, height)
            == node_hash(values, height, ancestor(index, height) as int),
    decreases height,
{
    if height > 0 {
        let h = (height - 1) as nat;
        lemma_path_root_auth(values, proof, index, h);
        let a = ancestor(index, h);
        assert(proof[h as int] == node_hash(values, h, sibling(a) as int));
        assert(ancestor(index, height) == a / 2);
        if a % 2 == 0 {
            assert(2 * (a / 2) == a && 2 * (a / 2) + 1 == sibling(a));
        } else {
            assert(2 * (a / 2) + 1 == a && 2 * (a / 2) == sibling(a));
        }
    }
}

/// Changing one leaf leaves the hash of every node off its path as it was.
pub proof fn lemma_node_hash_off_path(values: Seq<Seq<u8>>, index: nat, w: Seq<u8>, height: nat, pos: nat)
    requires
        index < values.len(),
        pos != ancestor(index, height),
    ensures
        node_hash(values.update(index as int, w), height, pos as int) == node_hash(values, height, pos as int),
    decreases height,
{
    let nv = values.update(index as int, w);
    if height == 0 {
        assert(leaf_value(nv, pos as int) == leaf_value(values, pos as int));
    } else {
        let h = (height - 1) as nat;
        assert(ancestor(index, height) == ancestor(index, h) / 2);
        lemma_node_hash_off_path(values, index, w, h, 2 * pos);
        lemma_node_hash_off_path(values, index, w, h, 2 * pos + 1);
    }
}

/// The authentication path of a leaf does not depend on the leaf's own value.
pub proof fn lemma_auth_path_own_value(values: Seq<Seq<u8>>, depth: nat, index: nat, w: Seq<u8>)
    requires
        index < values.len(),
    ensures
        auth_path(values.update(index as int, w), depth, index) == auth_path(values, depth, index),
{
    let nv = values.update(index as int, w);
    assert forall|h: int| 0 <= h < depth implies auth_path(nv, depth, index)[h] == auth_path(values, depth, index)[h] by {
        lemma_node_hash_off_path(values, index, w, h as nat, sibling(ancestor(index, h as nat)));
    }
    assert(auth_path(nv, depth, index) =~= auth_path(values, depth, index));
}

/// The root of the tree is what the authentication path of any leaf folds to.
pub proof fn lemma_root_from_path(values: Seq<Seq<u8>>, depth: nat, index: nat)
    requires
        index < pow2(depth),
    ensures
        path_root(sha256_of(leaf_value(values, index as int)), auth_path(values, depth, index), index, depth)
            == root_of(values, depth),
{
    lemma_ancestor_below(index, depth, 1);
    lemma_path_root_auth(values, auth_path(values, depth, index), index, depth);
}

} // verus!
