//! What holds across the hash-tree operations, stated over the model that
//! their contracts use.
use vstd::prelude::*;
use vstd::arithmetic::power2::pow2;
use crate::hashing::sha256_of;
use crate::merkle::{Params, divergence, lemma_ancestor_in_row};
use crate::merkle_tree::{column, lemma_sibling_in_row, path_updated, represents};
use crate::merkle_spec::{
    ancestor, auth_path, is_divergence, lemma_ancestor_below, lemma_ancestor_meet,
    lemma_auth_path_own_value, lemma_node_hash_off_path, lemma_path_root_auth, lemma_root_from_path,
    leaf_value, node_hash, path_root, root_of, sibling,
};

verus! {

/// Some height separates the paths of two distinct leaves below `top`,
/// the height at which their ancestors are known to meet.
proof fn lemma_divergence_exists(i: nat, j: nat, h: nat, top: nat)
    requires
        h < top,
        ancestor(i, top) == ancestor(j, top),
        forall|k: nat| k <= h ==> ancestor(i, k) != #[trigger] ancestor(j, k),
    ensures
        is_divergence(i, j, divergence(i, j)),
        divergence(i, j) < top,
    decreases top - h,
{
    if ancestor(i, h + 1) == ancestor(j, h + 1) {
        assert(is_divergence(i, j, h));
        let u = divergence(i, j);
        if u >= top {
            lemma_ancestor_meet(i, j, top, u);
        }
    } else {
        assert forall|k: nat| k <= h + 1 implies ancestor(i, k) != #[trigger] ancestor(j, k) by {}
        if h + 1 == top {
            assert(ancestor(i, top) != ancestor(j, top));
        } else {
            lemma_divergence_exists(i, j, h + 1, top);
        }
    }
}

/// Completeness: the authentication path of any position folds the hash of
/// the value there up to the root of the tree.
pub proof fn law_completeness(params: Params, values: Seq<Seq<u8>>, index: nat)
    requires
        params.wf(),
        values.len() == params.n,
        index < params.n,
    ensures
        path_root(sha256_of(values[index as int]), auth_path(values, params.depth(), index), index, params.depth())
            == root_of(values, params.depth()),
{
    lemma_root_from_path(values, params.depth(), index);
}

/// Updating the root along the old authentication path of a position gives
/// exactly the root recomputed from the vector with that position changed.
pub proof fn law_update_matches_recommit(params: Params, values: Seq<Seq<u8>>, index: nat, w: Seq<u8>)
    requires
        params.wf(),
        values.len() == params.n,
        index < params.n,
    ensures
        path_root(sha256_of(w), auth_path(values, params.depth(), index), index, params.depth())
            == root_of(values.update(index as int, w), params.depth()),
{
    let nv = values.update(index as int, w);
    lemma_auth_path_own_value(values, params.depth(), index, w);
    assert(leaf_value(nv, index as int) == w);
    lemma_root_from_path(nv, params.depth(), index);
}

/// After position `j` takes value `w`, replacing the entry at the meeting
/// height of the proof for `i != j` by the new hash on the path of `j` gives
/// the authentication path of `i` in the changed vector, which therefore
/// folds the unchanged value at `i` up to the new root.
pub proof fn law_proof_update(params: Params, values: Seq<Seq<u8>>, i: nat, j: nat, w: Seq<u8>)
    requires
        params.wf(),
        values.len() == params.n,
        i < params.n,
        j < params.n,
        i != j,
    ensures
        ({
            let d = params.depth();
            let nv = values.update(j as int, w);
            let u = divergence(i, j);
            let updated = auth_path(values, d, i).update(
                u as int,
                path_root(sha256_of(w), auth_path(values, d, j), j, u),
            );
            &&& u < d
            &&& updated == auth_path(nv, d, i)
            &&& path_root(sha256_of(values[i as int]), updated, i, d) == root_of(nv, d)
        }),
{
    let d = params.depth();
    let nv = values.update(j as int, w);
    lemma_ancestor_below(i, d, 1);
    lemma_ancestor_below(j, d, 1);
    assert(d > 0) by {
        if d == 0 {
            vstd::arithmetic::power2::lemma2_to64();
        }
    }
    lemma_divergence_exists(i, j, 0, d);
    let u = divergence(i, j);
    let updated = auth_path(values, d, i).update(u as int, path_root(sha256_of(w), auth_path(values, d, j), j, u));
    assert forall|h: int| 0 <= h < d implies updated[h] == auth_path(nv, d, i)[h] by {
        let hn = h as nat;
        let s = sibling(ancestor(i, hn));
        assert(ancestor(i, hn + 1) == ancestor(i, hn) / 2);
        assert(ancestor(j, hn + 1) == ancestor(j, hn) / 2);
        if hn < u {
            assert(ancestor(i, hn + 1) != ancestor(j, hn + 1));
            lemma_node_hash_off_path(values, j, w, hn, s);
        } else if hn > u {
            lemma_ancestor_meet(i, j, u + 1, hn);
            lemma_node_hash_off_path(values, j, w, hn, s);
        } else {
            assert(s == ancestor(j, u));
            lemma_auth_path_own_value(values, d, j, w);
            assert(leaf_value(nv, j as int) == w);
            lemma_path_root_auth(nv, auth_path(nv, d, j), j, u);
        }
    }
    assert(updated =~= auth_path(nv, d, i));
    assert(nv[i as int] == values[i as int]);
    law_completeness(params, nv, i);
}

/// A retained tree and the tree-free computation agree on the root.
pub proof fn law_tree_root(params: Params, rows: Seq<Seq<Seq<u8>>>, values: Seq<Seq<u8>>)
    requires
        params.wf(),
        represents(rows, values, params.depth()),
    ensures
        rows.len() > 0,
        rows.last().len() > 0,
        rows.last()[0] == root_of(values, params.depth()),
{
    let d = params.depth();
    vstd::arithmetic::power2::lemma2_to64();
    assert(rows[d as int].len() == pow2(0));
    assert(rows[d as int][0] == node_hash(values, d, 0));
}

/// The path looked up in a retained tree is the authentication path.
pub proof fn law_tree_path(params: Params, rows: Seq<Seq<Seq<u8>>>, values: Seq<Seq<u8>>, index: nat)
    requires
        params.wf(),
        values.len() == params.n,
        index < params.n,
        represents(rows, values, params.depth()),
    ensures
        column(rows, params.depth(), index) == auth_path(values, params.depth(), index),
{
    let d = params.depth();
    assert forall|h: int| 0 <= h < d implies column(rows, d, index)[h] == auth_path(values, d, index)[h] by {
        lemma_ancestor_in_row(&params, index, (d - h) as nat);
        lemma_sibling_in_row(ancestor(index, h as nat), d, h as nat);
        assert(rows[h].len() == pow2((d - h) as nat));
    }
    assert(column(rows, d, index) =~= auth_path(values, d, index));
}

/// Updating a retained tree along the path of a leaf leaves it holding
/// exactly the tree of the vector with that leaf changed.
pub proof fn law_tree_update(params: Params, rows: Seq<Seq<Seq<u8>>>, values: Seq<Seq<u8>>, index: nat, w: Seq<u8>)
    requires
        params.wf(),
        values.len() == params.n,
        index < params.n,
        represents(rows, values, params.depth()),
    ensures
        represents(path_updated(rows, params.depth(), index, sha256_of(w)), values.update(index as int, w), params.depth()),
{
    let d = params.depth();
    let nv = values.update(index as int, w);
    let nr = path_updated(rows, d, index, sha256_of(w));
    law_tree_path(params, rows, values, index);
    lemma_auth_path_own_value(values, d, index, w);
    assert(leaf_value(nv, index as int) == w);
    assert(rows.len() == d + 1);
    assert(nr.len() == d + 1);
    let col = column(rows, d, index);
    assert forall|h: int| 0 <= h <= d implies #[trigger] nr[h] == rows[h].update(
        ancestor(index, h as nat) as int,
        path_root(sha256_of(w), col, index, h as nat),
    ) by {}
    assert forall|h: int| 0 <= h <= d implies (#[trigger] nr[h]).len() == pow2((d - h) as nat) by {
        lemma_ancestor_in_row(&params, index, (d - h) as nat);
        assert(rows[h].len() == pow2((d - h) as nat));
        assert(nr[h].len() == rows[h].len());
    }
    assert forall|h: int, p: int| 0 <= h <= d && 0 <= p < nr[h].len()
        implies #[trigger] nr[h][p] == node_hash(nv, h as nat, p) by {
        let a = ancestor(index, h as nat);
        lemma_ancestor_in_row(&params, index, (d - h) as nat);
        assert(rows[h].len() == pow2((d - h) as nat));
        assert(nr[h].len() == rows[h].len());
        assert(col == auth_path(nv, d, index));
        if p == a {
            lemma_path_root_auth(nv, auth_path(nv, d, index), index, h as nat);
        } else {
            lemma_node_hash_off_path(values, index, w, h as nat, p as nat);
        }
    }
}

} // verus!
