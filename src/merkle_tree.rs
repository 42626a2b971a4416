//! The retained authentication tree: every node hash kept by row, for
//! proofs by lookup and updates in place.
use vstd::prelude::*;
use vstd::arithmetic::power2::{pow2, lemma_pow2_unfold, lemma2_to64};
use vstd::slice::slice_to_vec;
use crate::error::VcError;
use crate::hashing::{sha256, sha256_of};
use crate::merkle::{Params, hash_pair, leaf_hash, lemma_ancestor_in_row};
use crate::merkle_spec::{ancestor, node_hash, path_root, sibling, views};

verus! {

/// The hashes of all nodes of a tree, row `h` holding the nodes at height
/// `h` above the leaves, left to right.
pub struct MerkleTree {
    pub levels: Vec<Vec<Vec<u8>>>,
}

impl MerkleTree {
    pub open spec fn rows(&self) -> Seq<Seq<Seq<u8>>> {
        Seq::new(self.levels@.len(), |h: int| views(self.levels@[h]@))
    }
}

/// Row `h` of a tree of depth `depth` holds `2^(depth - h)` nodes.
pub open spec fn shaped(rows: Seq<Seq<Seq<u8>>>, depth: nat) -> bool {
    &&& rows.len() == depth + 1
    &&& forall|h: int| 0 <= h <= depth ==> (#[trigger] rows[h]).len() == pow2((depth - h) as nat)
}

/// The rows hold exactly the node hashes of the tree over `values`.
pub open spec fn represents(rows: Seq<Seq<Seq<u8>>>, values: Seq<Seq<u8>>, depth: nat) -> bool {
    &&& shaped(rows, depth)
    &&& forall|h: int, p: int| 0 <= h <= depth && 0 <= p < rows[h].len()
        ==> #[trigger] rows[h][p] == node_hash(values, h as nat, p)
}

/// The sibling hashes that the rows hold along the path of leaf `index`.
pub open spec fn column(rows: Seq<Seq<Seq<u8>>>, depth: nat, index: nat) -> Seq<Seq<u8>> {
    Seq::new(depth, |h: int| rows[h][sibling(ancestor(index, h as nat)) as int])
}

/// The rows after leaf `index` gets the hash `leaf`: the ancestor at each
/// height takes the hash folded up to it, every other node stays.
pub open spec fn path_updated(rows: Seq<Seq<Seq<u8>>>, depth: nat, index: nat, leaf: Seq<u8>) -> Seq<Seq<Seq<u8>>> {
    Seq::new(
        rows.len(),
        |h: int| rows[h].update(ancestor(index, h as nat) as int, path_root(leaf, column(rows, depth, index), index, h as nat)),
    )
}

proof fn lemma_depth_below_width(d: nat)
    ensures
        d < pow2(d),
    decreases d,
{
    if d == 0 {
        lemma2_to64();
    } else {
        lemma_depth_below_width((d - 1) as nat);
        lemma_pow2_unfold(d);
        vstd::arithmetic::power2::lemma_pow2_pos((d - 1) as nat);
    }
}

/// `2^max_depth`, the number of leaves of the padded row.
fn leaf_width(params: &Params) -> (w: usize)
    requires
        params.wf(),
    ensures
        w == pow2(params.max_depth as nat),
{
    let mut w: usize = 1;
    let mut k: usize = 0;
    proof {
        lemma2_to64();
    }
    while k < params.max_depth
        invariant
            params.wf(),
            k <= params.max_depth,
            w == pow2(k as nat),
        decreases params.max_depth - k,
    {
        proof {
            lemma_pow2_unfold((k + 1) as nat);
            if k + 1 < params.max_depth {
                vstd::arithmetic::power2::lemma_pow2_strictly_increases((k + 1) as nat, params.max_depth as nat);
            }
        }
        w = w * 2;
        k = k + 1;
    }
    w
}

/// Whether `tree` has the row lengths of a tree of depth `max_depth`.
fn check_shape(params: &Params, tree: &MerkleTree) -> (r: bool)
    requires
        params.wf(),
    ensures
        r == shaped(tree.rows(), params.depth()),
{
    let d = params.max_depth;
    proof {
        lemma_depth_below_width(d as nat);
    }
    if tree.levels.len() != d + 1 {
        return false;
    }
    let mut w: usize = 1;
    let mut k: usize = 0;
    proof {
        lemma2_to64();
    }
    while k <= d
        invariant
            params.wf(),
            d == params.max_depth,
            tree.levels@.len() == d + 1,
            d < usize::MAX,
            k <= d + 1,
            k <= d ==> w == pow2(k as nat),
            forall|h: int| d - k < h <= d ==> (#[trigger] tree.rows()[h]).len() == pow2((d - h) as nat),
        decreases d + 1 - k,
    {
        if tree.levels[d - k].len() != w {
            assert(tree.rows()[d - k].len() != pow2(k as nat));
            return false;
        }
        if k < d {
            proof {
                lemma_pow2_unfold((k + 1) as nat);
                if k + 1 < d {
                    vstd::arithmetic::power2::lemma_pow2_strictly_increases((k + 1) as nat, d as nat);
                }
            }
            w = w * 2;
        }
        k = k + 1;
    }
    true
}

/// The first `count` rows hold the node hashes of the tree over `values`.
pub open spec fn rows_hold(rows: Seq<Seq<Seq<u8>>>, values: Seq<Seq<u8>>, depth: nat, count: nat) -> bool {
    &&& rows.len() == count
    &&& forall|h: int| 0 <= h < count ==> (#[trigger] rows[h]).len() == pow2((depth - h) as nat)
    &&& forall|h: int, p: int| 0 <= h < count && 0 <= p < rows[h].len()
        ==> #[trigger] rows[h][p] == node_hash(values, h as nat, p)
}

/// The row at `height` computed from the row below it.
fn parent_row(below: &Vec<Vec<u8>>, width: usize, ghost_values: Ghost<Seq<Seq<u8>>>, height: Ghost<nat>) -> (row: Vec<Vec<u8>>)
    requires
        height@ > 0,
        2 * width <= usize::MAX,
        below@.len() == 2 * width,
        forall|p: int| 0 <= p < below@.len() ==> (#[trigger] below@[p])@ == node_hash(ghost_values@, (height@ - 1) as nat, p),
    ensures
        row@.len() == width,
        forall|p: int| 0 <= p < width ==> (#[trigger] row@[p])@ == node_hash(ghost_values@, height@, p),
{
    let mut row: Vec<Vec<u8>> = Vec::new();
    let mut p: usize = 0;
    while p < width
        invariant
            p <= width,
            height@ > 0,
            2 * width <= usize::MAX,
            below@.len() == 2 * width,
            forall|q: int| 0 <= q < below@.len() ==> (#[trigger] below@[q])@ == node_hash(ghost_values@, (height@ - 1) as nat, q),
            row@.len() == p,
            forall|q: int| 0 <= q < p ==> (#[trigger] row@[q])@ == node_hash(ghost_values@, height@, q),
        decreases width - p,
    {
        let left = slice_to_vec(below[2 * p].as_slice());
        let right = slice_to_vec(below[2 * p + 1].as_slice());
        assert(left@ == node_hash(ghost_values@, (height@ - 1) as nat, 2 * p));
        assert(right@ == node_hash(ghost_values@, (height@ - 1) as nat, 2 * p + 1));
        let x = hash_pair(left, right);
        assert(x@ == node_hash(ghost_values@, height@, p as int));
        let ghost before = row@;
        row.push(x);
        assert forall|q: int| 0 <= q < p + 1 implies (#[trigger] row@[q])@ == node_hash(ghost_values@, height@, q) by {
            if q < p {
                assert(row@[q] == before[q]);
            }
        }
        p = p + 1;
    }
    row
}

/// Computes and keeps every node hash of the tree over `values`.
pub fn commit_with_tree(params: &Params, values: &[Vec<u8>]) -> (r: Result<MerkleTree, VcError>)
    requires
        params.wf(),
    ensures
        match r {
            Ok(t) => values@.len() == params.n && represents(t.rows(), views(values@), params.depth()),
            Err(e) => values@.len() != params.n && e == VcError::CapacityMismatch,
        },
{
    if values.len() != params.n {
        return Err(VcError::CapacityMismatch);
    }
    let ghost vals = views(values@);
    let d = params.max_depth;
    let width = leaf_width(params);
    let mut leaves: Vec<Vec<u8>> = Vec::new();
    let mut p: usize = 0;
    while p < width
        invariant
            p <= width,
            vals == views(values@),
            leaves@.len() == p,
            forall|q: int| 0 <= q < p ==> (#[trigger] leaves@[q])@ == node_hash(vals, 0, q),
        decreases width - p,
    {
        let x = leaf_hash(values, p);
        assert(x@ == node_hash(vals, 0, p as int));
        let ghost before = leaves@;
        leaves.push(x);
        assert forall|q: int| 0 <= q < p + 1 implies (#[trigger] leaves@[q])@ == node_hash(vals, 0, q) by {
            if q < p {
                assert(leaves@[q] == before[q]);
            }
        }
        p = p + 1;
    }
    let mut levels: Vec<Vec<Vec<u8>>> = Vec::new();
    levels.push(leaves);
    let mut h: usize = 0;
    let mut w: usize = width;
    assert(rows_hold(MerkleTree { levels }.rows(), vals, d as nat, 1));
    while h < d
        invariant
            params.wf(),
            d == params.max_depth,
            h <= d,
            w == pow2((d - h) as nat),
            rows_hold(MerkleTree { levels }.rows(), vals, d as nat, (h + 1) as nat),
        decreases d - h,
    {
        let ghost before = MerkleTree { levels }.rows();
        proof {
            lemma_pow2_unfold((d - h) as nat);
        }
        let half = w / 2;
        assert(levels@[h as int]@.len() == before[h as int].len());
        assert forall|q: int| 0 <= q < levels@[h as int]@.len() implies (#[trigger] levels@[h as int]@[q])@ == node_hash(vals, h as nat, q) by {
            assert(before[h as int][q] == levels@[h as int]@[q]@);
        }
        let row = parent_row(&levels[h], half, Ghost(vals), Ghost((h + 1) as nat));
        levels.push(row);
        h = h + 1;
        w = half;
        let ghost after = MerkleTree { levels }.rows();
        assert forall|k: int| 0 <= k < h + 1 implies (#[trigger] after[k]).len() == pow2((d - k) as nat) by {
            if k < h {
                assert(after[k] == before[k]);
            }
        }
        assert forall|k: int, q: int| 0 <= k < h + 1 && 0 <= q < after[k].len()
            implies #[trigger] after[k][q] == node_hash(vals, k as nat, q) by {
            if k < h {
                assert(after[k] == before[k]);
            }
        }
    }
    let t = MerkleTree { levels };
    assert forall|k: int| 0 <= k <= d implies (#[trigger] t.rows()[k]).len() == pow2((d - k) as nat) by {}
    Ok(t)
}

impl MerkleTree {
    /// The root hash: the one node of the top row.
    pub fn root(&self) -> (r: Option<Vec<u8>>)
        ensures
            match r {
                Some(c) => self.rows().len() > 0 && self.rows().last().len() > 0 && c@ == self.rows().last()[0],
                None => self.rows().len() == 0 || self.rows().last().len() == 0,
            },
    {
        let count = self.levels.len();
        if count == 0 {
            return None;
        }
        if self.levels[count - 1].len() == 0 {
            return None;
        }
        Some(slice_to_vec(self.levels[count - 1][0].as_slice()))
    }
}

/// The sibling of a node in a row of even length lies in the same row.
pub(crate) proof fn lemma_sibling_in_row(a: nat, depth: nat, h: nat)
    requires
        h < depth,
        a < pow2((depth - h) as nat),
    ensures
        sibling(a) < pow2((depth - h) as nat),
{
    lemma_pow2_unfold((depth - h) as nat);
}

/// The authentication path of `index`, each sibling hash looked up in
/// the retained tree.
pub fn prove_from_tree(params: &Params, tree: &MerkleTree, index: usize) -> (r: Result<Vec<Vec<u8>>, VcError>)
    requires
        params.wf(),
    ensures
        match r {
            Ok(p) => {
                &&& index < params.n
                &&& shaped(tree.rows(), params.depth())
                &&& views(p@) == column(tree.rows(), params.depth(), index as nat)
            },
            Err(e) => {
                &&& index >= params.n ==> e == VcError::IndexOutOfRange
                &&& index < params.n ==> !shaped(tree.rows(), params.depth()) && e == VcError::ParameterMismatch
            },
        },
{
    if index >= params.n {
        return Err(VcError::IndexOutOfRange);
    }
    if !check_shape(params, tree) {
        return Err(VcError::ParameterMismatch);
    }
    let ghost rows = tree.rows();
    let d = params.max_depth;
    let mut path: Vec<Vec<u8>> = Vec::new();
    let mut a: usize = index;
    let mut h: usize = 0;
    while h < d
        invariant
            params.wf(),
            d == params.max_depth,
            index < params.n,
            rows == tree.rows(),
            shaped(rows, d as nat),
            h <= d,
            a == ancestor(index as nat, h as nat),
            views(path@) == column(rows, d as nat, index as nat).subrange(0, h as int),
        decreases d - h,
    {
        proof {
            lemma_ancestor_in_row(params, index as nat, (d - h) as nat);
            lemma_sibling_in_row(a as nat, d as nat, h as nat);
            assert(rows[h as int].len() == pow2((d - h) as nat));
        }
        let s = if a % 2 == 0 { a + 1 } else { a - 1 };
        let entry = slice_to_vec(tree.levels[h][s].as_slice());
        proof {
            assert(entry@ == rows[h as int][s as int]);
        }
        let ghost before = views(path@);
        assert(column(rows, d as nat, index as nat).len() == d);
        assert(before.len() == h);
        assert(path@.len() == h);
        path.push(entry);
        assert(s as nat == sibling(a as nat));
        assert(views(path@).len() == h + 1);
        assert forall|k: int| 0 <= k < h + 1 implies views(path@)[k] == column(rows, d as nat, index as nat)[k] by {
            if k < h {
                assert(views(path@)[k] == before[k]);
            }
        }
        assert(views(path@) =~= column(rows, d as nat, index as nat).subrange(0, h + 1));
        a = a / 2;
        h = h + 1;
    }
    assert(views(path@) =~= column(rows, d as nat, index as nat));
    Ok(path)
}

/// The rows that a vector of rows holds.
pub open spec fn rows_of(levels: Seq<Vec<Vec<u8>>>) -> Seq<Seq<Seq<u8>>> {
    Seq::new(levels.len(), |h: int| views(levels[h]@))
}

/// Overwrites, in place, the leaf `index` and every ancestor of it with the
/// hashes of the tree in which that leaf holds `value_after`.
pub fn tree_update(params: &Params, index: usize, value_after: &[u8], tree: &mut MerkleTree) -> (r: Result<(), VcError>)
    requires
        params.wf(),
    ensures
        index >= params.n ==> r == Err::<(), VcError>(VcError::IndexOutOfRange),
        index < params.n && !shaped(old(tree).rows(), params.depth()) ==> r == Err::<(), VcError>(VcError::ParameterMismatch),
        index < params.n && shaped(old(tree).rows(), params.depth()) ==> r == Ok::<(), VcError>(()),
        r.is_err() ==> *final(tree) == *old(tree),
        r.is_ok() ==> final(tree).rows() == path_updated(old(tree).rows(), params.depth(), index as nat, sha256_of(value_after@)),
{
    if index >= params.n {
        return Err(VcError::IndexOutOfRange);
    }
    if !check_shape(params, tree) {
        return Err(VcError::ParameterMismatch);
    }
    let d = params.max_depth;
    let ghost rows0 = tree.rows();
    let ghost leaf = sha256_of(value_after@);
    let ghost target = path_updated(rows0, d as nat, index as nat, leaf);
    let mut rest: Vec<Vec<Vec<u8>>> = Vec::new();
    std::mem::swap(&mut rest, &mut tree.levels);
    assert(rows_of(rest@) =~= rows0);
    let mut done: Vec<Vec<Vec<u8>>> = Vec::new();
    let mut acc = sha256(value_after);
    let mut a: usize = index;
    let mut h: usize = 0;
    proof {
        lemma_depth_below_width(d as nat);
    }
    while h <= d
        invariant
            params.wf(),
            d == params.max_depth,
            d < usize::MAX,
            index < params.n,
            shaped(rows0, d as nat),
            target == path_updated(rows0, d as nat, index as nat, leaf),
            h <= d + 1,
            rows_of(rest@) == rows0.subrange(h as int, d + 1),
            rows_of(done@) == target.subrange(0, h as int),
            h <= d ==> a == ancestor(index as nat, h as nat),
            h <= d ==> acc@ == path_root(leaf, column(rows0, d as nat, index as nat), index as nat, h as nat),
        decreases d + 1 - h,
    {
        proof {
            lemma_ancestor_in_row(params, index as nat, (d - h) as nat);
            assert(rows0[h as int].len() == pow2((d - h) as nat));
            assert(rows_of(rest@).len() == rest@.len());
            assert(rest@.len() == d + 1 - h);
            assert(rows_of(rest@)[0] == rows0[h as int]);
            assert(views(rest@[0]@) == rows0[h as int]);
        }
        let ghost first = rest@[0];
        let ghost old_rest = rest@;
        let mut row = rest.remove(0);
        assert(row == first);
        let ghost row0 = views(row@);
        assert(row0 == rows0[h as int]);
        let ghost new_rest = rows_of(rest@);
        assert forall|k: int| 0 <= k < new_rest.len() implies new_rest[k] == rows0.subrange(h + 1, d + 1)[k] by {
            assert(rest@[k] == old_rest[k + 1]);
            assert(rows_of(old_rest)[k + 1] == rows0.subrange(h as int, d + 1)[k + 1]);
        }
        assert(new_rest =~= rows0.subrange(h + 1, d + 1));
        row.set(a, slice_to_vec(acc.as_slice()));
        assert(views(row@) =~= row0.update(a as int, acc@));
        assert(views(row@) == target[h as int]);
        if h < d {
            proof {
                lemma_sibling_in_row(a as nat, d as nat, h as nat);
            }
            let s = if a % 2 == 0 { a + 1 } else { a - 1 };
            assert(s as nat == sibling(a as nat));
            let sib = slice_to_vec(row[s].as_slice());
            assert(sib@ == column(rows0, d as nat, index as nat)[h as int]);
            if a % 2 == 0 {
                acc = hash_pair(acc, sib);
            } else {
                acc = hash_pair(sib, acc);
            }
            a = a / 2;
        }
        let ghost before = rows_of(done@);
        assert(before.len() == h);
        done.push(row);
        assert(rows_of(done@).len() == h + 1);
        assert(rows_of(done@) =~= target.subrange(0, h + 1)) by {
            assert forall|k: int| 0 <= k < h + 1 implies rows_of(done@)[k] == target[k] by {
                if k < h {
                    assert(rows_of(done@)[k] == before[k]);
                }
            }
        }
        h = h + 1;
    }
    assert(rows_of(done@) =~= target);
    tree.levels = done;
    assert(tree.rows() =~= target);
    Ok(())
}

} // verus!
