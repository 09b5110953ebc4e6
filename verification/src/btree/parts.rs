//! Parting a node in two and joining two into one: what it does to the map a
//! tree stands for, and that an overfull node can always be parted.

use vstd::prelude::*;
use crate::order::{
    ascending, before, before_antisymmetric, before_irreflexive, before_not_after,
    before_transitive, lemma_upper_bound, lemma_upper_bound_unique, not_after_before,
    not_before_transitive, upper_bound,
};
use super::model::{
    cells_fit, entry_fits, good, key_fits, kid_hi, kid_ids, kid_lo, within, Bound, Tree,
};
use super::node::{leaf_value, merged, NodeV, CAP, MAX_CELL, MIN_FILL};

verus! {

/// Whether `t` is `l` and `r` side by side, parted by `sep`: the keys of `l` are
/// below it and those of `r` are not. A separator between internal nodes is a
/// key of `t`.
pub open spec fn parted(t: Tree, l: Tree, sep: Seq<u8>, r: Tree) -> bool {
    match (t, l, r) {
        (
            Tree::Leaf { keys, vals, .. },
            Tree::Leaf { keys: lk, vals: lv, .. },
            Tree::Leaf { keys: rk, vals: rv, .. },
        ) => {
            &&& keys == lk + rk
            &&& vals == lv + rv
            &&& lv.len() == lk.len()
            &&& rv.len() == rk.len()
            &&& forall|i: int| 0 <= i < lk.len() ==> before(#[trigger] lk[i], sep)
            &&& forall|i: int| 0 <= i < rk.len() ==> !before(#[trigger] rk[i], sep)
        },
        (
            Tree::Inner { keys, kids, .. },
            Tree::Inner { keys: lk, kids: lc, .. },
            Tree::Inner { keys: rk, kids: rc, .. },
        ) => {
            &&& keys == lk.push(sep) + rk
            &&& kids == lc + rc
            &&& lc.len() == lk.len() + 1
            &&& rc.len() == rk.len() + 1
        },
        _ => false,
    }
}

/// In a leaf of ascending keys, the value at a position is that of its key.
pub proof fn lemma_leaf_value_at(n: NodeV, i: int)
    requires
        n is Leaf,
        ascending(n.keys()),
        0 <= i < n.count(),
    ensures
        leaf_value(n, n.keys()[i]) == Some(n->Leaf_vals[i]),
{
    let keys = n.keys();
    let k = keys[i];
    assert(keys.contains(k));
    let j = keys.index_of(k);
    before_irreflexive(k);
    if i < j {
        assert(before(keys[i], keys[j]));
    } else if j < i {
        assert(before(keys[j], keys[i]));
    }
}

/// A parted tree maps a key below the separator as its left part does, and any
/// other key as its right part does.
pub proof fn lemma_parted_get(t: Tree, l: Tree, sep: Seq<u8>, r: Tree, k: Seq<u8>)
    requires
        parted(t, l, sep, r),
        ascending(t.keys()),
    ensures
        t.get(k) == if before(k, sep) {
            l.get(k)
        } else {
            r.get(k)
        },
{
    match (t, l, r) {
        (
            Tree::Leaf { keys, vals, .. },
            Tree::Leaf { keys: lk, vals: lv, .. },
            Tree::Leaf { keys: rk, vals: rv, .. },
        ) => {
            lemma_subkeys_ascending(keys, lk, 0);
            lemma_subkeys_ascending(keys, rk, lk.len() as int);
            if before(k, sep) {
                if lk.contains(k) {
                    let i = lk.index_of(k);
                    assert(keys[i] == k);
                    lemma_leaf_value_at(t.node(), i);
                    lemma_leaf_value_at(l.node(), i);
                } else {
                    if keys.contains(k) {
                        let i = keys.index_of(k);
                        if i < lk.len() {
                            assert(lk[i] == k);
                        } else {
                            assert(rk[i - lk.len()] == k);
                        }
                        assert(false);
                    }
                }
            } else {
                if rk.contains(k) {
                    let i = rk.index_of(k);
                    assert(keys[lk.len() + i] == k);
                    lemma_leaf_value_at(t.node(), lk.len() + i);
                    lemma_leaf_value_at(r.node(), i);
                } else {
                    if keys.contains(k) {
                        let i = keys.index_of(k);
                        if i < lk.len() {
                            assert(lk[i] == k);
                        } else {
                            assert(rk[i - lk.len()] == k);
                        }
                        assert(false);
                    }
                }
            }
        },
        (
            Tree::Inner { keys, kids, .. },
            Tree::Inner { keys: lk, kids: lc, .. },
            Tree::Inner { keys: rk, kids: rc, .. },
        ) => {
            let m = lk.len() as int;
            assert(keys[m] == sep);
            lemma_upper_bound(keys, k);
            let u = upper_bound(keys, k);
            lemma_subkeys_ascending(keys, lk, 0);
            lemma_subkeys_ascending(keys, rk, m + 1);
            if before(k, sep) {
                assert(u <= m);
                if u > 0 {
                    assert(lk[u - 1] == keys[u - 1]);
                }
                if u < m {
                    assert(lk[u] == keys[u]);
                }
                lemma_upper_bound_unique(lk, k, u);
            } else {
                assert(u >= m + 1);
                if u > m + 1 {
                    assert(rk[u - m - 2] == keys[u - 1]);
                }
                if u < keys.len() {
                    assert(rk[u - m - 1] == keys[u]);
                }
                lemma_upper_bound_unique(rk, k, u - m - 1);
            }
        },
        _ => {},
    }
}

proof fn lemma_subkeys_ascending(keys: Seq<Seq<u8>>, part: Seq<Seq<u8>>, at: int)
    requires
        ascending(keys),
        0 <= at,
        at + part.len() <= keys.len(),
        forall|i: int| 0 <= i < part.len() ==> #[trigger] part[i] == keys[at + i],
    ensures
        ascending(part),
{
    assert forall|i: int, j: int| 0 <= i < j < part.len() implies before(
        #[trigger] part[i],
        #[trigger] part[j],
    ) by {
        assert(before(keys[at + i], keys[at + j]));
    }
}

/// The parts of a tree's root node.
pub proof fn lemma_node_parts(t: Tree)
    ensures
        t matches Tree::Leaf { keys, vals, .. } ==> t.node()->Leaf_keys == keys
            && t.node()->Leaf_vals == vals,
        t matches Tree::Inner { keys, kids, .. } ==> t.node()->Internal_keys == keys
            && t.node()->Internal_children == kid_ids(kids),
{
}

/// The parts of a B+tree are B+trees below and above the separator.
pub proof fn lemma_part_good(t: Tree, l: Tree, sep: Seq<u8>, r: Tree, h: nat, lo: Bound, hi: Bound)
    requires
        parted(t, l, sep, r),
        good(t, h, lo, hi),
    ensures
        good(l, h, lo, Some(sep)),
        good(r, h, Some(sep), hi),
        t is Inner ==> within(lo, sep, hi) && key_fits(sep),
{
    match (t, l, r) {
        (
            Tree::Leaf { keys, vals, .. },
            Tree::Leaf { keys: lk, vals: lv, .. },
            Tree::Leaf { keys: rk, vals: rv, .. },
        ) => {
            lemma_node_parts(t);
            lemma_node_parts(l);
            lemma_node_parts(r);
            lemma_subkeys_ascending(keys, lk, 0);
            lemma_subkeys_ascending(keys, rk, lk.len() as int);
            assert forall|i: int| 0 <= i < lk.len() implies within(lo, #[trigger] lk[i], Some(sep))
                && entry_fits(lk[i], lv[i]) by {
                assert(keys[i] == lk[i] && vals[i] == lv[i]);
            }
            assert forall|i: int| 0 <= i < rk.len() implies within(Some(sep), #[trigger] rk[i], hi)
                && entry_fits(rk[i], rv[i]) by {
                assert(keys[lk.len() + i] == rk[i] && vals[lk.len() + i] == rv[i]);
            }
        },
        (
            Tree::Inner { keys, kids, .. },
            Tree::Inner { keys: lk, kids: lc, .. },
            Tree::Inner { keys: rk, kids: rc, .. },
        ) => {
            lemma_node_parts(t);
            lemma_node_parts(l);
            lemma_node_parts(r);
            let m = lk.len() as int;
            assert(keys[m] == sep);
            lemma_subkeys_ascending(keys, lk, 0);
            lemma_subkeys_ascending(keys, rk, m + 1);
            assert forall|i: int| 0 <= i < lk.len() implies within(lo, #[trigger] lk[i], Some(sep))
                && key_fits(lk[i]) by {
                assert(keys[i] == lk[i]);
                assert(before(keys[i], keys[m]));
            }
            assert forall|i: int| 0 <= i < rk.len() implies within(Some(sep), #[trigger] rk[i], hi)
                && key_fits(rk[i]) by {
                assert(keys[m + 1 + i] == rk[i]);
                before_antisymmetric(keys[m], keys[m + 1 + i]);
            }
            assert forall|i: int| 0 <= i < lc.len() implies good(
                #[trigger] lc[i],
                (h - 1) as nat,
                kid_lo(lo, lk, i),
                kid_hi(lk, Some(sep), i),
            ) && lc[i].keys().len() >= 1 by {
                assert(kids[i] == lc[i]);
                assert(i > 0 ==> lk[i - 1] == keys[i - 1]);
                assert(i < m ==> lk[i] == keys[i]);
            }
            assert forall|i: int| 0 <= i < rc.len() implies good(
                #[trigger] rc[i],
                (h - 1) as nat,
                kid_lo(Some(sep), rk, i),
                kid_hi(rk, hi, i),
            ) && rc[i].keys().len() >= 1 by {
                assert(kids[m + 1 + i] == rc[i]);
                assert(i > 0 ==> rk[i - 1] == keys[m + i]);
                assert(i < rk.len() ==> rk[i] == keys[m + 1 + i]);
            }
        },
        _ => {},
    }
}

/// Two B+trees below and above a separator make one.
pub proof fn lemma_join_good(t: Tree, l: Tree, sep: Seq<u8>, r: Tree, h: nat, lo: Bound, hi: Bound)
    requires
        parted(t, l, sep, r),
        good(l, h, lo, Some(sep)),
        good(r, h, Some(sep), hi),
        within(lo, sep, hi),
        t is Inner ==> key_fits(sep),
    ensures
        good(t, h, lo, hi),
{
    match (t, l, r) {
        (
            Tree::Leaf { keys, vals, .. },
            Tree::Leaf { keys: lk, vals: lv, .. },
            Tree::Leaf { keys: rk, vals: rv, .. },
        ) => {
            lemma_node_parts(t);
            lemma_node_parts(l);
            lemma_node_parts(r);
            let m = lk.len() as int;
            assert forall|i: int| 0 <= i < keys.len() implies within(lo, #[trigger] keys[i], hi)
                && entry_fits(keys[i], vals[i]) by {
                if i < m {
                    assert(keys[i] == lk[i] && vals[i] == lv[i]);
                    assert(entry_fits(lk[i], lv[i]) && within(lo, lk[i], Some(sep)));
                    if let Some(b) = hi {
                        before_transitive(keys[i], sep, b);
                    }
                } else {
                    assert(keys[i] == rk[i - m] && vals[i] == rv[i - m]);
                    assert(entry_fits(rk[i - m], rv[i - m]) && within(Some(sep), rk[i - m], hi));
                    if let Some(b) = lo {
                        not_before_transitive(keys[i], sep, b);
                    }
                }
            }
            assert forall|i: int, j: int| 0 <= i < j < keys.len() implies before(
                #[trigger] keys[i],
                #[trigger] keys[j],
            ) by {
                if j < m {
                    assert(before(lk[i], lk[j]));
                } else if i >= m {
                    assert(before(rk[i - m], rk[j - m]));
                } else {
                    assert(before(lk[i], sep) && !before(rk[j - m], sep));
                    before_not_after(keys[i], sep, keys[j]);
                }
            }
        },
        (
            Tree::Inner { keys, kids, .. },
            Tree::Inner { keys: lk, kids: lc, .. },
            Tree::Inner { keys: rk, kids: rc, .. },
        ) => {
            lemma_node_parts(t);
            lemma_node_parts(l);
            lemma_node_parts(r);
            let m = lk.len() as int;
            assert(keys[m] == sep);
            assert forall|i: int| 0 <= i < keys.len() implies within(lo, #[trigger] keys[i], hi)
                && key_fits(keys[i]) by {
                if i < m {
                    assert(keys[i] == lk[i]);
                    assert(key_fits(lk[i]) && within(lo, lk[i], Some(sep)));
                    if let Some(b) = hi {
                        before_transitive(keys[i], sep, b);
                    }
                } else if i > m {
                    assert(keys[i] == rk[i - m - 1]);
                    assert(key_fits(rk[i - m - 1]) && within(Some(sep), rk[i - m - 1], hi));
                    if let Some(b) = lo {
                        not_before_transitive(keys[i], sep, b);
                    }
                }
            }
            // A separator of the right part is above `sep` strictly: the subtree
            // between them is not empty.
            assert forall|j: int| 0 <= j < rk.len() implies before(sep, #[trigger] rk[j]) by {
                lemma_nonempty_between(rc[0], (h - 1) as nat, Some(sep), kid_hi(rk, hi, 0));
                let k0 = rk[0];
                assert(before(sep, k0));
                if j > 0 {
                    before_transitive(sep, k0, rk[j]);
                }
            }
            assert forall|i: int, j: int| 0 <= i < j < keys.len() implies before(
                #[trigger] keys[i],
                #[trigger] keys[j],
            ) by {
                if j < m {
                    assert(before(lk[i], lk[j]));
                } else if i > m {
                    assert(before(rk[i - m - 1], rk[j - m - 1]));
                } else if j == m {
                    assert(within(lo, lk[i], Some(sep)));
                } else if i == m {
                    assert(before(sep, rk[j - m - 1]));
                } else {
                    assert(within(lo, lk[i], Some(sep)));
                    assert(before(sep, rk[j - m - 1]));
                    before_transitive(keys[i], sep, keys[j]);
                }
            }
            assert forall|i: int| 0 <= i < kids.len() implies good(
                #[trigger] kids[i],
                (h - 1) as nat,
                kid_lo(lo, keys, i),
                kid_hi(keys, hi, i),
            ) && kids[i].keys().len() >= 1 by {
                if i <= m {
                    assert(kids[i] == lc[i]);
                    assert(i > 0 ==> lk[i - 1] == keys[i - 1]);
                    assert(i < m ==> lk[i] == keys[i]);
                } else {
                    assert(kids[i] == rc[i - m - 1]);
                    assert(i > m + 1 ==> rk[i - m - 2] == keys[i - 1]);
                    assert(i < keys.len() ==> rk[i - m - 1] == keys[i]);
                }
            }
        },
        _ => {},
    }
}

/// Bounds around a B+tree that is not empty are apart.
pub proof fn lemma_nonempty_between(t: Tree, h: nat, lo: Bound, hi: Bound)
    requires
        good(t, h, lo, hi),
        t.keys().len() >= 1,
    ensures
        match (lo, hi) {
            (Some(a), Some(b)) => before(a, b),
            _ => true,
        },
{
    let k = t.keys()[0];
    assert(within(lo, k, hi));
    if let (Some(a), Some(b)) = (lo, hi) {
        not_after_before(a, k, b);
    }
}

// Where a split may part a node.

/// The bound on the size of a node that insertion or joining can make.
pub open spec fn splittable(n: NodeV) -> bool {
    &&& n.fits_together()
    &&& cells_fit(n)
    &&& n.size() > CAP
    &&& n.size() <= CAP + MAX_CELL + (if n is Internal {
        MIN_FILL as int
    } else {
        0
    })
}

proof fn lemma_cell_small(n: NodeV, i: int)
    requires
        cells_fit(n),
        0 <= i < n.count(),
    ensures
        1 <= n.cell(i) <= MAX_CELL,
{
    match n {
        NodeV::Leaf { keys, vals } => {
            assert(entry_fits(keys[i], vals[i]));
        },
        NodeV::Internal { keys, .. } => {
            assert(key_fits(keys[i]));
        },
    }
}

/// The last position up to which the cells still fit a page.
proof fn lemma_last_fit(n: NodeV, m: int) -> (r: int)
    requires
        splittable(n),
        1 <= m < n.count(),
        n.header() + n.cells(m as nat) <= CAP,
    ensures
        m <= r < n.count(),
        n.header() + n.cells(r as nat) <= CAP,
        n.header() + n.cells(r as nat) + n.cell(r) > CAP,
    decreases n.count() - m,
{
    assert(n.cells((m + 1) as nat) == n.cells(m as nat) + n.cell(m));
    if n.header() + n.cells((m + 1) as nat) > CAP {
        m
    } else {
        lemma_last_fit(n, m + 1)
    }
}

proof fn lemma_best_split(n: NodeV, top: int)
    requires
        0 <= top,
    ensures
        ({
            let b = n.best_split(top);
            &&& 0 <= b <= top
            &&& b > 0 ==> n.split_fits(b)
            &&& forall|m: int|
                1 <= m <= top && #[trigger] n.split_fits(m) ==> b > 0 && n.skew(b) <= n.skew(m)
        }),
    decreases top,
{
    if top > 0 {
        lemma_best_split(n, top - 1);
    }
}

proof fn lemma_cells_sum(n: NodeV, a: nat, b: nat)
    requires
        a <= b,
    ensures
        n.cells(a) <= n.cells(b),
    decreases b,
{
    if a < b {
        lemma_cells_sum(n, a, (b - 1) as nat);
    }
}

proof fn lemma_left_cells(n: NodeV, m: int, k: nat)
    requires
        n.fits_together(),
        0 <= k <= m < n.count(),
    ensures
        n.left_of(m).cells(k) == n.cells(k),
    decreases k,
{
    if k > 0 {
        lemma_left_cells(n, m, (k - 1) as nat);
    }
}

proof fn lemma_right_cells(n: NodeV, m: int, k: nat)
    requires
        n.fits_together(),
        0 <= m < n.count(),
        k <= n.right_of(m).count(),
    ensures
        n.right_of(m).cells(k) == n.cells((n.count() - n.right_of(m).count() + k) as nat) - n.cells(
            (n.count() - n.right_of(m).count()) as nat,
        ),
    decreases k,
{
    if k > 0 {
        lemma_right_cells(n, m, (k - 1) as nat);
        let at = n.count() - n.right_of(m).count();
        assert(n.cells((at + k) as nat) == n.cells((at + k - 1) as nat) + n.cell(at + k - 1));
        assert(n.right_of(m).cell(k - 1) == n.cell(at + k - 1));
    }
}

/// An overfull node within the bound is parted into two nodes that fit, neither
/// of them empty.
pub proof fn lemma_split(n: NodeV)
    requires
        splittable(n),
    ensures
        ({
            let m = n.split_point();
            &&& n.count() >= 2
            &&& 1 <= m < n.count()
            &&& n.left_of(m).size() <= CAP
            &&& n.right_of(m).size() <= CAP
            &&& n.left_of(m).count() >= 1
            &&& n.right_of(m).count() >= 1
            &&& n.left_of(m).fits_together()
            &&& n.right_of(m).fits_together()
        }),
{
    let count = n.count() as int;
    // More than one cell, or it would fit.
    if count >= 1 {
        lemma_cell_small(n, 0);
        assert(n.cells(1) == n.cells(0) + n.cell(0));
        if count == 1 {
            assert(false);
        }
    } else {
        assert(n.cells(0) == 0);
        assert(false);
    }
    assert(n.cells(0) == 0);
    let r = lemma_last_fit(n, 1);
    lemma_cell_small(n, r);
    lemma_cells_sum(n, (r + 1) as nat, count as nat);
    assert(n.cells((r + 1) as nat) == n.cells(r as nat) + n.cell(r));
    assert(n.split_fits(r));
    lemma_best_split(n, count - 1);
    let m = n.split_point();
    assert(n.split_fits(m));
    lemma_left_cells(n, m, m as nat);
    lemma_right_cells(n, m, n.right_of(m).count());
    if n is Internal {
        // The last position leaves nothing on the right and is never the best.
        if m == count - 1 {
            let c1 = n.cell(count - 1);
            let c2 = n.cell(count - 2);
            lemma_cell_small(n, count - 1);
            lemma_cell_small(n, count - 2);
            assert(n.cells(count as nat) == n.cells((count - 1) as nat) + c1);
            assert(n.cells((count - 1) as nat) == n.cells((count - 2) as nat) + c2);
            if count == 2 {
                assert(false);
            }
            assert(n.right_cells(count - 1) == 0);
            assert(n.right_cells(count - 2) == c1);
            assert(n.split_fits(count - 2));
            assert(n.skew(count - 2) < n.skew(count - 1));
            assert(false);
        }
        assert(n.cells((m + 1) as nat) == n.cells(m as nat) + n.cell(m));
    }
}

/// The size of a joined node.
pub proof fn lemma_merged_size(l: NodeV, sep: Seq<u8>, r: NodeV)
    requires
        l.fits_together(),
        r.fits_together(),
        (l is Leaf) == (r is Leaf),
    ensures
        merged(l, sep, r).fits_together(),
        merged(l, sep, r).size() + r.header() == l.size() + r.size() + (if l is Leaf {
            0
        } else {
            10 + sep.len()
        }),
{
    let n = merged(l, sep, r);
    lemma_merged_left(l, sep, r, l.count());
    lemma_merged_right(l, sep, r, r.count());
    if l is Internal {
        let c = l.count();
        assert(n.cells(c + 1) == n.cells(c) + n.cell(c as int));
    }
}

proof fn lemma_merged_left(l: NodeV, sep: Seq<u8>, r: NodeV, k: nat)
    requires
        l.fits_together(),
        r.fits_together(),
        (l is Leaf) == (r is Leaf),
        k <= l.count(),
    ensures
        merged(l, sep, r).cells(k) == l.cells(k),
    decreases k,
{
    if k > 0 {
        lemma_merged_left(l, sep, r, (k - 1) as nat);
    }
}

proof fn lemma_merged_right(l: NodeV, sep: Seq<u8>, r: NodeV, k: nat)
    requires
        l.fits_together(),
        r.fits_together(),
        (l is Leaf) == (r is Leaf),
        k <= r.count(),
    ensures
        ({
            let n = merged(l, sep, r);
            let at = (n.count() - r.count()) as nat;
            n.cells(at + k) == n.cells(at) + r.cells(k)
        }),
    decreases k,
{
    if k > 0 {
        lemma_merged_right(l, sep, r, (k - 1) as nat);
        let n = merged(l, sep, r);
        let at = n.count() - r.count();
        assert(n.cells((at + k) as nat) == n.cells((at + k - 1) as nat) + n.cell(at + k - 1));
        assert(n.cell(at + k - 1) == r.cell(k - 1));
    }
}

} // verus!
