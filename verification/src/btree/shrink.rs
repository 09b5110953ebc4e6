//! Lemmas on deletion: an entry taken out of a leaf, and two adjacent subtrees joined.

use vstd::prelude::*;
use crate::order::{
    before, before_antisymmetric, before_irreflexive, before_transitive, upper_bound,
};
use super::model::{
    entry_fits, good, key_fits, kid_hi, kid_ids, kid_lo, lemma_route_within, lemma_within_route,
    within, Bound, Tree,
};
use super::node::{merged, MAX_CELL};
use super::parts::{
    lemma_join_good, lemma_leaf_value_at, lemma_merged_size, lemma_node_parts, lemma_parted_get,
    parted,
};

verus! {

/// The leaf `t` without its `i`-th entry.
pub open spec fn leaf_without(t: Tree, i: int) -> Tree {
    match t {
        Tree::Leaf { id, keys, vals } => Tree::Leaf { id, keys: keys.remove(i), vals: vals.remove(i) },
        _ => t,
    }
}

pub proof fn lemma_leaf_without(t: Tree, i: int, lo: Bound, hi: Bound)
    requires
        t is Leaf,
        good(t, 1, lo, hi),
        0 <= i < t.keys().len(),
    ensures
        good(leaf_without(t, i), 1, lo, hi),
        leaf_without(t, i).node().size() <= t.node().size(),
        leaf_without(t, i).node().fits_together(),
        forall|k: Seq<u8>| #[trigger]
            leaf_without(t, i).get(k) == if k == t.keys()[i] {
                None
            } else {
                t.get(k)
            },
{
    let t2 = leaf_without(t, i);
    lemma_node_parts(t);
    lemma_node_parts(t2);
    if let Tree::Leaf { keys, vals, .. } = t {
        if let Tree::Leaf { keys: keys2, vals: vals2, .. } = t2 {
            let at = |x: int| if x < i {
                x
            } else {
                x + 1
            };
            assert forall|x: int| 0 <= x < keys2.len() implies within(lo, #[trigger] keys2[x], hi)
                && entry_fits(keys2[x], vals2[x]) by {
                assert(keys2[x] == keys[at(x)] && vals2[x] == vals[at(x)]);
                assert(within(lo, keys[at(x)], hi) && entry_fits(keys[at(x)], vals[at(x)]));
            }
            assert forall|x: int, y: int| 0 <= x < y < keys2.len() implies before(
                #[trigger] keys2[x],
                #[trigger] keys2[y],
            ) by {
                assert(keys2[x] == keys[at(x)] && keys2[y] == keys[at(y)]);
            }
            super::grow::lemma_cells_inserted(
                t2.node(),
                t.node(),
                i,
                t.node().cell(i),
                keys.len(),
            );
            assert forall|k: Seq<u8>| #[trigger] t2.get(k) == if k == keys[i] {
                None
            } else {
                t.get(k)
            } by {
                if keys2.contains(k) {
                    let x = keys2.index_of(k);
                    assert(keys[at(x)] == k);
                    lemma_leaf_value_at(t2.node(), x);
                    lemma_leaf_value_at(t.node(), at(x));
                    before_irreflexive(k);
                    if k == keys[i] {
                        assert(before(keys[at(x)], keys[i]) || before(keys[i], keys[at(x)]));
                    }
                } else if k != keys[i] && keys.contains(k) {
                    let x = keys.index_of(k);
                    let y = if x < i {
                        x
                    } else {
                        x - 1
                    };
                    assert(keys2[y] == k);
                }
            }
        }
    }
}

/// `l` and `r` in one node, on page `id`.
pub open spec fn joined(id: u64, l: Tree, sep: Seq<u8>, r: Tree) -> Tree {
    match (l, r) {
        (Tree::Leaf { keys: lk, vals: lv, .. }, Tree::Leaf { keys: rk, vals: rv, .. }) => Tree::Leaf {
            id,
            keys: lk + rk,
            vals: lv + rv,
        },
        (Tree::Inner { keys: lk, kids: lc, .. }, Tree::Inner { keys: rk, kids: rc, .. }) => Tree::Inner {
            id,
            keys: lk.push(sep) + rk,
            kids: lc + rc,
        },
        _ => l,
    }
}

/// Two B+trees side by side join into one.
pub proof fn lemma_joined(id: u64, l: Tree, sep: Seq<u8>, r: Tree, h: nat, lo: Bound, hi: Bound)
    requires
        good(l, h, lo, Some(sep)),
        good(r, h, Some(sep), hi),
        within(lo, sep, hi),
        key_fits(sep),
    ensures
        good(joined(id, l, sep, r), h, lo, hi),
        joined(id, l, sep, r).node() == merged(l.node(), sep, r.node()),
        joined(id, l, sep, r).subtrees() == l.subtrees() + r.subtrees(),
        l is Leaf || l is Inner,
        (l is Leaf) == (r is Leaf),
        (l is Leaf) == (joined(id, l, sep, r) is Leaf),
        joined(id, l, sep, r).id() == id,
        l.keys().len() + r.keys().len() <= joined(id, l, sep, r).keys().len(),
        l is Inner ==> joined(id, l, sep, r).keys().len() >= 1,
        l.node().fits_together(),
        r.node().fits_together(),
        joined(id, l, sep, r).node().size() <= l.node().size() + r.node().size() + (if l is Inner {
            MAX_CELL as int - 12
        } else {
            -4
        }),
        forall|k: Seq<u8>| #[trigger]
            joined(id, l, sep, r).get(k) == if before(k, sep) {
                l.get(k)
            } else {
                r.get(k)
            },
{
    let t = joined(id, l, sep, r);
    super::model::lemma_good_height(l, h, lo, Some(sep));
    super::model::lemma_good_height(r, h, Some(sep), hi);
    lemma_node_parts(l);
    lemma_node_parts(r);
    lemma_node_parts(t);
    match (l, r) {
        (Tree::Leaf { keys: lk, .. }, Tree::Leaf { keys: rk, .. }) => {
            assert forall|i: int| 0 <= i < lk.len() implies before(#[trigger] lk[i], sep) by {
                assert(within(lo, lk[i], Some(sep)));
            }
            assert forall|i: int| 0 <= i < rk.len() implies !before(#[trigger] rk[i], sep) by {
                assert(within(Some(sep), rk[i], hi));
            }
        },
        (Tree::Inner { kids: lc, .. }, Tree::Inner { kids: rc, .. }) => {
            assert(kid_ids(lc + rc) =~= kid_ids(lc) + kid_ids(rc));
        },
        _ => {
            if let Tree::Inner { kids, keys, .. } = l {
                super::model::lemma_good_height(
                    kids[0],
                    (h - 1) as nat,
                    kid_lo(lo, keys, 0),
                    kid_hi(keys, Some(sep), 0),
                );
            }
            if let Tree::Inner { kids, keys, .. } = r {
                super::model::lemma_good_height(
                    kids[0],
                    (h - 1) as nat,
                    kid_lo(Some(sep), keys, 0),
                    kid_hi(keys, hi, 0),
                );
            }
        },
    }
    assert(parted(t, l, sep, r));
    lemma_join_good(t, l, sep, r, h, lo, hi);
    assert(t.node() =~= merged(l.node(), sep, r.node()));
    lemma_merged_size(l.node(), sep, r.node());
    assert(t.subtrees() =~= l.subtrees() + r.subtrees());
    assert forall|k: Seq<u8>| #[trigger] t.get(k) == if before(k, sep) {
        l.get(k)
    } else {
        r.get(k)
    } by {
        lemma_parted_get(t, l, sep, r, k);
    }
}

/// `t` with its subtrees `a` and `a + 1` replaced by the one tree `m`.
pub open spec fn with_one(t: Tree, a: int, m: Tree) -> Tree {
    match t {
        Tree::Inner { id, keys, kids } => Tree::Inner {
            id,
            keys: keys.remove(a),
            kids: kids.remove(a + 1).update(a, m),
        },
        _ => t,
    }
}

pub proof fn lemma_with_one(t: Tree, a: int, m: Tree, h: nat, lo: Bound, hi: Bound)
    requires
        t is Inner,
        good(t, h, lo, hi),
        0 <= a < t.keys().len(),
        good(m, (h - 1) as nat, kid_lo(lo, t.keys(), a), kid_hi(t.keys(), hi, a + 1)),
        m.keys().len() >= 1,
    ensures
        good(with_one(t, a, m), h, lo, hi),
        with_one(t, a, m).node().size() <= t.node().size(),
        with_one(t, a, m).node().fits_together(),
        kid_lo(lo, with_one(t, a, m).keys(), a) == kid_lo(lo, t.keys(), a),
        kid_hi(with_one(t, a, m).keys(), hi, a) == kid_hi(t.keys(), hi, a + 1),
        forall|k: Seq<u8>|
            within(lo, k, hi) ==> #[trigger] with_one(t, a, m).get(k) == if a <= upper_bound(
                t.keys(),
                k,
            ) <= a + 1 {
                m.get(k)
            } else {
                t.get(k)
            },
        forall|k: Seq<u8>|
            within(lo, k, hi) ==> (#[trigger] upper_bound(with_one(t, a, m).keys(), k) == a <==> a
                <= upper_bound(t.keys(), k) <= a + 1),
{
    let t2 = with_one(t, a, m);
    lemma_node_parts(t);
    lemma_node_parts(t2);
    if let Tree::Inner { keys, kids, .. } = t {
        let keys2 = t2.keys();
        let kids2 = t2.subtrees();
        let at = |x: int| if x < a {
            x
        } else {
            x + 1
        };
        assert forall|x: int| 0 <= x < keys2.len() implies within(lo, #[trigger] keys2[x], hi)
            && key_fits(keys2[x]) by {
            assert(keys2[x] == keys[at(x)]);
            assert(within(lo, keys[at(x)], hi) && key_fits(keys[at(x)]));
        }
        assert forall|x: int, y: int| 0 <= x < y < keys2.len() implies before(
            #[trigger] keys2[x],
            #[trigger] keys2[y],
        ) by {
            assert(keys2[x] == keys[at(x)] && keys2[y] == keys[at(y)]);
        }
        assert forall|x: int| 0 <= x < kids2.len() implies good(
            #[trigger] kids2[x],
            (h - 1) as nat,
            kid_lo(lo, keys2, x),
            kid_hi(keys2, hi, x),
        ) && kids2[x].keys().len() >= 1 by {
            if x < a {
                assert(kids2[x] == kids[x]);
            } else if x > a {
                assert(kids2[x] == kids[x + 1]);
            }
        }
        super::grow::lemma_cells_inserted(t2.node(), t.node(), a, t.node().cell(a), keys.len());
        assert forall|k: Seq<u8>|
            #![trigger t2.get(k)]
            #![trigger upper_bound(keys2, k)]
            within(lo, k, hi) implies t2.get(k) == (if a <= upper_bound(keys, k) <= a + 1 {
            m.get(k)
        } else {
            t.get(k)
        }) && (upper_bound(keys2, k) == a <==> a <= upper_bound(keys, k) <= a + 1) by {
            lemma_route_within(keys, lo, hi, k);
            let u = upper_bound(keys, k);
            let v = if u <= a {
                u
            } else {
                u - 1
            };
            if u == a && a + 1 < keys.len() {
                before_transitive(k, keys[a], keys[a + 1]);
            }
            if u == a + 1 && a > 0 {
                before_antisymmetric(keys[a - 1], keys[a]);
                crate::order::not_before_transitive(k, keys[a], keys[a - 1]);
            }
            if u == a && u == keys.len() - 1 {
                // The key is below a separator that is below the upper bound.
                if let Some(b) = hi {
                    assert(within(lo, keys[a], hi));
                    before_transitive(k, keys[a], b);
                }
            }
            if u == a + 1 && a == 0 {
                if let Some(b) = lo {
                    assert(within(lo, keys[a], hi));
                    crate::order::not_before_transitive(k, keys[a], b);
                }
            }
            assert(within(kid_lo(lo, keys2, v), k, kid_hi(keys2, hi, v)));
            lemma_within_route(keys2, lo, hi, k, v);
        }
    }
}

} // verus!
