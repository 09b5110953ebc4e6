//! Lemmas on changing one node of a tree: an entry put into or taken out of a
//! leaf, a subtree replaced by one or two others, and what stays of the rest.

use vstd::prelude::*;
use crate::order::{
    before, before_irreflexive, before_total, before_transitive, lemma_lower_bound, lower_bound,
    not_before_transitive, upper_bound,
};
use crate::pager::state::PagerState;
use super::model::{
    apart, embeds, entry_fits, good, key_fits, kid_hi, kid_lo, lemma_apart, lemma_embeds_frame,
    lemma_route_within, lemma_within_route, node_read, within, Bound, NodeRead, Tree,
};
use super::node::{encodable, NodeV};
use super::parts::{lemma_leaf_value_at, lemma_node_parts, lemma_nonempty_between};
use super::store::{evolves, lemma_in_use_kept, spare, taken};

verus! {

/// Whether the pages of `s` hold `t`, all of them different and none of them
/// free.
#[verifier::opaque]
pub open spec fn held(s: PagerState, t: Tree) -> bool {
    &&& embeds(s, t)
    &&& t.distinct()
    &&& forall|p: u64| #[trigger] t.owns(p) ==> s.in_range(p) && !spare(s).contains(p)
}

/// What holding a tree means for one of its pages, and for its root.
pub proof fn lemma_held(s: PagerState, t: Tree)
    requires
        held(s, t),
    ensures
        embeds(s, t),
        t.distinct(),
        t.owns(t.id()),
        forall|p: u64| #[trigger] t.owns(p) ==> s.in_range(p) && !spare(s).contains(p),
{
    reveal(held);
}

/// Whether all of `kids` are held, apart from each other.
pub open spec fn forest(s: PagerState, kids: Seq<Tree>) -> bool {
    &&& forall|i: int| 0 <= i < kids.len() ==> held(s, #[trigger] kids[i])
    &&& apart(kids)
}

/// Whether page `p` belongs to one of `kids`.
#[verifier::opaque]
pub open spec fn some_owns(kids: Seq<Tree>, p: u64) -> bool {
    exists|i: int| 0 <= i < kids.len() && (#[trigger] kids[i]).owns(p)
}

pub proof fn lemma_some_owns(kids: Seq<Tree>, i: int, p: u64)
    requires
        0 <= i < kids.len(),
        kids[i].owns(p),
    ensures
        some_owns(kids, p),
{
    reveal(some_owns);
}

pub proof fn lemma_owner(kids: Seq<Tree>, p: u64) -> (i: int)
    requires
        some_owns(kids, p),
    ensures
        0 <= i < kids.len(),
        kids[i].owns(p),
{
    reveal(some_owns);
    choose|i: int| 0 <= i < kids.len() && (#[trigger] kids[i]).owns(p)
}

/// A held tree stays held while other pages change, and none of its pages is
/// handed out.
pub proof fn lemma_held_kept(s: PagerState, s2: PagerState, n: int, t: Tree)
    requires
        evolves(s, s2, n),
        held(s, t),
    ensures
        held(s2, t),
        forall|p: u64| #[trigger] t.owns(p) ==> !taken(s, s2, p),
{
    reveal(held);
    assert forall|p: u64| #[trigger] t.owns(p) implies node_read(s2, p) == node_read(s, p)
        && s2.in_range(p) && !spare(s2).contains(p) && !taken(s, s2, p) by {
        lemma_in_use_kept(s, s2, n, p);
    }
    lemma_embeds_frame(s, s2, t);
}

pub proof fn lemma_forest_kept(s: PagerState, s2: PagerState, n: int, kids: Seq<Tree>)
    requires
        evolves(s, s2, n),
        forest(s, kids),
    ensures
        forest(s2, kids),
        forall|p: u64| #[trigger] some_owns(kids, p) ==> !taken(s, s2, p),
{
    assert forall|i: int| 0 <= i < kids.len() implies held(s2, #[trigger] kids[i]) by {
        lemma_held_kept(s, s2, n, kids[i]);
    }
    assert forall|p: u64| #[trigger] some_owns(kids, p) implies !taken(s, s2, p) by {
        let i = lemma_owner(kids, p);
        lemma_held_kept(s, s2, n, kids[i]);
    }
}

/// The subtrees of a held tree are a forest.
pub proof fn lemma_held_kids(s: PagerState, t: Tree)
    requires
        held(s, t),
    ensures
        forest(s, t.subtrees()),
        forall|p: u64|
            t.owns(p) <==> p == t.id() || #[trigger] some_owns(t.subtrees(), p),
        !some_owns(t.subtrees(), t.id()),
{
    reveal(held);
    reveal(some_owns);
    let kids = t.subtrees();
    assert(apart(kids)) by {
        reveal(apart);
    }
    assert forall|i: int| 0 <= i < kids.len() implies held(s, #[trigger] kids[i]) by {
        assert forall|p: u64| #[trigger] kids[i].owns(p) implies s.in_range(p) && !spare(
            s,
        ).contains(p) by {
            assert(t.owns(p));
        }
    }
}

/// A node that was written over a forest is a held tree.
pub proof fn lemma_held_node(s: PagerState, t: Tree)
    requires
        t is Leaf || t is Inner,
        forest(s, t.subtrees()),
        !some_owns(t.subtrees(), t.id()),
        node_read(s, t.id()) == NodeRead::Node(t.node()),
        s.in_range(t.id()),
        !spare(s).contains(t.id()),
    ensures
        held(s, t),
        forall|p: u64|
            t.owns(p) <==> p == t.id() || #[trigger] some_owns(t.subtrees(), p),
{
    reveal(held);
    reveal(some_owns);
    let kids = t.subtrees();
    if let Tree::Inner { id, .. } = t {
        assert forall|i: int| 0 <= i < kids.len() implies (#[trigger] kids[i]).distinct()
            && embeds(s, kids[i]) && !kids[i].owns(id) by {
            assert(held(s, kids[i]));
        }
    }
    assert forall|p: u64| #[trigger] t.owns(p) implies s.in_range(p) && !spare(s).contains(p) by {
        if p != t.id() {
            let i = choose|i: int| 0 <= i < kids.len() && (#[trigger] kids[i]).owns(p);
            assert(held(s, kids[i]));
        }
    }
}

// Sizes.

pub proof fn lemma_cells_inserted(a: NodeV, b: NodeV, i: int, c: nat, j: nat)
    requires
        0 <= i,
        j <= b.count(),
        forall|x: int| 0 <= x < i && x < j ==> #[trigger] b.cell(x) == a.cell(x),
        i < j ==> b.cell(i) == c,
        forall|x: int| i < x < j ==> #[trigger] b.cell(x) == a.cell(x - 1),
    ensures
        j <= i ==> b.cells(j) == a.cells(j),
        j > i ==> b.cells(j) == a.cells((j - 1) as nat) + c,
    decreases j,
{
    if j > 0 {
        lemma_cells_inserted(a, b, i, c, (j - 1) as nat);
        assert(b.cells(j) == b.cells((j - 1) as nat) + b.cell(j - 1));
        if j - 1 > i {
            assert(a.cells((j - 1) as nat) == a.cells((j - 2) as nat) + a.cell(j - 2));
        } else if j - 1 < i {
            assert(a.cells(j) == a.cells((j - 1) as nat) + a.cell(j - 1));
        }
    }
}

pub proof fn lemma_cells_updated(a: NodeV, b: NodeV, i: int, j: nat)
    requires
        0 <= i,
        j <= b.count(),
        forall|x: int| 0 <= x < j && x != i ==> #[trigger] b.cell(x) == a.cell(x),
    ensures
        j <= i ==> b.cells(j) == a.cells(j),
        j > i ==> b.cells(j) + a.cell(i) == a.cells(j) + b.cell(i),
    decreases j,
{
    if j > 0 {
        lemma_cells_updated(a, b, i, (j - 1) as nat);
        assert(b.cells(j) == b.cells((j - 1) as nat) + b.cell(j - 1));
        assert(a.cells(j) == a.cells((j - 1) as nat) + a.cell(j - 1));
    }
}

proof fn lemma_cells_at_least(n: NodeV, k: nat)
    requires
        k <= n.count(),
    ensures
        n.cells(k) >= 4 * k,
        forall|i: int| 0 <= i < k ==> n.cells(k) >= #[trigger] n.cell(i),
    decreases k,
{
    if k > 0 {
        lemma_cells_at_least(n, (k - 1) as nat);
    }
}

/// A node of a few pages' size can be encoded.
pub proof fn lemma_small_encodable(n: NodeV)
    requires
        n.fits_together(),
        n.size() < 0x1_0000,
        n matches NodeV::Internal { children, .. } ==> forall|i: int|
            0 <= i < children.len() ==> (#[trigger] children[i]).0 >= 2,
    ensures
        encodable(n),
{
    lemma_cells_at_least(n, n.count());
    assert forall|i: int| 0 <= i < n.count() implies (#[trigger] n.keys()[i]).len() < 0x1_0000 by {
        assert(n.cells(n.count()) >= n.cell(i));
    }
    if let NodeV::Leaf { keys, vals } = n {
        assert forall|i: int| 0 <= i < vals.len() implies (#[trigger] vals[i]).len()
            < 0x1_0000 by {
            assert(n.cells(n.count()) >= n.cell(i));
        }
    }
}

// A leaf with an entry put in or replaced.

/// The leaf `t` with `key` mapped to `val`.
pub open spec fn leaf_put(t: Tree, key: Seq<u8>, val: Seq<u8>) -> Tree {
    match t {
        Tree::Leaf { id, keys, vals } => {
            let i = lower_bound(keys, key);
            if i < keys.len() && keys[i] == key {
                Tree::Leaf { id, keys, vals: vals.update(i, val) }
            } else {
                Tree::Leaf { id, keys: keys.insert(i, key), vals: vals.insert(i, val) }
            }
        },
        _ => t,
    }
}

pub proof fn lemma_leaf_put(t: Tree, key: Seq<u8>, val: Seq<u8>, lo: Bound, hi: Bound)
    requires
        t is Leaf,
        good(t, 1, lo, hi),
        within(lo, key, hi),
        entry_fits(key, val),
    ensures
        good(leaf_put(t, key, val), 1, lo, hi),
        leaf_put(t, key, val).keys().len() >= 1,
        leaf_put(t, key, val).node().size() <= t.node().size() + 4 + key.len() + val.len(),
        forall|k: Seq<u8>| #[trigger]
            leaf_put(t, key, val).get(k) == if k == key {
                Some(val)
            } else {
                t.get(k)
            },
{
    let t2 = leaf_put(t, key, val);
    lemma_node_parts(t);
    lemma_node_parts(t2);
    if let Tree::Leaf { keys, vals, .. } = t {
        if let Tree::Leaf { keys: keys2, vals: vals2, .. } = t2 {
            let i = lower_bound(keys, key);
            lemma_lower_bound(keys, key);
            before_irreflexive(key);
            if i < keys.len() && keys[i] == key {
                assert forall|x: int| 0 <= x < keys2.len() implies entry_fits(
                    #[trigger] keys2[x],
                    vals2[x],
                ) by {
                    assert(entry_fits(keys[x], vals[x]));
                }
                lemma_cells_updated(t.node(), t2.node(), i, keys.len());
                assert forall|k: Seq<u8>| #[trigger] t2.get(k) == if k == key {
                    Some(val)
                } else {
                    t.get(k)
                } by {
                    if keys.contains(k) {
                        let x = keys.index_of(k);
                        lemma_leaf_value_at(t.node(), x);
                        lemma_leaf_value_at(t2.node(), x);
                        if k == key {
                            lemma_leaf_value_at(t2.node(), i);
                        } else if x == i {
                            assert(keys[x] == key);
                        }
                    } else {
                        assert(keys[i] == key);
                        assert(keys.contains(key));
                    }
                }
            } else {
                // No key is `key` itself.
                assert forall|x: int| 0 <= x < keys.len() implies keys[x] != key by {
                    if keys[x] == key {
                        if x < i {
                            assert(before(keys[x], key));
                        } else if x > i {
                            assert(before(keys[i], keys[x]));
                            assert(!before(keys[i], key));
                        }
                    }
                }
                assert forall|x: int, y: int| 0 <= x < y < keys2.len() implies before(
                    #[trigger] keys2[x],
                    #[trigger] keys2[y],
                ) by {
                    let xo = if x < i {
                        x
                    } else {
                        x - 1
                    };
                    let yo = if y < i {
                        y
                    } else {
                        y - 1
                    };
                    if y == i {
                        assert(keys2[x] == keys[x]);
                    } else if x == i {
                        assert(keys2[y] == keys[yo]);
                        assert(!before(keys[yo], key));
                        before_total(key, keys[yo]);
                    } else {
                        assert(keys2[x] == keys[xo] && keys2[y] == keys[yo]);
                    }
                }
                assert forall|x: int| 0 <= x < keys2.len() implies within(
                    lo,
                    #[trigger] keys2[x],
                    hi,
                ) && entry_fits(keys2[x], vals2[x]) by {
                    if x < i {
                        assert(within(lo, keys[x], hi) && entry_fits(keys[x], vals[x]));
                    } else if x > i {
                        assert(within(lo, keys[x - 1], hi) && entry_fits(keys[x - 1], vals[x - 1]));
                    }
                }
                lemma_cells_inserted(
                    t.node(),
                    t2.node(),
                    i,
                    4 + key.len() + val.len(),
                    keys2.len(),
                );
                assert forall|k: Seq<u8>| #[trigger] t2.get(k) == if k == key {
                    Some(val)
                } else {
                    t.get(k)
                } by {
                    if k == key {
                        assert(keys2[i] == key);
                        lemma_leaf_value_at(t2.node(), i);
                    } else if keys.contains(k) {
                        let x = keys.index_of(k);
                        let x2 = if x < i {
                            x
                        } else {
                            x + 1
                        };
                        assert(keys2[x2] == k);
                        lemma_leaf_value_at(t.node(), x);
                        lemma_leaf_value_at(t2.node(), x2);
                    } else if keys2.contains(k) {
                        let x2 = keys2.index_of(k);
                        let x = if x2 < i {
                            x2
                        } else {
                            x2 - 1
                        };
                        assert(keys[x] == k);
                    }
                }
            }
        }
    }
}

// An internal node with one subtree replaced.

/// `t` with subtree `i` replaced by `kid`.
pub open spec fn with_kid(t: Tree, i: int, kid: Tree) -> Tree {
    match t {
        Tree::Inner { id, keys, kids } => Tree::Inner { id, keys, kids: kids.update(i, kid) },
        _ => t,
    }
}

/// `t` with subtree `i` replaced by two, parted by `sep`.
pub open spec fn with_two(t: Tree, i: int, l: Tree, sep: Seq<u8>, r: Tree) -> Tree {
    match t {
        Tree::Inner { id, keys, kids } => Tree::Inner {
            id,
            keys: keys.insert(i, sep),
            kids: kids.update(i, l).insert(i + 1, r),
        },
        _ => t,
    }
}

pub proof fn lemma_with_kid(t: Tree, i: int, kid: Tree, h: nat, lo: Bound, hi: Bound)
    requires
        t is Inner,
        good(t, h, lo, hi),
        0 <= i < t.subtrees().len(),
        good(kid, (h - 1) as nat, kid_lo(lo, t.keys(), i), kid_hi(t.keys(), hi, i)),
        kid.keys().len() >= 1,
    ensures
        good(with_kid(t, i, kid), h, lo, hi),
        with_kid(t, i, kid).node().size() == t.node().size(),
        forall|k: Seq<u8>|
            within(lo, k, hi) ==> #[trigger] with_kid(t, i, kid).get(k) == if upper_bound(
                t.keys(),
                k,
            ) == i {
                kid.get(k)
            } else {
                t.get(k)
            },
{
    let t2 = with_kid(t, i, kid);
    lemma_node_parts(t);
    lemma_node_parts(t2);
    if let Tree::Inner { keys, kids, .. } = t {
        let kids2 = t2.subtrees();
        assert forall|x: int| 0 <= x < kids2.len() implies good(
            #[trigger] kids2[x],
            (h - 1) as nat,
            kid_lo(lo, keys, x),
            kid_hi(keys, hi, x),
        ) && kids2[x].keys().len() >= 1 by {
            if x != i {
                assert(kids2[x] == kids[x]);
            }
        }
        assert(t2.keys() == keys);
        lemma_cells_updated(t.node(), t2.node(), keys.len() as int, keys.len());
        assert forall|k: Seq<u8>| within(lo, k, hi) implies #[trigger] t2.get(k) == if upper_bound(
            keys,
            k,
        ) == i {
            kid.get(k)
        } else {
            t.get(k)
        } by {
            lemma_route_within(keys, lo, hi, k);
        }
    }
}

#[verifier::rlimit(60)]
pub proof fn lemma_with_two(
    t: Tree,
    i: int,
    l: Tree,
    sep: Seq<u8>,
    r: Tree,
    h: nat,
    lo: Bound,
    hi: Bound,
)
    requires
        t is Inner,
        good(t, h, lo, hi),
        0 <= i < t.subtrees().len(),
        good(l, (h - 1) as nat, kid_lo(lo, t.keys(), i), Some(sep)),
        good(r, (h - 1) as nat, Some(sep), kid_hi(t.keys(), hi, i)),
        within(kid_lo(lo, t.keys(), i), sep, kid_hi(t.keys(), hi, i)),
        key_fits(sep),
        l.keys().len() >= 1,
        r.keys().len() >= 1,
    ensures
        good(with_two(t, i, l, sep, r), h, lo, hi),
        with_two(t, i, l, sep, r).keys().len() >= 1,
        with_two(t, i, l, sep, r).node().size() == t.node().size() + 10 + sep.len(),
        forall|k: Seq<u8>|
            within(lo, k, hi) ==> #[trigger] with_two(t, i, l, sep, r).get(k) == if upper_bound(
                t.keys(),
                k,
            ) == i {
                if before(k, sep) {
                    l.get(k)
                } else {
                    r.get(k)
                }
            } else {
                t.get(k)
            },
{
    let t2 = with_two(t, i, l, sep, r);
    lemma_node_parts(t);
    lemma_node_parts(t2);
    if let Tree::Inner { keys, kids, .. } = t {
        let keys2 = t2.keys();
        let kids2 = t2.subtrees();
        // `sep` lies between its neighbours.
        if i > 0 {
            lemma_nonempty_between(l, (h - 1) as nat, Some(keys[i - 1]), Some(sep));
        }
        assert forall|x: int, y: int| 0 <= x < y < keys2.len() implies before(
            #[trigger] keys2[x],
            #[trigger] keys2[y],
        ) by {
            let xo = if x < i {
                x
            } else {
                x - 1
            };
            let yo = if y < i {
                y
            } else {
                y - 1
            };
            if y == i {
                assert(keys2[x] == keys[x]);
                if x < i - 1 {
                    before_transitive(keys[x], keys[i - 1], sep);
                }
            } else if x == i {
                assert(keys2[y] == keys[yo]);
                assert(before(sep, keys[i]));
                if yo > i {
                    before_transitive(sep, keys[i], keys[yo]);
                }
            } else {
                assert(keys2[x] == keys[xo] && keys2[y] == keys[yo]);
            }
        }
        assert forall|x: int| 0 <= x < keys2.len() implies within(lo, #[trigger] keys2[x], hi)
            && key_fits(keys2[x]) by {
            if x < i {
                assert(within(lo, keys[x], hi) && key_fits(keys[x]));
            } else if x > i {
                assert(within(lo, keys[x - 1], hi) && key_fits(keys[x - 1]));
            } else {
                if i > 0 {
                    assert(within(lo, keys[i - 1], hi));
                    if let Some(b) = lo {
                        not_before_transitive(sep, keys[i - 1], b);
                    }
                }
                if i < keys.len() {
                    assert(within(lo, keys[i], hi));
                    if let Some(b) = hi {
                        before_transitive(sep, keys[i], b);
                    }
                }
            }
        }
        assert forall|x: int| 0 <= x < kids2.len() implies good(
            #[trigger] kids2[x],
            (h - 1) as nat,
            kid_lo(lo, keys2, x),
            kid_hi(keys2, hi, x),
        ) && kids2[x].keys().len() >= 1 by {
            if x < i {
                assert(kids2[x] == kids[x]);
            } else if x > i + 1 {
                assert(kids2[x] == kids[x - 1]);
            }
        }
        lemma_cells_inserted(t.node(), t2.node(), i, 10 + sep.len(), keys2.len());
        assert forall|k: Seq<u8>| within(lo, k, hi) implies #[trigger] t2.get(k) == if upper_bound(
            keys,
            k,
        ) == i {
            if before(k, sep) {
                l.get(k)
            } else {
                r.get(k)
            }
        } else {
            t.get(k)
        } by {
            lemma_route_within(keys, lo, hi, k);
            let u = upper_bound(keys, k);
            let v = if u < i || (u == i && before(k, sep)) {
                u
            } else {
                u + 1
            };
            assert(within(kid_lo(lo, keys2, v), k, kid_hi(keys2, hi, v)));
            lemma_within_route(keys2, lo, hi, k, v);
        }
    }
}

// Part of a forest replaced.

/// `kids` with those from `a` to `b` replaced by `trees`.
pub open spec fn replaced(kids: Seq<Tree>, a: int, b: int, trees: Seq<Tree>) -> Seq<Tree> {
    kids.take(a) + trees + kids.skip(b)
}

pub proof fn lemma_concat_own(x: Seq<Tree>, y: Seq<Tree>, p: u64)
    ensures
        some_owns(x + y, p) <==> some_owns(x, p) || some_owns(y, p),
{
    let z = x + y;
    if some_owns(z, p) {
        let i = lemma_owner(z, p);
        if i < x.len() {
            lemma_some_owns(x, i, p);
        } else {
            lemma_some_owns(y, i - x.len(), p);
        }
    }
    if some_owns(x, p) {
        let i = lemma_owner(x, p);
        assert(z[i] == x[i]);
        lemma_some_owns(z, i, p);
    }
    if some_owns(y, p) {
        let i = lemma_owner(y, p);
        assert(z[x.len() + i] == y[i]);
        lemma_some_owns(z, x.len() + i, p);
    }
}

/// Which pages belong to the whole and which to the parts.
pub proof fn lemma_replaced_own(kids: Seq<Tree>, a: int, b: int, trees: Seq<Tree>, p: u64)
    requires
        0 <= a <= b <= kids.len(),
    ensures
        some_owns(kids, p) <==> some_owns(kids.take(a), p) || some_owns(kids.subrange(a, b), p)
            || some_owns(kids.skip(b), p),
        some_owns(replaced(kids, a, b, trees), p) <==> some_owns(kids.take(a), p) || some_owns(
            trees,
            p,
        ) || some_owns(kids.skip(b), p),
{
    let (x, y, z) = (kids.take(a), kids.subrange(a, b), kids.skip(b));
    assert(kids =~= x + y + z);
    lemma_concat_own(x, y, p);
    lemma_concat_own(x + y, z, p);
    lemma_concat_own(x, trees, p);
    lemma_concat_own(x + trees, z, p);
}

/// Two parts of a forest have no page in common.
pub proof fn lemma_parts_apart(kids: Seq<Tree>, a: int, b: int, p: u64)
    requires
        apart(kids),
        0 <= a <= b <= kids.len(),
    ensures
        some_owns(kids.subrange(a, b), p) ==> !some_owns(kids.take(a), p) && !some_owns(
            kids.skip(b),
            p,
        ),
        some_owns(kids.take(a), p) ==> !some_owns(kids.skip(b), p),
{
    let (x, y, z) = (kids.take(a), kids.subrange(a, b), kids.skip(b));
    if some_owns(y, p) {
        let i = lemma_owner(y, p);
        if some_owns(x, p) {
            let j = lemma_owner(x, p);
            lemma_apart(kids, a + i, j, p);
        }
        if some_owns(z, p) {
            let j = lemma_owner(z, p);
            lemma_apart(kids, a + i, b + j, p);
        }
    }
    if some_owns(x, p) && some_owns(z, p) {
        let i = lemma_owner(x, p);
        let j = lemma_owner(z, p);
        lemma_apart(kids, i, b + j, p);
    }
}

proof fn lemma_replaced_apart(
    kids: Seq<Tree>,
    a: int,
    b: int,
    trees: Seq<Tree>,
    i: int,
    j: int,
    p: u64,
)
    requires
        apart(kids),
        apart(trees),
        0 <= a <= b <= kids.len(),
        some_owns(trees, p) ==> !some_owns(kids.take(a), p) && !some_owns(kids.skip(b), p),
        0 <= i < replaced(kids, a, b, trees).len(),
        0 <= j < replaced(kids, a, b, trees).len(),
        i != j,
        replaced(kids, a, b, trees)[i].owns(p),
    ensures
        !replaced(kids, a, b, trees)[j].owns(p),
{
    let n = trees.len();
    let r = replaced(kids, a, b, trees);
    if r[j].owns(p) {
        let i_mid = a <= i < a + n;
        let j_mid = a <= j < a + n;
        if i_mid && j_mid {
            lemma_apart(trees, i - a, j - a, p);
        } else if !i_mid && !j_mid {
            let io = if i < a {
                i
            } else {
                i - n - a + b
            };
            let jo = if j < a {
                j
            } else {
                j - n - a + b
            };
            assert(r[i] == kids[io] && r[j] == kids[jo]);
            lemma_apart(kids, io, jo, p);
        } else {
            let (m, o) = if i_mid {
                (i, j)
            } else {
                (j, i)
            };
            assert(r[m] == trees[m - a]);
            lemma_some_owns(trees, m - a, p);
            if o < a {
                assert(r[o] == kids.take(a)[o]);
                lemma_some_owns(kids.take(a), o, p);
            } else {
                assert(r[o] == kids.skip(b)[o - a - n]);
                lemma_some_owns(kids.skip(b), o - a - n, p);
            }
        }
    }
}

/// A forest in which some trees are replaced by others, made of their pages and
/// of fresh ones, is a forest.
pub proof fn lemma_replaced_forest(
    s: PagerState,
    s2: PagerState,
    n: int,
    kids: Seq<Tree>,
    a: int,
    b: int,
    trees: Seq<Tree>,
)
    requires
        evolves(s, s2, n),
        0 <= a <= b <= kids.len(),
        apart(kids),
        forall|i: int| 0 <= i < a || b <= i < kids.len() ==> held(s, #[trigger] kids[i]),
        forest(s2, trees),
        forall|p: u64| #[trigger]
            some_owns(trees, p) ==> some_owns(kids.subrange(a, b), p) || taken(s, s2, p),
    ensures
        forest(s2, replaced(kids, a, b, trees)),
        forall|p: u64|
            some_owns(kids.take(a), p) || some_owns(kids.skip(b), p) ==> !#[trigger] taken(s, s2, p),
{
    let r = replaced(kids, a, b, trees);
    assert forall|p: u64|
        some_owns(kids.take(a), p) || some_owns(kids.skip(b), p) implies !#[trigger] taken(
        s,
        s2,
        p,
    ) by {
        if some_owns(kids.take(a), p) {
            let i = lemma_owner(kids.take(a), p);
            lemma_held_kept(s, s2, n, kids[i]);
        } else {
            let i = lemma_owner(kids.skip(b), p);
            lemma_held_kept(s, s2, n, kids[b + i]);
        }
    }
    assert forall|i: int| 0 <= i < r.len() implies held(s2, #[trigger] r[i]) by {
        if i < a {
            lemma_held_kept(s, s2, n, kids[i]);
        } else if i < a + trees.len() {
            assert(r[i] == trees[i - a]);
        } else {
            assert(r[i] == kids[i - a - trees.len() + b]);
            lemma_held_kept(s, s2, n, kids[i - a - trees.len() + b]);
        }
    }
    assert(apart(r)) by {
        assert forall|i: int, j: int, p: u64|
            0 <= i < r.len() && 0 <= j < r.len() && i != j && #[trigger] r[i].owns(p)
                implies !#[trigger] r[j].owns(p) by {
            if some_owns(trees, p) {
                lemma_parts_apart(kids, a, b, p);
            }
            lemma_replaced_apart(kids, a, b, trees, i, j, p);
        }
        reveal(apart);
    }
}

} // verus!
