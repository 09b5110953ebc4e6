//! Insertion: the touched path is copied, and an overfull node is parted into
//! two on the way up.

use vstd::prelude::*;
use crate::bytes::{bytes_eq, to_vec};
use crate::common::io::IoBackend;
use crate::order::{before, find_lower, find_upper, lemma_upper_bound, strings, upper_bound};
use crate::pager::state::{PagerState, MAX_PAGES};
use crate::pager::{PageId, Pager, PagerError, FIRST_DATA_PAGE};
use super::error::{BTreeError, Result};
use super::grow::{
    forest, held, leaf_put, lemma_held, lemma_forest_kept, lemma_held_kept, lemma_held_kids,
    lemma_held_node, lemma_leaf_put, lemma_owner, lemma_parts_apart, lemma_replaced_forest,
    lemma_replaced_own, lemma_some_owns, replaced, lemma_small_encodable, lemma_with_kid,
    lemma_with_two, some_owns, with_kid, with_two,
};
use super::model::{
    apart, btree, entry_fits, good, is_tree, key_fits, kid_hi, kid_ids, kid_lo, lemma_apart,
    lemma_good_height, lemma_read_node_ok, lemma_route_within, node_read, rooted, tree_at,
    tree_is_unique, within, Bound, Found, NodeRead, Tree,
};
use super::node::{Node, NodeV, CAP, MAX_CELL, MIN_FILL};
use super::parts::{lemma_node_parts, lemma_part_good, lemma_parted_get, lemma_split, parted};
use super::store::{
    evolves, evolves_reflexive, evolves_transitive, handed, lemma_evolves_bounds, lemma_in_use_kept,
    lemma_stored, read_node, refused, spare, taken, usable, write_node,
};
use super::tree::{ready, Edit};

verus! {

/// Outcome of a recursive insert into a subtree.
pub enum Ins {
    /// Subtree rebuilt under a single new root page, no split.
    Updated(PageId, Ghost<Tree>),
    /// Subtree split; `(left, separator, right)` to install in the parent.
    Split(PageId, Vec<u8>, PageId, Ghost<Tree>, Ghost<Tree>),
}

/// Two trees side by side.
pub open spec fn pair(l: Tree, r: Tree) -> Seq<Tree> {
    seq![l, r]
}

impl Ins {
    /// The subtrees that replace the one inserted into.
    pub open spec fn trees(self) -> Seq<Tree> {
        match self {
            Ins::Updated(_, t) => seq![t@],
            Ins::Split(_, _, _, l, r) => pair(l@, r@),
        }
    }

    /// The separator to install, where there is one.
    pub open spec fn sep(self) -> Option<Seq<u8>> {
        match self {
            Ins::Updated(..) => None,
            Ins::Split(_, sep, _, _, _) => Some(sep@),
        }
    }

    /// What the replacement maps `k` to.
    pub open spec fn get(self, k: Seq<u8>) -> Option<Seq<u8>> {
        match self {
            Ins::Updated(_, t) => t@.get(k),
            Ins::Split(_, sep, _, l, r) => if before(k, sep@) {
                l@.get(k)
            } else {
                r@.get(k)
            },
        }
    }

    /// Whether the replacement is well formed within `[lo, hi)`.
    pub open spec fn ok(self, s: PagerState, h: nat, lo: Bound, hi: Bound) -> bool {
        &&& forest(s, self.trees())
        &&& match self {
            Ins::Updated(id, t) => {
                &&& t@.id() == id.0
                &&& good(t@, h, lo, hi)
                &&& t@.keys().len() >= 1
            },
            Ins::Split(lid, sep, rid, l, r) => {
                &&& l@.id() == lid.0
                &&& r@.id() == rid.0
                &&& good(l@, h, lo, Some(sep@))
                &&& good(r@, h, Some(sep@), hi)
                &&& within(lo, sep@, hi)
                &&& key_fits(sep@)
                &&& l@.keys().len() >= 1
                &&& r@.keys().len() >= 1
            },
        }
    }
}

/// Whether `e` is what a mutation fails with that comes to a page which does not read, `f`
/// being what a search for its key comes to.
pub open spec fn stops_at(f: Found, fault_free: bool, e: BTreeError) -> bool {
    match e {
        BTreeError::Pager(PagerError::Io(_)) => !fault_free || f == Found::Stuck(
            NodeRead::Unbacked,
        ),
        e => f == Found::Stuck(NodeRead::Fault(e)),
    }
}

/// Whether a pager can take `n` more pages.
pub open spec fn roomy(s: PagerState, n: int) -> bool {
    FIRST_DATA_PAGE <= s.meta.page_count && s.meta.page_count + n <= MAX_PAGES
}

/// `t` with its root on page `id`.
pub open spec fn moved(t: Tree, id: u64) -> Tree {
    match t {
        Tree::Leaf { keys, vals, .. } => Tree::Leaf { id, keys, vals },
        Tree::Inner { keys, kids, .. } => Tree::Inner { id, keys, kids },
        Tree::Bad { why, .. } => Tree::Bad { id, why },
    }
}

/// Where a root lies makes no difference to what a tree is.
pub proof fn lemma_moved(t: Tree, id: u64, h: nat, lo: Bound, hi: Bound)
    ensures
        good(t, h, lo, hi) == good(moved(t, id), h, lo, hi),
        moved(t, id).node() == t.node(),
        moved(t, id).subtrees() == t.subtrees(),
        forall|k: Seq<u8>| #[trigger] moved(t, id).get(k) == t.get(k),
{
}

/// The left part of a split of `t`'s root at `m`, on page `id`.
spec fn left_tree(t: Tree, m: int, id: u64) -> Tree {
    match t {
        Tree::Leaf { keys, vals, .. } => Tree::Leaf { id, keys: keys.take(m), vals: vals.take(m) },
        Tree::Inner { keys, kids, .. } => Tree::Inner {
            id,
            keys: keys.take(m),
            kids: kids.take(m + 1),
        },
        _ => t,
    }
}

/// The right part.
spec fn right_tree(t: Tree, m: int, id: u64) -> Tree {
    match t {
        Tree::Leaf { keys, vals, .. } => Tree::Leaf { id, keys: keys.skip(m), vals: vals.skip(m) },
        Tree::Inner { keys, kids, .. } => Tree::Inner {
            id,
            keys: keys.skip(m + 1),
            kids: kids.skip(m + 1),
        },
        _ => t,
    }
}

proof fn lemma_split_tree(t: Tree, m: int, lid: u64, rid: u64, h: nat, lo: Bound, hi: Bound)
    requires
        good(t, h, lo, hi),
        1 <= m < t.keys().len(),
    ensures
        parted(t, left_tree(t, m, lid), t.keys()[m], right_tree(t, m, rid)),
        left_tree(t, m, lid).node() == t.node().left_of(m),
        right_tree(t, m, rid).node() == t.node().right_of(m),
        within(lo, t.keys()[m], hi),
        key_fits(t.keys()[m]),
{
    lemma_node_parts(t);
    let l = left_tree(t, m, lid);
    let r = right_tree(t, m, rid);
    match t {
        Tree::Leaf { keys, vals, .. } => {
            assert(keys =~= keys.take(m) + keys.skip(m));
            assert(vals =~= vals.take(m) + vals.skip(m));
            assert forall|i: int| 0 <= i < keys.take(m).len() implies before(
                #[trigger] keys.take(m)[i],
                keys[m],
            ) by {
                assert(before(keys[i], keys[m]));
            }
            assert forall|i: int| 0 <= i < keys.skip(m).len() implies !before(
                #[trigger] keys.skip(m)[i],
                keys[m],
            ) by {
                crate::order::before_irreflexive(keys[m]);
                if i > 0 {
                    assert(before(keys[m], keys[m + i]));
                    crate::order::before_antisymmetric(keys[m], keys[m + i]);
                }
            }
            assert(entry_fits(keys[m], vals[m]));
        },
        Tree::Inner { keys, kids, .. } => {
            assert(keys =~= keys.take(m).push(keys[m]) + keys.skip(m + 1));
            assert(kids =~= kids.take(m + 1) + kids.skip(m + 1));
            assert(kid_ids(kids.take(m + 1)) =~= kid_ids(kids).take(m + 1));
            assert(kid_ids(kids.skip(m + 1)) =~= kid_ids(kids).skip(m + 1));
        },
        _ => {},
    }
    assert(l.node() =~= t.node().left_of(m));
    assert(r.node() =~= t.node().right_of(m));
}

proof fn lemma_subapart(kids: Seq<Tree>, a: int, b: int, i: int, j: int, p: u64)
    requires
        apart(kids),
        0 <= a <= b <= kids.len(),
        0 <= i < b - a,
        0 <= j < b - a,
        i != j,
        kids.subrange(a, b)[i].owns(p),
    ensures
        !kids.subrange(a, b)[j].owns(p),
{
    assert(kids.subrange(a, b)[i] == kids[a + i]);
    assert(kids.subrange(a, b)[j] == kids[a + j]);
    lemma_apart(kids, a + i, a + j, p);
}

proof fn lemma_subforest(s: PagerState, kids: Seq<Tree>, a: int, b: int)
    requires
        forest(s, kids),
        0 <= a <= b <= kids.len(),
    ensures
        forest(s, kids.subrange(a, b)),
        forall|p: u64| #[trigger] some_owns(kids.subrange(a, b), p) ==> some_owns(kids, p),
{
    let sub = kids.subrange(a, b);
    assert forall|i: int| 0 <= i < sub.len() implies held(s, #[trigger] sub[i]) by {
        assert(sub[i] == kids[a + i]);
    }
    assert(apart(sub)) by {
        reveal(apart);
        assert forall|i: int, j: int, p: u64|
            0 <= i < sub.len() && 0 <= j < sub.len() && i != j
                && #[trigger] sub[i].owns(p) implies !#[trigger] sub[j].owns(p) by {
            lemma_subapart(kids, a, b, i, j, p);
        }
    }
    assert forall|p: u64| #[trigger] some_owns(sub, p) implies some_owns(kids, p) by {
        let i = lemma_owner(sub, p);
        lemma_some_owns(kids, a + i, p);
    }
}

pub proof fn lemma_kid_ids_ok(s: PagerState, kids: Seq<Tree>)
    requires
        forest(s, kids),
    ensures
        forall|i: int| 0 <= i < kids.len() ==> (#[trigger] kid_ids(kids)[i]).0 >= FIRST_DATA_PAGE,
{
    assert forall|i: int| 0 <= i < kids.len() implies (#[trigger] kid_ids(kids)[i]).0
        >= FIRST_DATA_PAGE by {
        lemma_held(s, kids[i]);
    }
}

/// Both parts of a split, written one after the other, are held and apart.
proof fn lemma_split_written(
    s: PagerState,
    s1: PagerState,
    s2: PagerState,
    t: Tree,
    m: int,
    lid: u64,
    rid: u64,
)
    requires
        usable(s),
        t is Leaf || t is Inner,
        t matches Tree::Inner { keys, kids, .. } ==> kids.len() == keys.len() + 1,
        1 <= m < t.keys().len(),
        forest(s, t.subtrees()),
        evolves(s, s1, 1),
        evolves(s1, s2, 1),
        forall|p: u64| #[trigger] taken(s, s1, p) <==> p == lid,
        forall|p: u64| #[trigger] taken(s1, s2, p) <==> p == rid,
        s1.in_range(lid),
        !spare(s1).contains(lid),
        s2.in_range(rid),
        !spare(s2).contains(rid),
        node_read(s1, lid) == NodeRead::Node(left_tree(t, m, lid).node()),
        node_read(s2, rid) == NodeRead::Node(right_tree(t, m, rid).node()),
    ensures
        forest(s2, pair(left_tree(t, m, lid), right_tree(t, m, rid))),
        forall|p: u64| #[trigger]
            some_owns(pair(left_tree(t, m, lid), right_tree(t, m, rid)), p) <==> some_owns(
                t.subtrees(),
                p,
            ) || taken(s, s2, p),
{
    let kids = t.subtrees();
    let l = left_tree(t, m, lid);
    let r = right_tree(t, m, rid);
    let (lk, rk) = (l.subtrees(), r.subtrees());
    if t is Inner {
        assert(kids.take(m + 1) =~= kids.subrange(0, m + 1));
        assert(kids.skip(m + 1) =~= kids.subrange(m + 1, kids.len() as int));
        lemma_subforest(s, kids, 0, m + 1);
        lemma_subforest(s, kids, m + 1, kids.len() as int);
    }
    evolves_transitive(s, s1, s2, 1, 1);
    assert(taken(s, s1, lid) && taken(s1, s2, rid));
    assert(taken(s, s2, lid) && taken(s, s2, rid));
    lemma_in_use_kept(s1, s2, 1, lid);
    lemma_half_held(s, s2, 2, l);
    lemma_half_held(s, s2, 2, r);
    lemma_forest_kept(s, s2, 2, kids);
    let ts = pair(l, r);
    assert(apart(ts)) by {
        assert forall|p: u64| #[trigger] l.owns(p) implies !r.owns(p) by {
            lemma_halves_apart(kids, lk, rk, m, lid, rid, p);
        }
        reveal(apart);
    }
    assert forall|p: u64| #[trigger] some_owns(ts, p) <==> some_owns(kids, p) || taken(
        s,
        s2,
        p,
    ) by {
        lemma_two_own(l, r, p);
        lemma_halves_own(kids, lk, rk, m, p);
        assert(taken(s, s2, p) <==> taken(s, s1, p) || taken(s1, s2, p));
    }
}

/// A node written to a fresh page over a forest is held.
pub proof fn lemma_half_held(s: PagerState, s2: PagerState, n: int, t: Tree)
    requires
        t is Leaf || t is Inner,
        forest(s, t.subtrees()),
        evolves(s, s2, n),
        taken(s, s2, t.id()),
        node_read(s2, t.id()) == NodeRead::Node(t.node()),
        s2.in_range(t.id()),
        !spare(s2).contains(t.id()),
    ensures
        held(s2, t),
        forall|p: u64| #[trigger] t.owns(p) <==> p == t.id() || some_owns(t.subtrees(), p),
{
    lemma_forest_kept(s, s2, n, t.subtrees());
    lemma_held_node(s2, t);
}

/// The subtrees of both halves are those of the whole.
proof fn lemma_halves_own(kids: Seq<Tree>, lk: Seq<Tree>, rk: Seq<Tree>, m: int, p: u64)
    requires
        kids.len() == 0 && lk.len() == 0 && rk.len() == 0 || (0 <= m < kids.len() && lk
            == kids.take(m + 1) && rk == kids.skip(m + 1)),
    ensures
        some_owns(kids, p) <==> some_owns(lk, p) || some_owns(rk, p),
{
    if some_owns(kids, p) {
        let i = lemma_owner(kids, p);
        if i <= m {
            lemma_some_owns(lk, i, p);
        } else {
            lemma_some_owns(rk, i - m - 1, p);
        }
    }
    if some_owns(lk, p) {
        let i = lemma_owner(lk, p);
        lemma_some_owns(kids, i, p);
    }
    if some_owns(rk, p) {
        let i = lemma_owner(rk, p);
        lemma_some_owns(kids, m + 1 + i, p);
    }
}

/// No page is in both halves.
proof fn lemma_halves_apart(
    kids: Seq<Tree>,
    lk: Seq<Tree>,
    rk: Seq<Tree>,
    m: int,
    lid: u64,
    rid: u64,
    p: u64,
)
    requires
        apart(kids),
        kids.len() == 0 && lk.len() == 0 && rk.len() == 0 || (0 <= m < kids.len() && lk
            == kids.take(m + 1) && rk == kids.skip(m + 1)),
        lid != rid,
        !some_owns(kids, lid),
        !some_owns(kids, rid),
        p == lid || some_owns(lk, p),
    ensures
        p != rid,
        !some_owns(rk, p),
{
    lemma_halves_own(kids, lk, rk, m, p);
    if some_owns(lk, p) && some_owns(rk, p) {
        let i = lemma_owner(lk, p);
        let j = lemma_owner(rk, p);
        lemma_apart(kids, i, m + 1 + j, p);
    }
}

pub proof fn lemma_two_own(l: Tree, r: Tree, p: u64)
    ensures
        some_owns(pair(l, r), p) <==> l.owns(p) || r.owns(p),
{
    let ts = pair(l, r);
    assert(ts[0] == l && ts[1] == r);
    reveal(some_owns);
    if l.owns(p) {
        assert(ts[0].owns(p));
    }
    if r.owns(p) {
        assert(ts[1].owns(p));
    }
}

/// Write a (possibly overfull) node over its subtrees, parting it in two if it
/// does not fit. `t` is the tree it would be the root of.
pub fn write_balanced<B: IoBackend>(
    pager: &mut Pager<B>,
    node: Node,
    Ghost(t): Ghost<Tree>,
    Ghost(h): Ghost<nat>,
    Ghost(lo): Ghost<Bound>,
    Ghost(hi): Ghost<Bound>,
) -> (r: Result<Ins>)
    requires
        old(pager).wf(),
        usable(old(pager).state()),
        roomy(old(pager).state(), 2),
        node@ == t.node(),
        t is Leaf || t is Inner,
        good(t, h, lo, hi),
        t.keys().len() >= 1,
        t.node().size() <= CAP + MAX_CELL + (if t is Inner {
            MIN_FILL as int
        } else {
            0
        }),
        forest(old(pager).state(), t.subtrees()),
    ensures
        final(pager).wf(),
        old(pager).fault_free() ==> final(pager).fault_free(),
        evolves(old(pager).state(), final(pager).state(), 2),
        usable(final(pager).state()),
        match r {
            Ok(ins) => {
                &&& ins.ok(final(pager).state(), h, lo, hi)
                &&& ins is Split <==> t.node().size() > CAP
                &&& ins matches Ins::Split(_, sep, _, _, _) ==> sep@
                    == t.keys()[t.node().split_point()]
                &&& ins matches Ins::Updated(_, g) ==> g@.node() == t.node()
                &&& handed(old(pager).state(), final(pager).state()) == if ins is Split {
                    2int
                } else {
                    1int
                }
                &&& forall|k: Seq<u8>| #[trigger] ins.get(k) == t.get(k)
                &&& forall|p: u64| #[trigger]
                    some_owns(ins.trees(), p) <==> some_owns(t.subtrees(), p) || taken(
                        old(pager).state(),
                        final(pager).state(),
                        p,
                    )
                &&& old(pager).state().free_list() is Done
            },
            Err(e) => refused(old(pager).state().free_list(), old(pager).fault_free(), e),
        },
{
    let ghost s = pager.state();
    let ghost kids = t.subtrees();
    proof {
        lemma_node_parts(t);
        lemma_kid_ids_ok(s, kids);
        lemma_small_encodable(t.node());
        evolves_reflexive(s);
    }
    if node.is_overfull() {
        proof {
            lemma_split(t.node());
        }
        let ghost m = t.node().split_point();
        let (left, sep, right) = node.split();
        proof {
            lemma_split_tree(t, m, 0, 0, h, lo, hi);
            let l = left_tree(t, m, 0);
            let r = right_tree(t, m, 0);
            lemma_part_good(t, l, sep@, r, h, lo, hi);
            lemma_node_parts(l);
            lemma_node_parts(r);
            if t is Inner {
                assert(kids.take(m + 1) =~= kids.subrange(0, m + 1));
                assert(kids.skip(m + 1) =~= kids.subrange(m + 1, kids.len() as int));
                lemma_subforest(s, kids, 0, m + 1);
                lemma_subforest(s, kids, m + 1, kids.len() as int);
            }
            lemma_kid_ids_ok(s, l.subtrees());
            lemma_kid_ids_ok(s, r.subtrees());
            lemma_small_encodable(left@);
            lemma_small_encodable(right@);
        }
        let first = write_node(pager, &left);
        let ghost s1 = pager.state();
        proof {
            lemma_stored(s, old(pager).fault_free(), left@, first, s1);
            lemma_evolves_bounds(s, s1, 1);
        }
        let lid = match first {
            Ok(id) => id,
            Err(e) => {
                return Err(e);
            },
        };
        let ghost ff1 = pager.fault_free();
        let second = write_node(pager, &right);
        let ghost s2 = pager.state();
        proof {
            lemma_stored(s1, ff1, right@, second, s2);
            evolves_transitive(s, s1, s2, 1, 1);
        }
        let rid = match second {
            Ok(id) => id,
            Err(e) => {
                return Err(e);
            },
        };
        let ghost l = left_tree(t, m, lid.0);
        let ghost r = right_tree(t, m, rid.0);
        proof {
            lemma_split_tree(t, m, lid.0, rid.0, h, lo, hi);
            lemma_part_good(t, l, sep@, r, h, lo, hi);
            lemma_split_written(s, s1, s2, t, m, lid.0, rid.0);
            assert forall|k: Seq<u8>| (if before(k, sep@) {
                l.get(k)
            } else {
                r.get(k)
            }) == #[trigger] t.get(k) by {
                lemma_parted_get(t, l, sep@, r, k);
            }
        }
        Ok(Ins::Split(lid, sep, rid, Ghost(l), Ghost(r)))
    } else {
        let res = write_node(pager, &node);
        let ghost s1 = pager.state();
        proof {
            lemma_stored(s, old(pager).fault_free(), node@, res, s1);
            lemma_evolves_bounds(s, s1, 1);
        }
        match res {
            Ok(id) => {
                let ghost t2 = moved(t, id.0);
                proof {
                    lemma_moved(t, id.0, h, lo, hi);
                    lemma_forest_kept(s, s1, 1, kids);
                    assert(taken(s, s1, id.0));
                    lemma_held_node(s1, t2);
                    let ts = seq![t2];
                    assert(apart(ts)) by {
                        reveal(apart);
                    }
                    assert(forest(s1, ts));
                    assert forall|p: u64| #[trigger] some_owns(ts, p) <==> some_owns(kids, p)
                        || taken(s, s1, p) by {
                        reveal(some_owns);
                        assert(ts[0].owns(p) <==> p == id.0 || some_owns(kids, p));
                    }
                }
                Ok(Ins::Updated(id, Ghost(t2)))
            },
            Err(e) => Err(e),
        }
    }
}

// Keeping account of pages.

/// Whether page `p` is listed in `freed`.
pub open spec fn lists(freed: Seq<PageId>, p: u64) -> bool {
    freed.contains(PageId(p))
}

/// Whether the pages listed so far are in use, each once, and none of them a
/// page of `t`.
pub open spec fn freed_ok(s: PagerState, t: Tree, freed: Seq<PageId>) -> bool {
    &&& freed.no_duplicates()
    &&& forall|p: u64| #[trigger]
        lists(freed, p) ==> s.in_range(p) && !spare(s).contains(p) && !t.owns(p)
}

/// Whether no page was lost or kept twice when `t` became `trees`: what was in
/// use or handed out is now in use or listed, and never both.
pub open spec fn accounted(
    s: PagerState,
    s2: PagerState,
    t: Tree,
    before_list: Seq<PageId>,
    freed: Seq<PageId>,
    trees: Seq<Tree>,
) -> bool {
    &&& freed.no_duplicates()
    &&& before_list.is_prefix_of(freed)
    &&& forall|p: u64|
        #![trigger lists(freed, p)]
        #![trigger some_owns(trees, p)]
        lists(freed, p) || some_owns(trees, p) <==> t.owns(p) || lists(before_list, p) || taken(
            s,
            s2,
            p,
        )
    &&& forall|p: u64| #[trigger] some_owns(trees, p) ==> !lists(freed, p)
}

pub proof fn lemma_lists_push(freed: Seq<PageId>, id: PageId)
    ensures
        forall|p: u64| #[trigger] lists(freed.push(id), p) <==> lists(freed, p) || p == id.0,
        freed.no_duplicates() && !lists(freed, id.0) ==> freed.push(id).no_duplicates(),
        freed.is_prefix_of(freed.push(id)),
{
    let f2 = freed.push(id);
    assert forall|p: u64| #[trigger] lists(f2, p) <==> lists(freed, p) || p == id.0 by {
        if lists(f2, p) {
            let i = f2.index_of(PageId(p));
            if i < freed.len() {
                assert(freed[i] == PageId(p));
            }
        }
        if lists(freed, p) {
            let i = freed.index_of(PageId(p));
            assert(f2[i] == PageId(p));
        }
        assert(f2[freed.len() as int] == id);
    }
    assert(freed =~= f2.subrange(0, freed.len() as int));
    if freed.no_duplicates() && !lists(freed, id.0) {
        assert forall|i: int, j: int| 0 <= i < f2.len() && 0 <= j < f2.len() && i != j implies f2[i]
            != f2[j] by {
            if i == freed.len() {
                if f2[j] == id {
                    assert(freed[j] == PageId(id.0));
                }
            } else if j == freed.len() {
                if f2[i] == id {
                    assert(freed[i] == PageId(id.0));
                }
            }
        }
    }
}

pub proof fn lemma_lists_prefix(a: Seq<PageId>, b: Seq<PageId>, p: u64)
    requires
        a.is_prefix_of(b),
        lists(a, p),
    ensures
        lists(b, p),
{
    let i = a.index_of(PageId(p));
    assert(b[i] == PageId(p));
}

/// The account after subtree `i` of `t` was replaced and the root written anew.
pub proof fn lemma_account_up(
    s: PagerState,
    s1: PagerState,
    s2: PagerState,
    n1: int,
    n2: int,
    t: Tree,
    i: int,
    trees: Seq<Tree>,
    up: Seq<Tree>,
    list0: Seq<PageId>,
    list2: Seq<PageId>,
)
    requires
        usable(s),
        held(s, t),
        t is Inner,
        0 <= i < t.subtrees().len(),
        evolves(s, s1, n1),
        evolves(s1, s2, n2),
        freed_ok(s, t, list0),
        accounted(s, s1, t.subtrees()[i], list0.push(PageId(t.id())), list2, trees),
        forest(s1, trees),
        forall|p: u64| #[trigger]
            some_owns(up, p) <==> some_owns(
                replaced(t.subtrees(), i, i + 1, trees),
                p,
            ) || taken(s1, s2, p),
    ensures
        accounted(s, s2, t, list0, list2, up),
{
    let kids = t.subtrees();
    let kid = kids[i];
    let list1 = list0.push(PageId(t.id()));
    lemma_held_kids(s, t);
    lemma_lists_push(list0, PageId(t.id()));
    evolves_transitive(s, s1, s2, n1, n2);
    let mid = kids.subrange(i, i + 1);
    assert forall|p: u64| some_owns(mid, p) <==> kid.owns(p) by {
        if some_owns(mid, p) {
            let j = lemma_owner(mid, p);
            assert(mid[j] == kid);
        }
        if kid.owns(p) {
            assert(mid[0] == kid);
            lemma_some_owns(mid, 0, p);
        }
    }
    assert(list0.is_prefix_of(list2)) by {
        assert(list0 =~= list2.subrange(0, list0.len() as int));
    }
    assert forall|p: u64| #[trigger] some_owns(trees, p) implies some_owns(mid, p) || taken(
        s,
        s1,
        p,
    ) by {
        if lists(list1, p) {
            lemma_lists_prefix(list1, list2, p);
        }
    }
    lemma_replaced_forest(s, s1, n1, kids, i, i + 1, trees);
    assert forall|p: u64|
        #![trigger lists(list2, p)]
        #![trigger some_owns(up, p)]
        (lists(list2, p) || some_owns(up, p) <==> t.owns(p) || lists(list0, p) || taken(s, s2, p))
            && (some_owns(up, p) ==> !lists(list2, p)) by {
        lemma_replaced_own(kids, i, i + 1, trees, p);
        lemma_parts_apart(kids, i, i + 1, p);
        assert(taken(s, s2, p) <==> taken(s, s1, p) || taken(s1, s2, p));
        assert(t.owns(p) <==> p == t.id() || some_owns(kids, p));
        assert(lists(list1, p) <==> lists(list0, p) || p == t.id());
        assert(some_owns(trees, p) ==> !lists(list2, p));
        if t.owns(p) {
            lemma_held_kept(s, s2, n1 + n2, t);
        }
        if lists(list0, p) {
            lemma_in_use_kept(s, s2, n1 + n2, p);
        }
        assert(taken(s, s1, p) ==> !taken(s1, s2, p));
    }
}

/// The account after a leaf was written anew.
pub proof fn lemma_account_leaf(
    s: PagerState,
    s2: PagerState,
    t: Tree,
    id: PageId,
    list0: Seq<PageId>,
    trees: Seq<Tree>,
)
    requires
        t is Leaf,
        t.id() == id.0,
        held(s, t),
        evolves(s, s2, 2),
        freed_ok(s, t, list0),
        forall|p: u64| #[trigger] some_owns(trees, p) <==> taken(s, s2, p),
    ensures
        accounted(s, s2, t, list0, list0.push(id), trees),
{
    let list = list0.push(id);
    lemma_lists_push(list0, id);
    lemma_held(s, t);
    assert forall|p: u64|
        #![trigger lists(list, p)]
        #![trigger some_owns(trees, p)]
        (lists(list, p) || some_owns(trees, p) <==> t.owns(p) || lists(list0, p) || taken(s, s2, p))
            && (some_owns(trees, p) ==> !lists(list, p)) by {
        assert(lists(list, p) <==> lists(list0, p) || p == id.0);
        if lists(list, p) {
            lemma_in_use_kept(s, s2, 2, p);
        }
    }
}

/// What is listed before a subtree is entered is no page of the subtree.
pub proof fn lemma_freed_below(s: PagerState, t: Tree, i: int, list0: Seq<PageId>)
    requires
        t is Inner,
        held(s, t),
        0 <= i < t.subtrees().len(),
        freed_ok(s, t, list0),
    ensures
        freed_ok(s, t.subtrees()[i], list0.push(PageId(t.id()))),
        held(s, t.subtrees()[i]),
{
    let kids = t.subtrees();
    let kid = kids[i];
    let list = list0.push(PageId(t.id()));
    lemma_lists_push(list0, PageId(t.id()));
    lemma_held_kids(s, t);
    lemma_held(s, t);
    assert forall|p: u64| #[trigger] lists(list, p) implies s.in_range(p) && !spare(s).contains(p)
        && !kid.owns(p) by {
        if kid.owns(p) {
            lemma_some_owns(kids, i, p);
            assert(some_owns(kids, p));
        }
    }
}

// Which nodes an insertion parts, and how many pages it takes.

/// The separator that parts `n` where it does not fit a page.
pub open spec fn parting(n: NodeV) -> Option<Seq<u8>> {
    if n.size() > CAP {
        Some(n.keys()[n.split_point()])
    } else {
        None
    }
}

/// An internal node of the separators `keys`, whatever its children are.
pub open spec fn inner_of(keys: Seq<Seq<u8>>) -> NodeV {
    NodeV::Internal { keys, children: Seq::new(keys.len() + 1, |i: int| PageId(0)) }
}

/// The separator that inserting an entry pushes up out of `t`, where it parts its root.
pub open spec fn pushed(t: Tree, key: Seq<u8>, value: Seq<u8>) -> Option<Seq<u8>>
    decreases t,
{
    match t {
        Tree::Leaf { .. } => parting(leaf_put(t, key, value).node()),
        Tree::Inner { keys, kids, .. } => {
            let i = upper_bound(keys, key);
            if 0 <= i < kids.len() {
                match pushed(kids[i], key, value) {
                    Some(sep) => parting(inner_of(keys.insert(i, sep))),
                    None => None,
                }
            } else {
                None
            }
        },
        Tree::Bad { .. } => None,
    }
}

/// How many pages inserting an entry below the root of `t`, and at it, takes: one for each
/// node on the way, and one more for each that is parted.
pub open spec fn pages_put(t: Tree, key: Seq<u8>, value: Seq<u8>) -> nat
    decreases t,
{
    let own: nat = if pushed(t, key, value) is Some {
        2
    } else {
        1
    };
    match t {
        Tree::Inner { keys, kids, .. } => {
            let i = upper_bound(keys, key);
            if 0 <= i < kids.len() {
                own + pages_put(kids[i], key, value)
            } else {
                own
            }
        },
        _ => own,
    }
}

/// How many pages an insertion takes: a root that is parted takes one more above it.
pub open spec fn pages_inserted(t: Tree, key: Seq<u8>, value: Seq<u8>) -> nat {
    pages_put(t, key, value) + (if pushed(t, key, value) is Some {
        1nat
    } else {
        0nat
    })
}

proof fn lemma_same_cells(a: NodeV, b: NodeV, n: nat)
    requires
        a is Internal,
        b is Internal,
        a.keys() == b.keys(),
    ensures
        a.cells(n) == b.cells(n),
    decreases n,
{
    if n > 0 {
        lemma_same_cells(a, b, (n - 1) as nat);
    }
}

proof fn lemma_same_best(a: NodeV, b: NodeV, m: int)
    requires
        a is Internal,
        b is Internal,
        a.keys() == b.keys(),
    ensures
        a.best_split(m) == b.best_split(m),
    decreases m,
{
    if m > 0 {
        lemma_same_best(a, b, m - 1);
        let q = a.best_split(m - 1);
        lemma_same_cells(a, b, a.count());
        lemma_same_cells(a, b, m as nat);
        lemma_same_cells(a, b, q as nat);
    }
}

/// The size of an internal node, and where it is parted, is a matter of its separators.
proof fn lemma_same_parting(a: NodeV, b: NodeV)
    requires
        a is Internal,
        b is Internal,
        a.keys() == b.keys(),
    ensures
        a.size() == b.size(),
        parting(a) == parting(b),
{
    lemma_same_cells(a, b, a.count());
    lemma_same_best(a, b, a.count() - 1);
}

/// Put an entry into a leaf and write it.
fn insert_leaf<B: IoBackend>(
    pager: &mut Pager<B>,
    keys: Vec<Vec<u8>>,
    vals: Vec<Vec<u8>>,
    key: &[u8],
    value: &[u8],
    Ghost(t): Ghost<Tree>,
    Ghost(lo): Ghost<Bound>,
    Ghost(hi): Ghost<Bound>,
) -> (r: Result<Ins>)
    requires
        old(pager).wf(),
        usable(old(pager).state()),
        roomy(old(pager).state(), 2),
        t is Leaf,
        t.node() == (NodeV::Leaf { keys: strings(keys@), vals: strings(vals@) }),
        t.node().size() <= CAP,
        good(t, 1, lo, hi),
        within(lo, key@, hi),
        entry_fits(key@, value@),
    ensures
        final(pager).wf(),
        old(pager).fault_free() ==> final(pager).fault_free(),
        evolves(old(pager).state(), final(pager).state(), 2),
        usable(final(pager).state()),
        match r {
            Ok(ins) => {
                &&& ins.ok(final(pager).state(), 1, lo, hi)
                &&& forall|k: Seq<u8>| #[trigger]
                    ins.get(k) == if k == key@ {
                        Some(value@)
                    } else {
                        t.get(k)
                    }
                &&& ins.sep() == parting(leaf_put(t, key@, value@).node())
                &&& handed(old(pager).state(), final(pager).state()) == if ins is Split {
                    2int
                } else {
                    1int
                }
                &&& forall|p: u64| #[trigger]
                    some_owns(ins.trees(), p) <==> taken(
                        old(pager).state(),
                        final(pager).state(),
                        p,
                    )
                &&& old(pager).state().free_list() is Done
            },
            Err(e) => refused(old(pager).state().free_list(), old(pager).fault_free(), e),
        },
{
    let ghost s = pager.state();
    let mut keys = keys;
    let mut vals = vals;
    let ghost keys0 = keys@;
    let ghost vals0 = vals@;
    proof {
        lemma_node_parts(t);
        lemma_leaf_put(t, key@, value@, lo, hi);
        assert(strings(keys0) == t.keys());
    }
    let i = find_lower(&keys, key);
    let ghost t2 = leaf_put(t, key@, value@);
    let present = i < keys.len() && bytes_eq(keys[i].as_slice(), key);
    proof {
        if i < keys0.len() {
            assert(strings(keys0)[i as int] == keys0[i as int]@);
        }
    }
    if present {
        vals.set(i, to_vec(value));
        assert(strings(vals@) =~= strings(vals0).update(i as int, value@));
    } else {
        keys.insert(i, to_vec(key));
        vals.insert(i, to_vec(value));
        assert(strings(keys@) =~= strings(keys0).insert(i as int, key@));
        assert(strings(vals@) =~= strings(vals0).insert(i as int, value@));
    }
    let leaf = Node::Leaf { keys, vals };
    proof {
        lemma_node_parts(t2);
        assert(leaf@ =~= t2.node());
        assert(t2.subtrees() =~= Seq::empty());
        assert(forest(s, t2.subtrees())) by {
            reveal(apart);
        }
        assert forall|p: u64| !#[trigger] some_owns(t2.subtrees(), p) by {
            reveal(some_owns);
        }
    }
    write_balanced(pager, leaf, Ghost(t2), Ghost(1), Ghost(lo), Ghost(hi))
}

/// Install in an internal node what insertion made of its subtree `ci`, and
/// write it.
pub(crate) fn insert_up<B: IoBackend>(
    pager: &mut Pager<B>,
    keys: Vec<Vec<u8>>,
    children: Vec<PageId>,
    ci: usize,
    ins: Ins,
    Ghost(t): Ghost<Tree>,
    Ghost(h): Ghost<nat>,
    Ghost(lo): Ghost<Bound>,
    Ghost(hi): Ghost<Bound>,
) -> (r: Result<Ins>)
    requires
        old(pager).wf(),
        usable(old(pager).state()),
        roomy(old(pager).state(), 2),
        t is Inner,
        t.node() == (NodeV::Internal { keys: strings(keys@), children: children@ }),
        t.node().size() <= CAP,
        good(t, h, lo, hi),
        t.keys().len() >= 1,
        ci < children@.len(),
        ins.ok(
            old(pager).state(),
            (h - 1) as nat,
            kid_lo(lo, t.keys(), ci as int),
            kid_hi(t.keys(), hi, ci as int),
        ),
        forest(old(pager).state(), replaced(t.subtrees(), ci as int, ci + 1, ins.trees())),
    ensures
        final(pager).wf(),
        old(pager).fault_free() ==> final(pager).fault_free(),
        evolves(old(pager).state(), final(pager).state(), 2),
        usable(final(pager).state()),
        match r {
            Ok(up) => {
                &&& up.ok(final(pager).state(), h, lo, hi)
                &&& forall|k: Seq<u8>|
                    within(lo, k, hi) ==> #[trigger] up.get(k) == if upper_bound(t.keys(), k)
                        == ci {
                        ins.get(k)
                    } else {
                        t.get(k)
                    }
                &&& up.sep() == match ins.sep() {
                    Some(sep) => parting(inner_of(t.keys().insert(ci as int, sep))),
                    None => None,
                }
                &&& handed(old(pager).state(), final(pager).state()) == if up is Split {
                    2int
                } else {
                    1int
                }
                &&& forall|p: u64| #[trigger]
                    some_owns(up.trees(), p) <==> some_owns(
                        replaced(t.subtrees(), ci as int, ci + 1, ins.trees()),
                        p,
                    ) || taken(old(pager).state(), final(pager).state(), p)
                &&& old(pager).state().free_list() is Done
            },
            Err(e) => refused(old(pager).state().free_list(), old(pager).fault_free(), e),
        },
{
    let mut keys = keys;
    let mut children = children;
    let ghost kids = t.subtrees();
    let ghost keys0 = keys@;
    let ghost trees = ins.trees();
    let ghost whole = ins;
    let ghost t2;
    proof {
        lemma_node_parts(t);
        assert(kid_ids(kids) == children@);
        assert(kids.len() == kid_ids(kids).len());
    }
    match ins {
        Ins::Updated(c, g) => {
            children.set(ci, c);
            proof {
                t2 = with_kid(t, ci as int, g@);
                lemma_with_kid(t, ci as int, g@, h, lo, hi);
                assert(t2.subtrees() =~= replaced(kids, ci as int, ci + 1, trees));
                assert(kid_ids(t2.subtrees()) =~= children@);
                assert(strings(keys@) == t2.keys());
                assert(t2.keys().len() >= 1);
                assert(forall|k: Seq<u8>| whole.get(k) == #[trigger] g@.get(k));
                lemma_same_parting(t2.node(), t.node());
            }
        },
        Ins::Split(left, sep, right, gl, gr) => {
            let ghost sepv = sep@;
            proof {
                t2 = with_two(t, ci as int, gl@, sepv, gr@);
                lemma_with_two(t, ci as int, gl@, sepv, gr@, h, lo, hi);
            }
            children.set(ci, left);
            assert(ci < children.len());
            keys.insert(ci, sep);
            children.insert(ci + 1, right);
            proof {
                assert(t2.subtrees() =~= replaced(kids, ci as int, ci + 1, trees));
                assert(kid_ids(t2.subtrees()) =~= children@);
                assert(strings(keys@) =~= strings(keys0).insert(ci as int, sepv));
                assert(strings(keys@) == t2.keys());
                lemma_same_parting(t2.node(), inner_of(t.keys().insert(ci as int, sepv)));
            }
        },
    }
    let inner = Node::Internal { keys, children };
    proof {
        lemma_node_parts(t2);
        assert(inner@ =~= t2.node());
    }
    write_balanced(pager, inner, Ghost(t2), Ghost(h), Ghost(lo), Ghost(hi))
}

fn insert_rec<B: IoBackend>(
    pager: &mut Pager<B>,
    node_id: PageId,
    key: &[u8],
    value: &[u8],
    freed: &mut Vec<PageId>,
    Ghost(t): Ghost<Tree>,
    Ghost(h): Ghost<nat>,
    Ghost(lo): Ghost<Bound>,
    Ghost(hi): Ghost<Bound>,
    Ghost(whole): Ghost<bool>,
) -> (r: Result<Ins>)
    requires
        ready(*old(pager)),
        rooted(old(pager).state(), node_id.0, t),
        whole ==> {
            &&& usable(old(pager).state())
            &&& roomy(old(pager).state(), 2 * h as int)
            &&& held(old(pager).state(), t)
            &&& good(t, h, lo, hi)
            &&& t is Inner ==> t.keys().len() >= 1
            &&& within(lo, key@, hi)
            &&& entry_fits(key@, value@)
            &&& freed_ok(old(pager).state(), t, old(freed)@)
        },
        !whole ==> t.find(key@) is Stuck,
    ensures
        final(pager).wf(),
        old(pager).fault_free() ==> final(pager).fault_free(),
        !whole ==> final(pager).state() == old(pager).state() && r is Err && stops_at(
            t.find(key@),
            old(pager).fault_free(),
            r->Err_0,
        ),
        whole ==> evolves(old(pager).state(), final(pager).state(), 2 * h as int) && usable(
            final(pager).state(),
        ),
        whole ==> match r {
            Ok(ins) => {
                &&& ins.ok(final(pager).state(), h, lo, hi)
                &&& forall|k: Seq<u8>|
                    within(lo, k, hi) ==> #[trigger] ins.get(k) == if k == key@ {
                        Some(value@)
                    } else {
                        t.get(k)
                    }
                &&& accounted(
                    old(pager).state(),
                    final(pager).state(),
                    t,
                    old(freed)@,
                    final(freed)@,
                    ins.trees(),
                )
                &&& old(pager).state().free_list() is Done
                &&& ins.sep() == pushed(t, key@, value@)
                &&& handed(old(pager).state(), final(pager).state()) == pages_put(
                    t,
                    key@,
                    value@,
                )
                &&& final(freed)@.len() == old(freed)@.len() + h
                &&& final(freed)@[old(freed)@.len() as int] == node_id
            },
            Err(e) => refused(old(pager).state().free_list(), old(pager).fault_free(), e),
        },
    decreases t,
{
    let ghost s = pager.state();
    let ghost list0 = freed@;
    proof {
        pager.wf_state();
        evolves_reflexive(s);
        lemma_evolves_bounds(s, s, 0);
        if whole {
            lemma_good_height(t, h, lo, hi);
            lemma_held(s, t);
            lemma_node_parts(t);
        }
    }
    let node = match read_node(pager, node_id) {
        Ok(node) => node,
        Err(e) => {
            return Err(e);
        },
    };
    proof {
        lemma_read_node_ok(s, node_id.0);
        lemma_lists_push(list0, node_id);
    }
    freed.push(node_id);
    match node {
        Node::Leaf { keys, vals } => {
            let r = insert_leaf(
                pager,
                keys,
                vals,
                key,
                value,
                Ghost(t),
                Ghost(lo),
                Ghost(hi),
            );
            proof {
                let s2 = pager.state();
                lemma_evolves_bounds(s, s2, 2);
                if r is Ok {
                    assert(h == 1);
                    assert(freed@[list0.len() as int] == node_id);
                    assert(r->Ok_0.sep() == pushed(t, key@, value@));
                    lemma_account_leaf(s, s2, t, node_id, list0, r->Ok_0.trees());
                }
            }
            r
        },
        Node::Internal { keys, children } => {
            let ci = find_upper(&keys, key);
            let ghost kids = t.subtrees();
            let ghost kid = kids[ci as int];
            let ghost klo = kid_lo(lo, t.keys(), ci as int);
            let ghost khi = kid_hi(t.keys(), hi, ci as int);
            proof {
                lemma_upper_bound(t.keys(), key@);
                assert(kid_ids(kids) == children@);
                assert(kids.len() == kid_ids(kids).len());
                assert(kid_ids(kids)[ci as int] == children@[ci as int]);
                assert(t.find(key@) == kid.find(key@));
                if whole {
                    lemma_route_within(t.keys(), lo, hi, key@);
                    lemma_held_kids(s, t);
                    lemma_freed_below(s, t, ci as int, list0);
                }
            }
            let sub = insert_rec(
                pager,
                children[ci],
                key,
                value,
                freed,
                Ghost(kid),
                Ghost((h - 1) as nat),
                Ghost(klo),
                Ghost(khi),
                Ghost(whole),
            );
            let ghost s1 = pager.state();
            proof {
                if whole {
                    lemma_evolves_bounds(s, s1, 2 * (h - 1));
                }
            }
            let ins = match sub {
                Ok(ins) => ins,
                Err(e) => {
                    return Err(e);
                },
            };
            let ghost trees = ins.trees();
            let ghost sub_ins = ins;
            proof {
                lemma_account_forest(s, s1, 2 * (h - 1), t, ci as int, trees, list0, freed@);
            }
            let r = insert_up(
                pager,
                keys,
                children,
                ci,
                ins,
                Ghost(t),
                Ghost(h),
                Ghost(lo),
                Ghost(hi),
            );
            proof {
                let s2 = pager.state();
                evolves_transitive(s, s1, s2, 2 * (h - 1), 2);
                if r is Ok {
                    let up = r->Ok_0;
                    assert(t->Inner_keys == t.keys() && t->Inner_kids == kids);
                    assert(ci == upper_bound(t.keys(), key@));
                    assert(up.sep() == pushed(t, key@, value@));
                    assert(list0.push(node_id).is_prefix_of(freed@));
                    assert(freed@[list0.len() as int] == list0.push(node_id)[list0.len() as int]);
                    lemma_account_up(
                        s,
                        s1,
                        s2,
                        2 * (h - 1),
                        2,
                        t,
                        ci as int,
                        trees,
                        up.trees(),
                        list0,
                        freed@,
                    );
                    assert forall|k: Seq<u8>| within(lo, k, hi) implies #[trigger] up.get(k)
                        == (if k == key@ {
                        Some(value@)
                    } else {
                        t.get(k)
                    }) by {
                        lemma_route_within(t.keys(), lo, hi, k);
                    }
                }
            }
            r
        },
    }
}

/// After subtree `i` was replaced, the subtrees are still a forest.
pub proof fn lemma_account_forest(
    s: PagerState,
    s1: PagerState,
    n1: int,
    t: Tree,
    i: int,
    trees: Seq<Tree>,
    list0: Seq<PageId>,
    list2: Seq<PageId>,
)
    requires
        held(s, t),
        t is Inner,
        0 <= i < t.subtrees().len(),
        evolves(s, s1, n1),
        accounted(s, s1, t.subtrees()[i], list0.push(PageId(t.id())), list2, trees),
        forest(s1, trees),
    ensures
        forest(s1, replaced(t.subtrees(), i, i + 1, trees)),
{
    let kids = t.subtrees();
    let kid = kids[i];
    let mid = kids.subrange(i, i + 1);
    let list1 = list0.push(PageId(t.id()));
    lemma_held_kids(s, t);
    assert forall|p: u64| #[trigger] some_owns(trees, p) implies some_owns(mid, p) || taken(
        s,
        s1,
        p,
    ) by {
        if lists(list1, p) {
            lemma_lists_prefix(list1, list2, p);
        }
        if kid.owns(p) {
            assert(mid[0] == kid);
            lemma_some_owns(mid, 0, p);
        }
    }
    lemma_replaced_forest(s, s1, n1, kids, i, i + 1, trees);
}

/// Whether `root` is the root of a B+tree in `s` whose pages are all different
/// and none of them free.
pub open spec fn has_btree(s: PagerState, root: u64) -> bool {
    &&& is_tree(s, root)
    &&& btree(tree_at(s, root))
    &&& held(s, tree_at(s, root))
}

/// Whether a mutation at `key` of what `root` spans is laid down: `root` is the root of a
/// B+tree, or a page on the way to `key` does not read.
pub open spec fn whole_or_stuck(s: PagerState, root: u64, key: Seq<u8>) -> bool {
    has_btree(s, root) || tree_at(s, root).find(key) is Stuck
}

/// Whether `edit` is what a mutation of the tree at `root` made: a B+tree at the
/// new root, the old tree as it was, and every page accounted for.
pub open spec fn edited(s: PagerState, s2: PagerState, root: u64, edit: Edit) -> bool {
    &&& has_btree(s2, edit.new_root.0)
    &&& is_tree(s2, root)
    &&& tree_at(s2, root) == tree_at(s, root)
    &&& accounted(
        s,
        s2,
        tree_at(s, root),
        Seq::empty(),
        edit.freed@,
        seq![tree_at(s2, edit.new_root.0)],
    )
}

/// A tree that is held at its root is the tree there.
pub proof fn lemma_tree_found(s: PagerState, root: u64, t: Tree)
    requires
        held(s, t),
        t.id() == root,
    ensures
        is_tree(s, root),
        tree_at(s, root) == t,
{
    lemma_held(s, t);
    assert(rooted(s, root, t));
    let u = tree_at(s, root);
    assert(rooted(s, root, u));
    tree_is_unique(s, t, u);
}

/// A new root over two trees.
pub open spec fn over(id: u64, l: Tree, sep: Seq<u8>, r: Tree) -> Tree {
    Tree::Inner { id, keys: seq![sep], kids: pair(l, r) }
}

pub proof fn lemma_over(id: u64, l: Tree, sep: Seq<u8>, r: Tree, h: nat)
    requires
        good(l, h, None, Some(sep)),
        good(r, h, Some(sep), None),
        key_fits(sep),
        l.keys().len() >= 1,
        r.keys().len() >= 1,
    ensures
        good(over(id, l, sep, r), h + 1, None, None),
        over(id, l, sep, r).node().size() == 22 + sep.len(),
        over(id, l, sep, r).node().fits_together(),
        forall|k: Seq<u8>| #[trigger]
            over(id, l, sep, r).get(k) == if before(k, sep) {
                l.get(k)
            } else {
                r.get(k)
            },
{
    let t = over(id, l, sep, r);
    lemma_node_parts(t);
    lemma_good_height(l, h, None, Some(sep));
    let keys = t.keys();
    let kids = t.subtrees();
    assert(keys == seq![sep]);
    assert(kids[0] == l && kids[1] == r);
    assert forall|i: int| 0 <= i < kids.len() implies good(
        #[trigger] kids[i],
        h,
        kid_lo(None, keys, i),
        kid_hi(keys, None, i),
    ) && kids[i].keys().len() >= 1 by {}
    assert(t.node().cells(0) == 0);
    assert(t.node().cells(1) == t.node().cells(0) + t.node().cell(0));
    assert forall|k: Seq<u8>| #[trigger] t.get(k) == if before(k, sep) {
        l.get(k)
    } else {
        r.get(k)
    } by {
        reveal_with_fuel(upper_bound, 3);
        assert(keys.drop_first() =~= Seq::empty());
    }
}

/// How large a cell an entry needs: as a leaf cell now, or as an internal
/// separator later.
pub open spec fn cell_need(key: Seq<u8>, value: Seq<u8>) -> nat {
    let leaf = 4 + key.len() + value.len();
    let inner = 10 + key.len();
    if leaf >= inner {
        leaf
    } else {
        inner
    }
}

/// The size that an entry needs, as far as a `usize` can tell it.
pub open spec fn need_told(key: Seq<u8>, value: Seq<u8>) -> usize {
    if cell_need(key, value) > usize::MAX {
        usize::MAX
    } else {
        cell_need(key, value) as usize
    }
}

/// Refuse an entry that could never fit a node.
pub fn check_entry(key: &[u8], value: &[u8]) -> (r: Result<()>)
    ensures
        r == (if cell_need(key@, value@) > MAX_CELL {
            Err::<(), BTreeError>(
                BTreeError::EntryTooLarge { entry: need_told(key@, value@), max: MAX_CELL },
            )
        } else {
            Ok(())
        }),
{
    let leaf: usize = 4usize.saturating_add(key.len()).saturating_add(value.len());
    let inner: usize = 10usize.saturating_add(key.len());
    let need: usize = if leaf >= inner {
        leaf
    } else {
        inner
    };
    if need > MAX_CELL {
        return Err(BTreeError::EntryTooLarge { entry: need, max: MAX_CELL });
    }
    Ok(())
}

/// Insert or replace `key` in the tree at `root`.
pub fn insert_in<B: IoBackend>(
    pager: &mut Pager<B>,
    root: PageId,
    key: &[u8],
    value: &[u8],
) -> (r: Result<Edit>)
    requires
        ready(*old(pager)),
        is_tree(old(pager).state(), root.0),
        whole_or_stuck(old(pager).state(), root.0, key@),
        has_btree(old(pager).state(), root.0) ==> usable(old(pager).state()) && roomy(
            old(pager).state(),
            2 * tree_at(old(pager).state(), root.0).height() as int + 1,
        ),
    ensures
        final(pager).wf(),
        old(pager).fault_free() ==> final(pager).fault_free(),
        has_btree(old(pager).state(), root.0) ==> usable(final(pager).state()) && evolves(
            old(pager).state(),
            final(pager).state(),
            2 * tree_at(old(pager).state(), root.0).height() as int + 1,
        ),
        !has_btree(old(pager).state(), root.0) ==> final(pager).state() == old(pager).state(),
        !has_btree(old(pager).state(), root.0) && cell_need(key@, value@) <= MAX_CELL ==> r is Err
            && stops_at(
            tree_at(old(pager).state(), root.0).find(key@),
            old(pager).fault_free(),
            r->Err_0,
        ),
        cell_need(key@, value@) > MAX_CELL ==> final(pager).state() == old(pager).state() && r
            == Err::<Edit, BTreeError>(
            BTreeError::EntryTooLarge {
                entry: need_told(key@, value@),
                max: MAX_CELL,
            },
        ),
        has_btree(old(pager).state(), root.0) && cell_need(key@, value@)
            <= MAX_CELL ==> match r {
            Ok(edit) => {
                &&& edited(old(pager).state(), final(pager).state(), root.0, edit)
                &&& forall|k: Seq<u8>| #[trigger]
                    tree_at(final(pager).state(), edit.new_root.0).get(k) == if k == key@ {
                        Some(value@)
                    } else {
                        tree_at(old(pager).state(), root.0).get(k)
                    }
                &&& tree_at(final(pager).state(), edit.new_root.0).height() == tree_at(
                    old(pager).state(),
                    root.0,
                ).height() + (if pushed(
                    tree_at(old(pager).state(), root.0),
                    key@,
                    value@,
                ) is Some {
                    1int
                } else {
                    0int
                })
                &&& lists(edit.freed@, root.0)
                &&& edit.freed@.len() == tree_at(old(pager).state(), root.0).height()
                &&& handed(old(pager).state(), final(pager).state()) == pages_inserted(
                    tree_at(old(pager).state(), root.0),
                    key@,
                    value@,
                )
                &&& old(pager).state().free_list() is Done
            },
            Err(e) => refused(old(pager).state().free_list(), old(pager).fault_free(), e),
        },
{
    let ghost s = pager.state();
    let ghost t = tree_at(s, root.0);
    let ghost h = t.height();
    proof {
        evolves_reflexive(s);
        lemma_evolves_bounds(s, s, 0);
        assert(rooted(s, root.0, t));
    }
    match check_entry(key, value) {
        Ok(_) => {},
        Err(e) => {
            return Err(e);
        },
    }
    let mut freed: Vec<PageId> = Vec::new();
    let sub = insert_rec(
        pager,
        root,
        key,
        value,
        &mut freed,
        Ghost(t),
        Ghost(h),
        Ghost(None),
        Ghost(None),
        Ghost(has_btree(s, root.0)),
    );
    let ghost s1 = pager.state();
    proof {
        if has_btree(s, root.0) {
            lemma_evolves_bounds(s, s1, 2 * h as int);
        }
    }
    let ins = match sub {
        Ok(ins) => ins,
        Err(e) => {
            return Err(e);
        },
    };
    let ghost whole = ins;
    match ins {
        Ins::Updated(id, g) => {
            proof {
                assert(whole.trees() =~= seq![g@]);
                assert(whole.trees()[0] == g@);
                lemma_good_height(g@, h, None, None);
                lemma_held(s1, g@);
                lemma_tree_found(s1, id.0, g@);
                lemma_held_kept(s, s1, 2 * h as int, t);
                lemma_tree_found(s1, root.0, t);
                assert forall|k: Seq<u8>| #[trigger] g@.get(k) == (if k == key@ {
                    Some(value@)
                } else {
                    t.get(k)
                }) by {
                    assert(whole.get(k) == g@.get(k));
                }
            }
            Ok(Edit { new_root: id, freed })
        },
        Ins::Split(left, sep, right, gl, gr) => {
            // The root split: grow the tree by one level.
            let ghost sepv = sep@;
            let mut keys: Vec<Vec<u8>> = Vec::new();
            keys.push(sep);
            let mut children: Vec<PageId> = Vec::new();
            children.push(left);
            children.push(right);
            let node = Node::Internal { keys, children };
            let ghost t0 = over(0, gl@, sepv, gr@);
            proof {
                lemma_over(0, gl@, sepv, gr@, h);
                lemma_node_parts(t0);
                assert(strings(keys@) =~= seq![sepv]);
                assert(kid_ids(pair(gl@, gr@)) =~= children@);
                assert(node@ =~= t0.node());
                assert(whole.trees() == pair(gl@, gr@));
                lemma_kid_ids_ok(s1, pair(gl@, gr@));
                lemma_small_encodable(node@);
                assert(crate::order::ascending(node@.keys()));
            }
            let ghost ff1 = pager.fault_free();
            let res = write_node(pager, &node);
            let ghost s2 = pager.state();
            proof {
                lemma_stored(s1, ff1, node@, res, s2);
                evolves_transitive(s, s1, s2, 2 * h as int, 1);
            }
            match res {
                Ok(id) => {
                    let ghost t2 = over(id.0, gl@, sepv, gr@);
                    proof {
                        lemma_over(id.0, gl@, sepv, gr@, h);
                        lemma_node_parts(t2);
                        assert(t2.node() =~= node@);
                        assert(taken(s1, s2, id.0));
                        lemma_half_held(s1, s2, 1, t2);
                        lemma_good_height(t2, h + 1, None, None);
                        lemma_held(s2, t2);
                        lemma_tree_found(s2, id.0, t2);
                        lemma_held_kept(s, s2, 2 * h as int + 1, t);
                        lemma_tree_found(s2, root.0, t);
                        lemma_account_root(
                            s,
                            s1,
                            s2,
                            2 * h as int,
                            1,
                            t,
                            whole.trees(),
                            t2,
                            freed@,
                        );
                        assert forall|k: Seq<u8>| #[trigger] t2.get(k) == (if k == key@ {
                            Some(value@)
                        } else {
                            t.get(k)
                        }) by {
                            assert(whole.get(k) == if before(k, sepv) {
                                gl@.get(k)
                            } else {
                                gr@.get(k)
                            });
                        }
                    }
                    Ok(Edit { new_root: id, freed })
                },
                Err(e) => Err(e),
            }
        },
    }
}

/// The account after a new root was written over `trees`.
pub proof fn lemma_account_root(
    s: PagerState,
    s1: PagerState,
    s2: PagerState,
    n1: int,
    n2: int,
    t: Tree,
    trees: Seq<Tree>,
    t2: Tree,
    freed: Seq<PageId>,
)
    requires
        usable(s),
        held(s, t),
        evolves(s, s1, n1),
        evolves(s1, s2, n2),
        accounted(s, s1, t, Seq::empty(), freed, trees),
        t2 is Inner,
        t2.subtrees() == trees,
        forall|p: u64| #[trigger] t2.owns(p) <==> p == t2.id() || some_owns(trees, p),
        forall|p: u64| #[trigger] taken(s1, s2, p) <==> p == t2.id(),
    ensures
        accounted(s, s2, t, Seq::empty(), freed, seq![t2]),
{
    evolves_transitive(s, s1, s2, n1, n2);
    let one = seq![t2];
    assert forall|p: u64|
        #![trigger lists(freed, p)]
        #![trigger some_owns(one, p)]
        (lists(freed, p) || some_owns(one, p) <==> t.owns(p) || lists(Seq::empty(), p) || taken(
            s,
            s2,
            p,
        )) && (some_owns(one, p) ==> !lists(freed, p)) by {
        lemma_one_owns(t2, p);
        assert(taken(s, s2, p) <==> taken(s, s1, p) || taken(s1, s2, p));
        assert(some_owns(trees, p) ==> !lists(freed, p));
        assert(taken(s, s1, p) ==> !taken(s1, s2, p));
        assert(lists(freed, p) || some_owns(trees, p) <==> t.owns(p) || lists(Seq::empty(), p)
            || taken(s, s1, p));
        if t.owns(p) {
            lemma_held_kept(s, s2, n1 + n2, t);
        }
    }
}

pub proof fn lemma_one_owns(t: Tree, p: u64)
    ensures
        some_owns(seq![t], p) <==> t.owns(p),
{
    let one = seq![t];
    assert(one[0] == t);
    if t.owns(p) {
        lemma_some_owns(one, 0, p);
    }
    if some_owns(one, p) {
        let i = lemma_owner(one, p);
    }
}

/// An entry needs as large a cell as it takes in a leaf, or as its key takes in a node above
/// one, whichever is larger, and no more.
pub proof fn entries_need_the_larger_of_their_cells(key: Seq<u8>, value: Seq<u8>)
    ensures
        cell_need(key, value) >= 2 + key.len() + 2 + value.len(),
        cell_need(key, value) >= 2 + key.len() + 8,
        cell_need(key, value) == 2 + key.len() + 2 + value.len() || cell_need(key, value) == 2
            + key.len() + 8,
{
}

} // verus!
