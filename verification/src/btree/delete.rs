//! Deletion: the touched path is copied, and a node that becomes underfull is
//! balanced against a sibling on the way up.

use vstd::prelude::*;
use crate::bytes::bytes_eq;
use crate::common::io::IoBackend;
use crate::order::{
    before, before_antisymmetric, find_lower, find_upper, lemma_upper_bound, strings, upper_bound,
};
use crate::pager::state::PagerState;
use crate::pager::{PageId, Pager, FIRST_DATA_PAGE};
use super::error::Result;
use super::grow::{
    forest, held, lemma_forest_kept, lemma_held, lemma_held_kept, lemma_held_kids, lemma_owner,
    lemma_parts_apart, lemma_replaced_forest, lemma_replaced_own, lemma_small_encodable,
    lemma_some_owns, lemma_with_kid, lemma_with_two, replaced, some_owns, with_kid, with_two,
};
use super::insert::{
    accounted, edited, freed_ok, has_btree, insert_up, lemma_account_leaf, lemma_account_root,
    lemma_half_held, lemma_kid_ids_ok, lemma_lists_prefix, lemma_lists_push, lemma_one_owns,
    lemma_over, lemma_tree_found, lists, over, pair, roomy, stops_at, whole_or_stuck, write_balanced,
    Ins,
};
use super::model::{
    apart, good, is_tree, key_fits, kid_hi, kid_ids, kid_lo, lemma_apart, lemma_good_height,
    lemma_read_node_ok, lemma_route_within, rooted, tree_at, within, Bound, Tree,
};
use super::node::{lemma_leaf_value, Node, NodeV, CAP, MAX_CELL, MIN_FILL};
use super::parts::lemma_node_parts;
use super::shrink::{
    joined, leaf_without, lemma_joined, lemma_leaf_without, lemma_with_one, with_one,
};
use super::store::{
    evolves, evolves_reflexive, evolves_transitive, lemma_evolves_bounds, lemma_in_use_kept,
    lemma_stored, read_node, refused, spare, taken, usable, write_node,
};
use super::tree::{ready, Edit};

verus! {

/// Outcome of a recursive delete from a subtree.
enum Del {
    /// The key was absent; nothing changed and nothing was copied.
    Unchanged,
    /// The subtree was rebuilt, under one new root page or, where its root no longer
    /// fitted one, under two; `underfull` asks the parent to rebalance it against a
    /// sibling.
    Done {
        /// What replaces the subtree.
        ins: Ins,
        /// Whether it fell below the minimum fill.
        underfull: bool,
    },
}

/// Whether `ins` is what a removal may make of a subtree within `[lo, hi)`: one B+tree,
/// which may have become underfull or empty, or two that are not.
spec fn shrunk(ins: Ins, underfull: bool, s: PagerState, h: nat, lo: Bound, hi: Bound) -> bool {
    &&& forest(s, ins.trees())
    &&& match ins {
        Ins::Updated(id, t) => {
            &&& t@.id() == id.0
            &&& good(t@, h, lo, hi)
            &&& underfull ==> t@.node().size() < MIN_FILL
            &&& !underfull ==> t@.keys().len() >= 1
        },
        Ins::Split(..) => ins.ok(s, h, lo, hi) && !underfull,
    }
}

/// The subtrees of two adjacent trees of a forest are a forest.
proof fn lemma_grandkids(s: PagerState, kids: Seq<Tree>, a: int)
    requires
        forest(s, kids),
        0 <= a < kids.len() - 1,
    ensures
        forest(s, kids[a].subtrees() + kids[a + 1].subtrees()),
        forall|p: u64| #[trigger]
            some_owns(kids[a].subtrees() + kids[a + 1].subtrees(), p) || p == kids[a].id() || p
                == kids[a + 1].id() <==> some_owns(kids.subrange(a, a + 2), p),
        !some_owns(kids[a].subtrees() + kids[a + 1].subtrees(), kids[a].id()),
        !some_owns(kids[a].subtrees() + kids[a + 1].subtrees(), kids[a + 1].id()),
        kids[a].id() != kids[a + 1].id(),
{
    let l = kids[a];
    let r = kids[a + 1];
    let (x, y) = (l.subtrees(), r.subtrees());
    let z = x + y;
    assert(held(s, l) && held(s, r));
    lemma_held_kids(s, l);
    lemma_held_kids(s, r);
    lemma_held(s, l);
    lemma_held(s, r);
    assert forall|p: u64| l.owns(p) implies !r.owns(p) by {
        lemma_apart(kids, a, a + 1, p);
    }
    assert forall|i: int| 0 <= i < z.len() implies held(s, #[trigger] z[i]) by {
        if i < x.len() {
            assert(z[i] == x[i]);
        } else {
            assert(z[i] == y[i - x.len()]);
        }
    }
    assert(apart(z)) by {
        assert forall|i: int, j: int, p: u64|
            0 <= i < z.len() && 0 <= j < z.len() && i != j && #[trigger] z[i].owns(p)
                implies !#[trigger] z[j].owns(p) by {
            if i < x.len() && j < x.len() {
                lemma_apart(x, i, j, p);
            } else if i >= x.len() && j >= x.len() {
                lemma_apart(y, i - x.len(), j - x.len(), p);
            } else if i < x.len() {
                lemma_some_owns(x, i, p);
                assert(l.owns(p));
                if z[j].owns(p) {
                    lemma_some_owns(y, j - x.len(), p);
                }
            } else {
                lemma_some_owns(y, i - x.len(), p);
                assert(r.owns(p));
                if z[j].owns(p) {
                    lemma_some_owns(x, j, p);
                }
            }
        }
        reveal(apart);
    }
    let mid = kids.subrange(a, a + 2);
    assert(mid =~= pair(l, r));
    assert forall|p: u64| #[trigger] some_owns(z, p) || p == l.id() || p == r.id() <==> some_owns(
        mid,
        p,
    ) by {
        super::insert::lemma_two_own(l, r, p);
        super::grow::lemma_concat_own(x, y, p);
        assert(l.owns(p) <==> p == l.id() || some_owns(x, p));
        assert(r.owns(p) <==> p == r.id() || some_owns(y, p));
    }
    super::grow::lemma_concat_own(x, y, l.id());
    super::grow::lemma_concat_own(x, y, r.id());
    if some_owns(y, l.id()) {
        assert(r.owns(l.id()));
    }
    if some_owns(x, r.id()) {
        assert(l.owns(r.id()));
    }
}

/// Whether every page listed is in use and no page of `kids`.
spec fn listed_ok(s: PagerState, kids: Seq<Tree>, freed: Seq<PageId>) -> bool {
    &&& freed.no_duplicates()
    &&& forall|p: u64| #[trigger]
        lists(freed, p) ==> s.in_range(p) && !spare(s).contains(p) && !some_owns(kids, p)
}

/// The account over a change of the subtrees `kids` to `kids2`.
spec fn settled(
    s: PagerState,
    s2: PagerState,
    kids: Seq<Tree>,
    list: Seq<PageId>,
    freed: Seq<PageId>,
    kids2: Seq<Tree>,
) -> bool {
    &&& freed.no_duplicates()
    &&& list.is_prefix_of(freed)
    &&& forall|p: u64|
        #![trigger lists(freed, p)]
        #![trigger some_owns(kids2, p)]
        lists(freed, p) || some_owns(kids2, p) <==> some_owns(kids, p) || lists(list, p) || taken(
            s,
            s2,
            p,
        )
    &&& forall|p: u64| #[trigger] some_owns(kids2, p) ==> !lists(freed, p)
}

proof fn lemma_settle(
    s: PagerState,
    s2: PagerState,
    n: int,
    kids: Seq<Tree>,
    a: int,
    list: Seq<PageId>,
    trees: Seq<Tree>,
)
    requires
        usable(s),
        evolves(s, s2, n),
        forest(s, kids),
        0 <= a < kids.len() - 1,
        listed_ok(s, kids, list),
        forest(s2, trees),
        forall|p: u64| #[trigger]
            some_owns(trees, p) <==> some_owns(
                kids[a].subtrees() + kids[a + 1].subtrees(),
                p,
            ) || taken(s, s2, p),
    ensures
        forest(s2, replaced(kids, a, a + 2, trees)),
        settled(
            s,
            s2,
            kids,
            list,
            list.push(PageId(kids[a].id())).push(PageId(kids[a + 1].id())),
            replaced(kids, a, a + 2, trees),
        ),
{
    let l = kids[a];
    let r = kids[a + 1];
    let z = l.subtrees() + r.subtrees();
    let list1 = list.push(PageId(l.id()));
    let list2 = list1.push(PageId(r.id()));
    let kids2 = replaced(kids, a, a + 2, trees);
    let mid = kids.subrange(a, a + 2);
    lemma_grandkids(s, kids, a);
    lemma_lists_push(list, PageId(l.id()));
    lemma_lists_push(list1, PageId(r.id()));
    lemma_replaced_forest(s, s2, n, kids, a, a + 2, trees);
    lemma_forest_kept(s, s2, n, kids);
    assert(!lists(list, l.id()) && !lists(list1, r.id())) by {
        assert(held(s, l) && held(s, r));
        lemma_held(s, l);
        lemma_held(s, r);
        lemma_some_owns(kids, a, l.id());
        lemma_some_owns(kids, a + 1, r.id());
        assert(lists(list1, r.id()) <==> lists(list, r.id()) || r.id() == l.id());
    }
    assert(list.is_prefix_of(list2)) by {
        assert(list =~= list2.subrange(0, list.len() as int));
    }
    assert forall|p: u64|
        #![trigger lists(list2, p)]
        #![trigger some_owns(kids2, p)]
        (lists(list2, p) || some_owns(kids2, p) <==> some_owns(kids, p) || lists(list, p) || taken(
            s,
            s2,
            p,
        )) && (some_owns(kids2, p) ==> !lists(list2, p)) by {
        lemma_replaced_own(kids, a, a + 2, trees, p);
        lemma_parts_apart(kids, a, a + 2, p);
        assert(lists(list2, p) <==> lists(list1, p) || p == r.id());
        assert(lists(list1, p) <==> lists(list, p) || p == l.id());
        assert(some_owns(z, p) || p == l.id() || p == r.id() <==> some_owns(mid, p));
        assert(some_owns(trees, p) <==> some_owns(z, p) || taken(s, s2, p));
        if lists(list, p) {
            lemma_in_use_kept(s, s2, n, p);
        }
        if some_owns(kids, p) {
            assert(!taken(s, s2, p));
        }
    }
}

/// Fix an underfull child at index `ci` by merging it with an adjacent
/// sibling, splitting the merge back into two balanced nodes if it overflows
/// (a rotation). Mutates the parent's `keys`/`children` in place.
///
/// `t` is the parent before the child became `kid`; the parent after it is
/// handed back.
#[verifier::spinoff_prover]
#[verifier::rlimit(40)]
fn rebalance<B: IoBackend>(
    pager: &mut Pager<B>,
    keys: &mut Vec<Vec<u8>>,
    children: &mut Vec<PageId>,
    ci: usize,
    freed: &mut Vec<PageId>,
    Ghost(t): Ghost<Tree>,
    Ghost(kid): Ghost<Tree>,
    Ghost(h): Ghost<nat>,
    Ghost(lo): Ghost<Bound>,
    Ghost(hi): Ghost<Bound>,
) -> (r: Result<Ghost<Tree>>)
    requires
        old(pager).wf(),
        usable(old(pager).state()),
        roomy(old(pager).state(), 2),
        t is Inner,
        good(t, h, lo, hi),
        t.keys().len() >= 1,
        ci < t.subtrees().len(),
        strings(old(keys)@) == t.keys(),
        old(children)@ == kid_ids(t.subtrees().update(ci as int, kid)),
        forest(old(pager).state(), t.subtrees().update(ci as int, kid)),
        good(
            kid,
            (h - 1) as nat,
            kid_lo(lo, t.keys(), ci as int),
            kid_hi(t.keys(), hi, ci as int),
        ),
        kid.node().size() < MIN_FILL,
        listed_ok(old(pager).state(), t.subtrees().update(ci as int, kid), old(freed)@),
    ensures
        final(pager).wf(),
        old(pager).fault_free() ==> final(pager).fault_free(),
        evolves(old(pager).state(), final(pager).state(), 2),
        usable(final(pager).state()),
        match r {
            Ok(g) => {
                &&& g@ is Inner
                &&& g@.id() == t.id()
                &&& strings(final(keys)@) == g@.keys()
                &&& final(children)@ == kid_ids(g@.subtrees())
                &&& good(g@, h, lo, hi)
                &&& g@.node().size() <= t.node().size() + MAX_CELL
                &&& forest(final(pager).state(), g@.subtrees())
                &&& settled(
                    old(pager).state(),
                    final(pager).state(),
                    t.subtrees().update(ci as int, kid),
                    old(freed)@,
                    final(freed)@,
                    g@.subtrees(),
                )
                &&& forall|k: Seq<u8>|
                    within(lo, k, hi) ==> #[trigger] g@.get(k) == if upper_bound(t.keys(), k)
                        == ci {
                        kid.get(k)
                    } else {
                        t.get(k)
                    }
                &&& old(pager).state().free_list() is Done
            },
            Err(e) => refused(old(pager).state().free_list(), old(pager).fault_free(), e),
        },
{
    let ghost s = pager.state();
    let ghost kids = t.subtrees().update(ci as int, kid);
    let ghost keys0 = keys@;
    let ghost children0 = children@;
    let ghost list0 = freed@;
    proof {
        pager.wf_state();
        evolves_reflexive(s);
        lemma_evolves_bounds(s, s, 0);
        lemma_node_parts(t);
        assert(kids.len() == kid_ids(kids).len());
        assert(strings(keys0).len() == keys0.len());
    }
    // Adjacent pair to combine: prefer the left sibling.
    let a: usize = if ci > 0 {
        ci - 1
    } else {
        0
    };
    let ghost l = kids[a as int];
    let ghost r = kids[a + 1];
    let ghost sep = t.keys()[a as int];
    let ghost llo = kid_lo(lo, t.keys(), a as int);
    let ghost rhi = kid_hi(t.keys(), hi, a + 1);
    proof {
        assert(held(s, l) && held(s, r));
        lemma_held(s, l);
        lemma_held(s, r);
        assert(kid_ids(kids)[a as int] == children0[a as int]);
        assert(kid_ids(kids)[a + 1] == children0[a + 1]);
        lemma_pair_good(t, ci as int, kid, a as int, h, lo, hi);
    }
    let left = match read_node(pager, children[a]) {
        Ok(node) => node,
        Err(e) => {
            return Err(e);
        },
    };
    let right = match read_node(pager, children[a + 1]) {
        Ok(node) => node,
        Err(e) => {
            return Err(e);
        },
    };
    let ghost m = joined(0, l, sep, r);
    let ghost pieces = l.subtrees() + r.subtrees();
    proof {
        lemma_read_node_ok(s, l.id());
        lemma_read_node_ok(s, r.id());
        lemma_joined(0, l, sep, r, (h - 1) as nat, llo, rhi);
        lemma_grandkids(s, kids, a as int);
        assert(strings(keys0)[a as int] == keys0[a as int]@);
        lemma_node_parts(l);
        lemma_node_parts(r);
    }
    let merge = Node::merge(&left, keys[a].as_slice(), &right);
    freed.push(children[a]);
    freed.push(children[a + 1]);
    let res = write_balanced(
        pager,
        merge,
        Ghost(m),
        Ghost((h - 1) as nat),
        Ghost(llo),
        Ghost(rhi),
    );
    let ghost s2 = pager.state();
    let ins = match res {
        Ok(ins) => ins,
        Err(e) => {
            return Err(e);
        },
    };
    let ghost trees = ins.trees();
    let ghost whole = ins;
    proof {
        lemma_settle(s, s2, 2, kids, a as int, list0, trees);
    }
    let ghost t2;
    match ins {
        Ins::Split(lid, new_sep, rid, gl, gr) => {
            // Too big to combine: redistribute, sending a fresh separator up.
            let ghost sepv = new_sep@;
            children.set(a, lid);
            children.set(a + 1, rid);
            keys.set(a, new_sep);
            proof {
                t2 = with_two(with_one(t, a as int, m), a as int, gl@, sepv, gr@);
                assert forall|k: Seq<u8>| #[trigger] m.get(k) == if before(k, sepv) {
                    gl@.get(k)
                } else {
                    gr@.get(k)
                } by {
                    assert(whole.get(k) == m.get(k));
                }
                lemma_rotated(t, ci as int, kid, a as int, m, gl@, sepv, gr@, h, lo, hi);
                assert(strings(keys@) =~= strings(keys0).update(a as int, sepv));
                assert(trees =~= pair(gl@, gr@));
                assert(kid_ids(t2.subtrees()) =~= children@);
            }
        },
        Ins::Updated(id, g) => {
            // They fit in one node: the parent loses a separator and a child.
            children.set(a, id);
            children.remove(a + 1);
            keys.remove(a);
            proof {
                t2 = with_one(t, a as int, g@);
                assert forall|k: Seq<u8>| #[trigger] g@.get(k) == m.get(k) by {
                    assert(whole.get(k) == m.get(k));
                }
                lemma_combined(t, ci as int, kid, a as int, m, g@, h, lo, hi);
                assert(strings(keys@) =~= strings(keys0).remove(a as int));
                assert(trees =~= seq![g@]);
                assert(kid_ids(t2.subtrees()) =~= children@);
            }
        },
    }
    Ok(Ghost(t2))
}

/// The two subtrees that are balanced are B+trees parted by their separator.
proof fn lemma_pair_good(t: Tree, ci: int, kid: Tree, a: int, h: nat, lo: Bound, hi: Bound)
    requires
        t is Inner,
        good(t, h, lo, hi),
        t.keys().len() >= 1,
        0 <= ci < t.subtrees().len(),
        a == (if ci > 0 {
            ci - 1
        } else {
            0
        }),
        good(kid, (h - 1) as nat, kid_lo(lo, t.keys(), ci), kid_hi(t.keys(), hi, ci)),
    ensures
        ({
            let kids = t.subtrees().update(ci, kid);
            let sep = t.keys()[a];
            let llo = kid_lo(lo, t.keys(), a);
            let rhi = kid_hi(t.keys(), hi, a + 1);
            &&& 0 <= a < kids.len() - 1
            &&& kids.len() == t.keys().len() + 1
            &&& good(kids[a], (h - 1) as nat, llo, Some(sep))
            &&& good(kids[a + 1], (h - 1) as nat, Some(sep), rhi)
            &&& within(llo, sep, rhi)
            &&& key_fits(sep)
            &&& kids[a].keys().len() >= 1 || kids[a + 1].keys().len() >= 1
            &&& (a == ci && kids[a] == kid) || (a + 1 == ci && kids[a + 1] == kid)
            &&& h > 1
        }),
{
    lemma_node_parts(t);
    let keys = t.keys();
    let kids0 = t.subtrees();
    let kids = kids0.update(ci, kid);
    assert(within(lo, keys[a], hi) && key_fits(keys[a]));
    if a > 0 {
        assert(before(keys[a - 1], keys[a]));
        before_antisymmetric(keys[a - 1], keys[a]);
    }
    if a + 1 < keys.len() {
        assert(before(keys[a], keys[a + 1]));
    }
    if a == ci {
        assert(kids[a + 1] == kids0[a + 1]);
    } else {
        assert(kids[a] == kids0[a]);
    }
}

/// What the joined pair maps a key to is what its side of the parent did.
proof fn lemma_pair_get(
    t: Tree,
    ci: int,
    kid: Tree,
    a: int,
    m: Tree,
    h: nat,
    lo: Bound,
    hi: Bound,
    k: Seq<u8>,
)
    requires
        t is Inner,
        good(t, h, lo, hi),
        0 <= ci < t.subtrees().len(),
        0 <= a < t.keys().len(),
        a == ci || a + 1 == ci,
        within(lo, k, hi),
        forall|x: Seq<u8>| #[trigger]
            m.get(x) == if before(x, t.keys()[a]) {
                t.subtrees().update(ci, kid)[a].get(x)
            } else {
                t.subtrees().update(ci, kid)[a + 1].get(x)
            },
    ensures
        a <= upper_bound(t.keys(), k) <= a + 1 ==> m.get(k) == if upper_bound(t.keys(), k) == ci {
            kid.get(k)
        } else {
            t.get(k)
        },
        upper_bound(t.keys(), k) == ci ==> a <= upper_bound(t.keys(), k) <= a + 1,
{
    let keys = t.keys();
    lemma_node_parts(t);
    lemma_route_within(keys, lo, hi, k);
    crate::order::lemma_upper_bound(keys, k);
    let u = upper_bound(keys, k);
    assert(t.get(k) == t.subtrees()[u].get(k));
}

/// The parent after two subtrees were balanced into two others.
proof fn lemma_rotated(
    t: Tree,
    ci: int,
    kid: Tree,
    a: int,
    m: Tree,
    gl: Tree,
    sep: Seq<u8>,
    gr: Tree,
    h: nat,
    lo: Bound,
    hi: Bound,
)
    requires
        t is Inner,
        good(t, h, lo, hi),
        0 <= ci < t.subtrees().len(),
        0 <= a < t.keys().len(),
        a == ci || a + 1 == ci,
        good(m, (h - 1) as nat, kid_lo(lo, t.keys(), a), kid_hi(t.keys(), hi, a + 1)),
        m.keys().len() >= 1,
        forall|x: Seq<u8>| #[trigger]
            m.get(x) == if before(x, t.keys()[a]) {
                t.subtrees().update(ci, kid)[a].get(x)
            } else {
                t.subtrees().update(ci, kid)[a + 1].get(x)
            },
        forall|x: Seq<u8>| #[trigger]
            m.get(x) == if before(x, sep) {
                gl.get(x)
            } else {
                gr.get(x)
            },
        good(gl, (h - 1) as nat, kid_lo(lo, t.keys(), a), Some(sep)),
        good(gr, (h - 1) as nat, Some(sep), kid_hi(t.keys(), hi, a + 1)),
        within(kid_lo(lo, t.keys(), a), sep, kid_hi(t.keys(), hi, a + 1)),
        key_fits(sep),
        gl.keys().len() >= 1,
        gr.keys().len() >= 1,
    ensures
        ({
            let t2 = with_two(with_one(t, a, m), a, gl, sep, gr);
            &&& t2 is Inner
            &&& t2.id() == t.id()
            &&& good(t2, h, lo, hi)
            &&& t2.keys() == t.keys().update(a, sep)
            &&& t2.node().size() <= t.node().size() + MAX_CELL
            &&& t2.subtrees() == replaced(t.subtrees().update(ci, kid), a, a + 2, pair(gl, gr))
            &&& forall|k: Seq<u8>|
                within(lo, k, hi) ==> #[trigger] t2.get(k) == if upper_bound(t.keys(), k) == ci {
                    kid.get(k)
                } else {
                    t.get(k)
                }
        }),
{
    let t1 = with_one(t, a, m);
    let t2 = with_two(t1, a, gl, sep, gr);
    let kids = t.subtrees().update(ci, kid);
    lemma_node_parts(t);
    lemma_node_parts(t1);
    lemma_node_parts(t2);
    lemma_with_one(t, a, m, h, lo, hi);
    lemma_with_two(t1, a, gl, sep, gr, h, lo, hi);
    assert(t2.keys() =~= t.keys().update(a, sep));
    assert(t2.subtrees() =~= replaced(kids, a, a + 2, pair(gl, gr)));
    assert forall|k: Seq<u8>| within(lo, k, hi) implies #[trigger] t2.get(k) == if upper_bound(
        t.keys(),
        k,
    ) == ci {
        kid.get(k)
    } else {
        t.get(k)
    } by {
        lemma_pair_get(t, ci, kid, a, m, h, lo, hi, k);
        assert(upper_bound(t1.keys(), k) == a <==> a <= upper_bound(t.keys(), k) <= a + 1);
    }
}

/// The parent after two subtrees were combined into one.
proof fn lemma_combined(
    t: Tree,
    ci: int,
    kid: Tree,
    a: int,
    m: Tree,
    g: Tree,
    h: nat,
    lo: Bound,
    hi: Bound,
)
    requires
        t is Inner,
        good(t, h, lo, hi),
        0 <= ci < t.subtrees().len(),
        0 <= a < t.keys().len(),
        a == ci || a + 1 == ci,
        good(g, (h - 1) as nat, kid_lo(lo, t.keys(), a), kid_hi(t.keys(), hi, a + 1)),
        g.keys().len() >= 1,
        forall|x: Seq<u8>| #[trigger]
            m.get(x) == if before(x, t.keys()[a]) {
                t.subtrees().update(ci, kid)[a].get(x)
            } else {
                t.subtrees().update(ci, kid)[a + 1].get(x)
            },
        forall|x: Seq<u8>| #[trigger] g.get(x) == m.get(x),
    ensures
        ({
            let t2 = with_one(t, a, g);
            &&& t2 is Inner
            &&& t2.id() == t.id()
            &&& good(t2, h, lo, hi)
            &&& t2.keys() == t.keys().remove(a)
            &&& t2.node().size() <= t.node().size()
            &&& t2.subtrees() == replaced(t.subtrees().update(ci, kid), a, a + 2, seq![g])
            &&& forall|k: Seq<u8>|
                within(lo, k, hi) ==> #[trigger] t2.get(k) == if upper_bound(t.keys(), k) == ci {
                    kid.get(k)
                } else {
                    t.get(k)
                }
        }),
{
    let t2 = with_one(t, a, g);
    let kids = t.subtrees().update(ci, kid);
    lemma_node_parts(t);
    lemma_node_parts(t2);
    lemma_with_one(t, a, g, h, lo, hi);
    assert(t2.subtrees() =~= replaced(kids, a, a + 2, seq![g]));
    assert forall|k: Seq<u8>| within(lo, k, hi) implies #[trigger] t2.get(k) == if upper_bound(
        t.keys(),
        k,
    ) == ci {
        kid.get(k)
    } else {
        t.get(k)
    } by {
        lemma_pair_get(t, ci, kid, a, m, h, lo, hi, k);
        assert(g.get(k) == m.get(k));
    }
}

/// The account after a subtree was shrunk, its neighbours balanced and the root
/// written anew.
proof fn lemma_account_del(
    s: PagerState,
    s1: PagerState,
    s2: PagerState,
    s3: PagerState,
    n1: int,
    n2: int,
    n3: int,
    t: Tree,
    i: int,
    mid: Seq<Tree>,
    subs: Seq<Tree>,
    outs: Seq<Tree>,
    list0: Seq<PageId>,
    list1: Seq<PageId>,
    list3: Seq<PageId>,
)
    requires
        usable(s),
        held(s, t),
        t is Inner,
        0 <= i < t.subtrees().len(),
        evolves(s, s1, n1),
        evolves(s1, s2, n2),
        evolves(s2, s3, n3),
        freed_ok(s, t, list0),
        accounted(s, s1, t.subtrees()[i], list0, list1, mid),
        settled(
            s1,
            s2,
            replaced(t.subtrees(), i, i + 1, mid),
            list1.push(PageId(t.id())),
            list3,
            subs,
        ),
        forall|p: u64| #[trigger] some_owns(outs, p) <==> some_owns(subs, p) || taken(s2, s3, p),
        forall|p: u64| #[trigger]
            lists(list3, p) ==> s2.in_range(p) && !spare(s2).contains(p),
    ensures
        accounted(s, s3, t, list0, list3, outs),
{
    let kids = t.subtrees();
    let kids1 = replaced(kids, i, i + 1, mid);
    let list2 = list1.push(PageId(t.id()));
    lemma_held_kids(s, t);
    lemma_lists_push(list1, PageId(t.id()));
    evolves_transitive(s, s1, s2, n1, n2);
    evolves_transitive(s, s2, s3, n1 + n2, n3);
    assert(list0.is_prefix_of(list3)) by {
        assert(list0 =~= list3.subrange(0, list0.len() as int));
    }
    assert(kids.subrange(i, i + 1) =~= seq![kids[i]]);
    assert forall|p: u64|
        #![trigger lists(list3, p)]
        #![trigger some_owns(outs, p)]
        (lists(list3, p) || some_owns(outs, p) <==> t.owns(p) || lists(list0, p) || taken(s, s3, p))
            && (some_owns(outs, p) ==> !lists(list3, p)) by {
        lemma_one_owns(kids[i], p);
        lemma_replaced_own(kids, i, i + 1, mid, p);
        lemma_parts_apart(kids, i, i + 1, p);
        assert(lists(list2, p) <==> lists(list1, p) || p == t.id());
        assert(t.owns(p) <==> p == t.id() || some_owns(kids, p));
        assert(taken(s, s3, p) <==> taken(s, s2, p) || taken(s2, s3, p));
        assert(taken(s, s2, p) <==> taken(s, s1, p) || taken(s1, s2, p));
        assert(taken(s, s2, p) ==> !taken(s2, s3, p));
        assert(taken(s, s1, p) ==> !taken(s1, s2, p));
        assert(lists(list1, p) || some_owns(mid, p) <==> kids[i].owns(p) || lists(list0, p)
            || taken(s, s1, p));
        assert(lists(list3, p) || some_owns(subs, p) <==> some_owns(kids1, p) || lists(list2, p)
            || taken(s1, s2, p));
        assert(some_owns(subs, p) ==> !lists(list3, p));
        if lists(list3, p) {
            lemma_in_use_kept(s2, s3, n3, p);
        }
        if t.owns(p) {
            lemma_held_kept(s, s3, n1 + n2 + n3, t);
        }
        if lists(list0, p) {
            lemma_in_use_kept(s, s3, n1 + n2 + n3, p);
        }
    }
}

/// Before a parent is balanced: the subtrees are a forest, and what is listed
/// is apart from it.
proof fn lemma_before_balance(
    s: PagerState,
    s1: PagerState,
    n1: int,
    t: Tree,
    i: int,
    mid: Seq<Tree>,
    list0: Seq<PageId>,
    list1: Seq<PageId>,
)
    requires
        usable(s),
        held(s, t),
        t is Inner,
        0 <= i < t.subtrees().len(),
        evolves(s, s1, n1),
        freed_ok(s, t, list0),
        accounted(s, s1, t.subtrees()[i], list0, list1, mid),
        forest(s1, mid),
        usable(s1),
        forall|p: u64| #[trigger] lists(list1, p) ==> s1.in_range(p) && !spare(s1).contains(p),
    ensures
        forest(s1, replaced(t.subtrees(), i, i + 1, mid)),
        listed_ok(s1, replaced(t.subtrees(), i, i + 1, mid), list1.push(PageId(t.id()))),
{
    let kids = t.subtrees();
    let kids1 = replaced(kids, i, i + 1, mid);
    let list2 = list1.push(PageId(t.id()));
    lemma_held(s, t);
    lemma_held_kids(s, t);
    lemma_lists_push(list1, PageId(t.id()));
    assert(kids.subrange(i, i + 1) =~= seq![kids[i]]);
    assert forall|p: u64| #[trigger] some_owns(mid, p) implies some_owns(
        kids.subrange(i, i + 1),
        p,
    ) || taken(s, s1, p) by {
        lemma_one_owns(kids[i], p);
        if lists(list0, p) {
            lemma_lists_prefix(list0, list1, p);
        }
    }
    lemma_replaced_forest(s, s1, n1, kids, i, i + 1, mid);
    lemma_held_kept(s, s1, n1, t);
    lemma_held(s1, t);
    lemma_listed_root(s, s1, n1, t, i, mid, list0, list1);
    assert forall|p: u64| #[trigger] lists(list2, p) implies s1.in_range(p) && !spare(s1).contains(
        p,
    ) && !some_owns(kids1, p) by {
        lemma_one_owns(kids[i], p);
        lemma_replaced_own(kids, i, i + 1, mid, p);
        lemma_parts_apart(kids, i, i + 1, p);
        assert(lists(list2, p) <==> lists(list1, p) || p == t.id());
        assert(t.owns(p) <==> p == t.id() || some_owns(kids, p));
        if lists(list1, p) {
            assert(!some_owns(mid, p));
            assert(kids[i].owns(p) || lists(list0, p) || taken(s, s1, p));
        } else {
            if some_owns(mid, p) {
                assert(kids[i].owns(p) || lists(list0, p) || taken(s, s1, p));
            }
        }
    }
}

proof fn lemma_listed_root(
    s: PagerState,
    s1: PagerState,
    n1: int,
    t: Tree,
    i: int,
    mid: Seq<Tree>,
    list0: Seq<PageId>,
    list1: Seq<PageId>,
)
    requires
        held(s, t),
        t is Inner,
        0 <= i < t.subtrees().len(),
        evolves(s, s1, n1),
        freed_ok(s, t, list0),
        accounted(s, s1, t.subtrees()[i], list0, list1, mid),
    ensures
        !lists(list1, t.id()),
{
    lemma_held(s, t);
    lemma_held_kids(s, t);
    lemma_held_kept(s, s1, n1, t);
    if lists(list1, t.id()) {
        assert(t.subtrees()[i].owns(t.id()) || lists(list0, t.id()) || taken(s, s1, t.id()));
        if t.subtrees()[i].owns(t.id()) {
            lemma_some_owns(t.subtrees(), i, t.id());
        }
    }
}

/// What is listed when a subtree is entered is no page of the subtree.
proof fn lemma_freed_kid(s: PagerState, t: Tree, i: int, list0: Seq<PageId>)
    requires
        t is Inner,
        held(s, t),
        0 <= i < t.subtrees().len(),
        freed_ok(s, t, list0),
    ensures
        freed_ok(s, t.subtrees()[i], list0),
        held(s, t.subtrees()[i]),
{
    let kids = t.subtrees();
    lemma_held_kids(s, t);
    assert forall|p: u64| #[trigger] lists(list0, p) implies !kids[i].owns(p) by {
        if kids[i].owns(p) {
            lemma_some_owns(kids, i, p);
            assert(some_owns(kids, p));
        }
    }
}

/// Nothing done is nothing to account for.
proof fn lemma_settled_same(s: PagerState, kids: Seq<Tree>, list: Seq<PageId>)
    requires
        listed_ok(s, kids, list),
    ensures
        settled(s, s, kids, list, list, kids),
{
    evolves_reflexive(s);
    assert(list =~= list.subrange(0, list.len() as int));
}

/// Delete `key` from a leaf.
#[verifier::spinoff_prover]
#[verifier::rlimit(40)]
fn delete_leaf<B: IoBackend>(
    pager: &mut Pager<B>,
    node_id: PageId,
    keys: Vec<Vec<u8>>,
    vals: Vec<Vec<u8>>,
    key: &[u8],
    freed: &mut Vec<PageId>,
    Ghost(t): Ghost<Tree>,
    Ghost(h): Ghost<nat>,
    Ghost(lo): Ghost<Bound>,
    Ghost(hi): Ghost<Bound>,
) -> (r: Result<Del>)
    requires
        old(pager).wf(),
        usable(old(pager).state()),
        roomy(old(pager).state(), 4 * h as int),
        held(old(pager).state(), t),
        t.id() == node_id.0,
        t is Leaf,
        t.node() == (NodeV::Leaf { keys: strings(keys@), vals: strings(vals@) }),
        t.node().size() <= CAP,
        good(t, h, lo, hi),
        within(lo, key@, hi),
        freed_ok(old(pager).state(), t, old(freed)@),
    ensures
        final(pager).wf(),
        old(pager).fault_free() ==> final(pager).fault_free(),
        evolves(old(pager).state(), final(pager).state(), 4 * h as int),
        usable(final(pager).state()),
        match r {
            Ok(Del::Unchanged) => {
                &&& final(pager).state() == old(pager).state()
                &&& final(freed)@ == old(freed)@
                &&& t.get(key@) is None
            },
            Ok(Del::Done { ins, underfull }) => {
                &&& shrunk(ins, underfull, final(pager).state(), h, lo, hi)
                &&& t.get(key@) is Some
                &&& forall|k: Seq<u8>|
                    within(lo, k, hi) ==> #[trigger] ins.get(k) == if k == key@ {
                        None
                    } else {
                        t.get(k)
                    }
                &&& accounted(
                    old(pager).state(),
                    final(pager).state(),
                    t,
                    old(freed)@,
                    final(freed)@,
                    ins.trees(),
                )
                &&& lists(final(freed)@, node_id.0)
                &&& forall|p: u64| #[trigger]
                    lists(final(freed)@, p) ==> final(pager).state().in_range(p) && !spare(
                        final(pager).state(),
                    ).contains(p)
                &&& old(pager).state().free_list() is Done
            },
            Err(e) => refused(old(pager).state().free_list(), old(pager).fault_free(), e),
        },
{
    let ghost s = pager.state();
    let ghost list0 = freed@;
    proof {
        evolves_reflexive(s);
        lemma_evolves_bounds(s, s, 0);
        lemma_good_height(t, h, lo, hi);
        lemma_held(s, t);
        lemma_node_parts(t);
    }
    let mut keys = keys;
    let mut vals = vals;
    let ghost keys0 = keys@;
    let ghost vals0 = vals@;
    let i = find_lower(&keys, key);
    proof {
        lemma_leaf_value(t.node(), key@);
        assert(strings(keys0) == t.keys());
        if i < keys0.len() {
            assert(strings(keys0)[i as int] == keys0[i as int]@);
        }
    }
    let present = i < keys.len() && bytes_eq(keys[i].as_slice(), key);
    if !present {
        return Ok(Del::Unchanged);
    }
    freed.push(node_id);
    keys.remove(i);
    vals.remove(i);
    let ghost t1 = leaf_without(t, i as int);
    proof {
        lemma_leaf_without(t, i as int, lo, hi);
        lemma_leaf_index(t.keys(), i as int);
        assert(strings(keys@) =~= strings(keys0).remove(i as int));
        assert(strings(vals@) =~= strings(vals0).remove(i as int));
        lemma_node_parts(t1);
    }
    let leaf = Node::Leaf { keys, vals };
    proof {
        assert(leaf@ =~= t1.node());
        lemma_small_encodable(leaf@);
    }
    let underfull = leaf.is_underfull();
    let res = write_node(pager, &leaf);
    let ghost s2 = pager.state();
    proof {
        lemma_stored(s, old(pager).fault_free(), leaf@, res, s2);
        lemma_evolves_bounds(s, s2, 1);
    }
    match res {
        Ok(id) => {
            let ghost t2 = super::insert::moved(t1, id.0);
            proof {
                super::insert::lemma_moved(t1, id.0, 1, lo, hi);
                assert(t2.subtrees() =~= Seq::empty());
                assert(forest(s, t2.subtrees())) by {
                    reveal(apart);
                }
                assert(taken(s, s2, id.0));
                lemma_half_held(s, s2, 1, t2);
                assert forall|p: u64| #[trigger] some_owns(seq![t2], p) <==> taken(
                    s,
                    s2,
                    p,
                ) by {
                    lemma_one_owns(t2, p);
                    reveal(some_owns);
                }
                lemma_account_leaf(s, s2, t, node_id, list0, seq![t2]);
                lemma_lists_push(list0, node_id);
                assert forall|p: u64| #[trigger] lists(freed@, p) implies s2.in_range(p)
                    && !spare(s2).contains(p) by {
                    lemma_in_use_kept(s, s2, 1, p);
                }
                lemma_one_forest(s2, t2);
                if !underfull {
                    lemma_not_underfull(t2);
                }
                assert(lists(freed@, node_id.0));
            }
            let ins = Ins::Updated(id, Ghost(t2));
            assert(ins.trees() == seq![t2]);
            assert(forall|k: Seq<u8>| ins.get(k) == #[trigger] t2.get(k));
            Ok(Del::Done { ins, underfull })
        },
        Err(e) => Err(e),
    }
}

/// Install what deleting `key` from subtree `ci` left, and set the node right. `s` is the
/// state before, and `list0` what was listed by then.
#[verifier::spinoff_prover]
#[verifier::rlimit(60)]
fn delete_below<B: IoBackend>(
    pager: &mut Pager<B>,
    node_id: PageId,
    keys: Vec<Vec<u8>>,
    children: Vec<PageId>,
    ci: usize,
    ins: Ins,
    child_underfull: bool,
    freed: &mut Vec<PageId>,
    key: &[u8],
    Ghost(t): Ghost<Tree>,
    Ghost(h): Ghost<nat>,
    Ghost(lo): Ghost<Bound>,
    Ghost(hi): Ghost<Bound>,
    Ghost(s): Ghost<PagerState>,
    Ghost(list0): Ghost<Seq<PageId>>,
    Ghost(ff): Ghost<bool>,
) -> (r: Result<Del>)
    requires
        old(pager).wf(),
        ff ==> old(pager).fault_free(),
        usable(s),
        usable(old(pager).state()),
        roomy(s, 4 * h as int),
        evolves(s, old(pager).state(), 4 * (h - 1)),
        held(s, t),
        t.id() == node_id.0,
        t is Inner,
        t.node() == (NodeV::Internal { keys: strings(keys@), children: children@ }),
        t.node().size() <= CAP,
        good(t, h, lo, hi),
        t.keys().len() >= 1,
        within(lo, key@, hi),
        ci == upper_bound(t.keys(), key@),
        freed_ok(s, t, list0),
        shrunk(
            ins,
            child_underfull,
            old(pager).state(),
            (h - 1) as nat,
            kid_lo(lo, t.keys(), ci as int),
            kid_hi(t.keys(), hi, ci as int),
        ),
        t.subtrees()[ci as int].get(key@) is Some,
        forall|k: Seq<u8>|
            within(kid_lo(lo, t.keys(), ci as int), k, kid_hi(t.keys(), hi, ci as int))
                ==> #[trigger] ins.get(k) == if k == key@ {
                None
            } else {
                t.subtrees()[ci as int].get(k)
            },
        accounted(
            s,
            old(pager).state(),
            t.subtrees()[ci as int],
            list0,
            old(freed)@,
            ins.trees(),
        ),
        forall|p: u64| #[trigger]
            lists(old(freed)@, p) ==> old(pager).state().in_range(p) && !spare(
                old(pager).state(),
            ).contains(p),
        s.free_list() is Done,
    ensures
        final(pager).wf(),
        old(pager).fault_free() ==> final(pager).fault_free(),
        evolves(s, final(pager).state(), 4 * h as int),
        usable(final(pager).state()),
        match r {
            Ok(Del::Unchanged) => false,
            Ok(Del::Done { ins, underfull }) => {
                &&& shrunk(ins, underfull, final(pager).state(), h, lo, hi)
                &&& t.get(key@) is Some
                &&& forall|k: Seq<u8>|
                    within(lo, k, hi) ==> #[trigger] ins.get(k) == if k == key@ {
                        None
                    } else {
                        t.get(k)
                    }
                &&& accounted(
                    s,
                    final(pager).state(),
                    t,
                    list0,
                    final(freed)@,
                    ins.trees(),
                )
                &&& lists(final(freed)@, node_id.0)
                &&& forall|p: u64| #[trigger]
                    lists(final(freed)@, p) ==> final(pager).state().in_range(p) && !spare(
                        final(pager).state(),
                    ).contains(p)
                &&& s.free_list() is Done
            },
            Err(e) => refused(s.free_list(), ff, e),
        },
{
    let mut keys = keys;
    let mut children = children;
    let ghost kids = t.subtrees();
    let ghost s1 = pager.state();
    let ghost n1 = 4 * (h - 1);
    proof {
        pager.wf_state();
        lemma_good_height(t, h, lo, hi);
        lemma_held(s, t);
        lemma_node_parts(t);
        lemma_evolves_bounds(s, s1, n1);
        lemma_route_within(t.keys(), lo, hi, key@);
        assert(kid_ids(kids) == children@);
        assert(kids.len() == kid_ids(kids).len());
        lemma_freed_kid(s, t, ci as int, list0);
    }
    let ghost list1 = freed@;
    freed.push(node_id);
    let ghost mid = ins.trees();
    let ghost kids1 = replaced(kids, ci as int, ci + 1, mid);
    let ghost list2 = freed@;
    proof {
        lemma_lists_push(list1, node_id);
        assert(lists(list2, node_id.0));
        lemma_before_balance(s, s1, n1, t, ci as int, mid, list0, list1);
    }
    match ins {
        Ins::Updated(id, tree) => {
            let ghost kid = tree@;
            children.set(ci, id);
            proof {
                assert(mid =~= seq![kid]);
                assert(mid[0] == kid);
                assert(kids1 =~= kids.update(ci as int, kid));
                assert(kid_ids(kids1) =~= children@);
            }
            let ghost mut t1 = with_kid(t, ci as int, kid);
            if child_underfull {
                match rebalance(
                    pager,
                    &mut keys,
                    &mut children,
                    ci,
                    freed,
                    Ghost(t),
                    Ghost(kid),
                    Ghost(h),
                    Ghost(lo),
                    Ghost(hi),
                ) {
                    Ok(g) => {
                        proof {
                            t1 = g@;
                        }
                    },
                    Err(e) => {
                        proof {
                            evolves_transitive(s, s1, pager.state(), n1, 2);
                            lemma_evolves_bounds(s, pager.state(), n1 + 2);
                        }
                        return Err(e);
                    },
                }
            } else {
                proof {
                    lemma_with_kid(t, ci as int, kid, h, lo, hi);
                    lemma_settled_same(s1, kids1, list2);
                    evolves_reflexive(s1);
                    lemma_evolves_bounds(s1, s1, 0);
                }
            }
            let ghost s2 = pager.state();
            let ghost list3 = freed@;
            proof {
                lemma_node_parts(t1);
                lemma_evolves_bounds(s1, s2, 2);
                evolves_transitive(s, s1, s2, n1, 2);
                lemma_settled_listed(s1, s2, kids1, list2, list3, t1.subtrees());
                assert forall|k: Seq<u8>| within(lo, k, hi) implies #[trigger] t1.get(
                    k,
                ) == (if k == key@ {
                    None
                } else {
                    t.get(k)
                }) by {
                    lemma_route_within(t.keys(), lo, hi, k);
                    assert(kid.get(k) == ins.get(k));
                }
            }
            let r = delete_up(
                pager,
                keys,
                children,
                Ghost(t1),
                Ghost(h),
                Ghost(lo),
                Ghost(hi),
            );
            proof {
                let s3 = pager.state();
                evolves_transitive(s, s2, s3, n1 + 2, 2);
                lemma_evolves_bounds(s, s3, n1 + 4);
                if r is Ok {
                    let up = r->Ok_0.0;
                    lemma_lists_prefix(list2, list3, node_id.0);
                    lemma_account_del(
                        s,
                        s1,
                        s2,
                        s3,
                        n1,
                        2,
                        2,
                        t,
                        ci as int,
                        mid,
                        t1.subtrees(),
                        up.trees(),
                        list0,
                        list1,
                        list3,
                    );
                    assert forall|p: u64| #[trigger] lists(list3, p) implies
                        s3.in_range(p) && !spare(s3).contains(p) by {
                        lemma_in_use_kept(s2, s3, 2, p);
                    }
                }
            }
            match r {
                Ok((up, underfull)) => Ok(Del::Done { ins: up, underfull }),
                Err(e) => Err(e),
            }
        },
        Ins::Split(..) => {
            // The subtree's root was parted: install both parts.
            proof {
                lemma_settled_same(s1, kids1, list2);
                evolves_reflexive(s1);
                lemma_evolves_bounds(s1, s1, 0);
                lemma_settled_listed(s1, s1, kids1, list2, list2, kids1);
            }
            let r = insert_up(
                pager,
                keys,
                children,
                ci,
                ins,
                Ghost(t),
                Ghost(h),
                Ghost(lo),
                Ghost(hi),
            );
            proof {
                let s3 = pager.state();
                evolves_transitive(s, s1, s3, n1, 2);
                lemma_evolves_bounds(s, s3, n1 + 2);
                if r is Ok {
                    let up = r->Ok_0;
                    lemma_account_del(
                        s,
                        s1,
                        s1,
                        s3,
                        n1,
                        0,
                        2,
                        t,
                        ci as int,
                        mid,
                        kids1,
                        up.trees(),
                        list0,
                        list1,
                        list2,
                    );
                    assert forall|p: u64| #[trigger] lists(list2, p) implies
                        s3.in_range(p) && !spare(s3).contains(p) by {
                        lemma_in_use_kept(s1, s3, 2, p);
                    }
                    assert forall|k: Seq<u8>| within(lo, k, hi) implies
                        #[trigger] up.get(k) == (if k == key@ {
                        None
                    } else {
                        t.get(k)
                    }) by {
                        lemma_route_within(t.keys(), lo, hi, k);
                    }
                }
            }
            match r {
                Ok(up) => Ok(Del::Done { ins: up, underfull: false }),
                Err(e) => Err(e),
            }
        },
    }
}

fn delete_rec<B: IoBackend>(
    pager: &mut Pager<B>,
    node_id: PageId,
    key: &[u8],
    freed: &mut Vec<PageId>,
    Ghost(t): Ghost<Tree>,
    Ghost(h): Ghost<nat>,
    Ghost(lo): Ghost<Bound>,
    Ghost(hi): Ghost<Bound>,
    Ghost(whole): Ghost<bool>,
) -> (r: Result<Del>)
    requires
        ready(*old(pager)),
        rooted(old(pager).state(), node_id.0, t),
        whole ==> {
            &&& usable(old(pager).state())
            &&& roomy(old(pager).state(), 4 * h as int)
            &&& held(old(pager).state(), t)
            &&& good(t, h, lo, hi)
            &&& t is Inner ==> t.keys().len() >= 1
            &&& within(lo, key@, hi)
            &&& freed_ok(old(pager).state(), t, old(freed)@)
        },
        !whole ==> t.find(key@) is Stuck,
    ensures
        final(pager).wf(),
        old(pager).fault_free() ==> final(pager).fault_free(),
        !whole ==> final(pager).state() == old(pager).state() && r is Err && stops_at(
            t.find(key@),
            old(pager).fault_free(),
            r->Err_0,
        ),
        whole ==> evolves(old(pager).state(), final(pager).state(), 4 * h as int) && usable(
            final(pager).state(),
        ),
        whole ==> match r {
            Ok(Del::Unchanged) => {
                &&& final(pager).state() == old(pager).state()
                &&& final(freed)@ == old(freed)@
                &&& t.get(key@) is None
            },
            Ok(Del::Done { ins, underfull }) => {
                &&& shrunk(ins, underfull, final(pager).state(), h, lo, hi)
                &&& t.get(key@) is Some
                &&& forall|k: Seq<u8>|
                    within(lo, k, hi) ==> #[trigger] ins.get(k) == if k == key@ {
                        None
                    } else {
                        t.get(k)
                    }
                &&& accounted(
                    old(pager).state(),
                    final(pager).state(),
                    t,
                    old(freed)@,
                    final(freed)@,
                    ins.trees(),
                )
                &&& lists(final(freed)@, node_id.0)
                &&& forall|p: u64| #[trigger]
                    lists(final(freed)@, p) ==> final(pager).state().in_range(p) && !spare(
                        final(pager).state(),
                    ).contains(p)
                &&& old(pager).state().free_list() is Done
            },
            Err(e) => refused(old(pager).state().free_list(), old(pager).fault_free(), e),
        },
    decreases t,
{
    let ghost s = pager.state();
    let ghost ff = pager.fault_free();
    let ghost list0 = freed@;
    proof {
        pager.wf_state();
        evolves_reflexive(s);
        lemma_evolves_bounds(s, s, 0);
        if whole {
            lemma_good_height(t, h, lo, hi);
            lemma_held(s, t);
            lemma_node_parts(t);
        }
    }
    let node = match read_node(pager, node_id) {
        Ok(node) => node,
        Err(e) => {
            return Err(e);
        },
    };
    proof {
        lemma_read_node_ok(s, node_id.0);
    }
    match node {
        Node::Leaf { keys, vals } => delete_leaf(
            pager,
            node_id,
            keys,
            vals,
            key,
            freed,
            Ghost(t),
            Ghost(h),
            Ghost(lo),
            Ghost(hi),
        ),
        Node::Internal { keys, children } => {
            let ci = find_upper(&keys, key);
            let ghost kids = t.subtrees();
            let ghost kid0 = kids[ci as int];
            let ghost klo = kid_lo(lo, t.keys(), ci as int);
            let ghost khi = kid_hi(t.keys(), hi, ci as int);
            proof {
                lemma_upper_bound(t.keys(), key@);
                assert(kid_ids(kids) == children@);
                assert(kids.len() == kid_ids(kids).len());
                assert(kid_ids(kids)[ci as int] == children@[ci as int]);
                assert(t.find(key@) == kid0.find(key@));
                if whole {
                    lemma_route_within(t.keys(), lo, hi, key@);
                    lemma_freed_kid(s, t, ci as int, list0);
                }
            }
            let sub = delete_rec(
                pager,
                children[ci],
                key,
                freed,
                Ghost(kid0),
                Ghost((h - 1) as nat),
                Ghost(klo),
                Ghost(khi),
                Ghost(whole),
            );
            proof {
                if whole {
                    lemma_evolves_bounds(s, pager.state(), 4 * (h - 1));
                }
            }
            match sub {
                Err(e) => Err(e),
                Ok(Del::Unchanged) => Ok(Del::Unchanged),
                Ok(Del::Done { ins, underfull }) => delete_below(
                    pager,
                    node_id,
                    keys,
                    children,
                    ci,
                    ins,
                    underfull,
                    freed,
                    key,
                    Ghost(t),
                    Ghost(h),
                    Ghost(lo),
                    Ghost(hi),
                    Ghost(s),
                    Ghost(list0),
                    Ghost(ff),
                ),
            }
        },
    }
}

/// One tree that is held is a forest.
proof fn lemma_one_forest(s: PagerState, t: Tree)
    requires
        held(s, t),
    ensures
        forest(s, seq![t]),
{
    reveal(apart);
    assert(seq![t][0] == t);
}

/// What an account lists is in use and not free.
proof fn lemma_settled_listed(
    s: PagerState,
    s2: PagerState,
    kids: Seq<Tree>,
    list: Seq<PageId>,
    freed: Seq<PageId>,
    kids2: Seq<Tree>,
)
    requires
        usable(s),
        evolves(s, s2, 2),
        forest(s, kids),
        listed_ok(s, kids, list),
        settled(s, s2, kids, list, freed, kids2),
        s.meta.page_count >= FIRST_DATA_PAGE,
    ensures
        forall|p: u64| #[trigger] lists(freed, p) ==> s2.in_range(p) && !spare(s2).contains(p),
{
    assert forall|p: u64| #[trigger] lists(freed, p) implies s2.in_range(p) && !spare(s2).contains(
        p,
    ) by {
        if lists(list, p) {
            lemma_in_use_kept(s, s2, 2, p);
        } else if some_owns(kids, p) {
            let i = lemma_owner(kids, p);
            assert(held(s, kids[i]));
            lemma_held(s, kids[i]);
            lemma_in_use_kept(s, s2, 2, p);
        } else {
            super::store::lemma_taken(s, s2, 2, p);
        }
    }
}

/// A node that is not underfull is not empty.
proof fn lemma_not_underfull(t: Tree)
    requires
        t.node().size() >= MIN_FILL,
    ensures
        t.keys().len() >= 1,
{
    if t.keys().len() == 0 {
        assert(t.node().cells(0) == 0);
    }
}

/// In ascending keys, a position is that of its key.
proof fn lemma_leaf_index(keys: Seq<Seq<u8>>, i: int)
    requires
        crate::order::ascending(keys),
        0 <= i < keys.len(),
    ensures
        keys.contains(keys[i]),
        keys.index_of(keys[i]) == i,
{
    let j = keys.index_of(keys[i]);
    assert(keys.contains(keys[i]));
    crate::order::before_irreflexive(keys[i]);
    if i < j {
        assert(before(keys[i], keys[j]));
    } else if j < i {
        assert(before(keys[j], keys[i]));
    }
}

/// Write an internal node over its subtrees, parting it in two if it does not fit: a
/// separator that balancing made may be longer than the one it replaced.
fn delete_up<B: IoBackend>(
    pager: &mut Pager<B>,
    keys: Vec<Vec<u8>>,
    children: Vec<PageId>,
    Ghost(t): Ghost<Tree>,
    Ghost(h): Ghost<nat>,
    Ghost(lo): Ghost<Bound>,
    Ghost(hi): Ghost<Bound>,
) -> (r: Result<(Ins, bool)>)
    requires
        old(pager).wf(),
        usable(old(pager).state()),
        roomy(old(pager).state(), 2),
        t is Inner,
        good(t, h, lo, hi),
        strings(keys@) == t.keys(),
        children@ == kid_ids(t.subtrees()),
        forest(old(pager).state(), t.subtrees()),
        t.node().size() <= CAP + MAX_CELL,
    ensures
        final(pager).wf(),
        old(pager).fault_free() ==> final(pager).fault_free(),
        evolves(old(pager).state(), final(pager).state(), 2),
        usable(final(pager).state()),
        match r {
            Ok((ins, underfull)) => {
                &&& shrunk(ins, underfull, final(pager).state(), h, lo, hi)
                &&& forall|k: Seq<u8>| #[trigger] ins.get(k) == t.get(k)
                &&& forall|p: u64| #[trigger]
                    some_owns(ins.trees(), p) <==> some_owns(t.subtrees(), p) || taken(
                        old(pager).state(),
                        final(pager).state(),
                        p,
                    )
                &&& old(pager).state().free_list() is Done
            },
            Err(e) => refused(old(pager).state().free_list(), old(pager).fault_free(), e),
        },
{
    let ghost s = pager.state();
    let internal = Node::Internal { keys, children };
    proof {
        lemma_node_parts(t);
        assert(internal@ =~= t.node());
        lemma_kid_ids_ok(s, t.subtrees());
        lemma_small_encodable(t.node());
    }
    if internal.is_overfull() {
        proof {
            lemma_not_underfull(t);
        }
        return match write_balanced(pager, internal, Ghost(t), Ghost(h), Ghost(lo), Ghost(hi)) {
            Ok(ins) => Ok((ins, false)),
            Err(e) => Err(e),
        };
    }
    let underfull = internal.is_underfull();
    let res = write_node(pager, &internal);
    let ghost s2 = pager.state();
    proof {
        lemma_stored(s, old(pager).fault_free(), internal@, res, s2);
        lemma_evolves_bounds(s, s2, 1);
    }
    match res {
        Ok(id) => {
            let ghost t2 = super::insert::moved(t, id.0);
            let ins = Ins::Updated(id, Ghost(t2));
            proof {
                super::insert::lemma_moved(t, id.0, h, lo, hi);
                assert(taken(s, s2, id.0));
                lemma_half_held(s, s2, 1, t2);
                lemma_one_forest(s2, t2);
                assert(ins.trees() == seq![t2]);
                assert forall|p: u64| #[trigger] some_owns(ins.trees(), p) <==> some_owns(
                    t.subtrees(),
                    p,
                ) || taken(s, s2, p) by {
                    lemma_one_owns(t2, p);
                }
                assert forall|k: Seq<u8>| #[trigger] ins.get(k) == t.get(k) by {
                    assert(ins.get(k) == t2.get(k));
                }
                if !underfull {
                    lemma_not_underfull(t2);
                }
            }
            Ok((ins, underfull))
        },
        Err(e) => Err(e),
    }
}

/// The account after the root was dropped in favour of its only subtree.
proof fn lemma_account_drop(s: PagerState, s2: PagerState, t: Tree, t2: Tree, freed: Seq<PageId>)
    requires
        held(s2, t2),
        t2 is Inner,
        t2.subtrees().len() == 1,
        accounted(s, s2, t, Seq::empty(), freed, seq![t2]),
    ensures
        accounted(s, s2, t, Seq::empty(), freed.push(PageId(t2.id())), t2.subtrees()),
        held(s2, t2.subtrees()[0]),
{
    lemma_held(s2, t2);
    lemma_held_kids(s2, t2);
    lemma_lists_push(freed, PageId(t2.id()));
    let kids = t2.subtrees();
    let list2 = freed.push(PageId(t2.id()));
    lemma_one_owns(t2, t2.id());
    assert(!lists(freed, t2.id())) by {
        assert(some_owns(seq![t2], t2.id()));
    }
    assert forall|p: u64|
        #![trigger lists(list2, p)]
        #![trigger some_owns(kids, p)]
        (lists(list2, p) || some_owns(kids, p) <==> t.owns(p) || lists(Seq::empty(), p) || taken(
            s,
            s2,
            p,
        )) && (some_owns(kids, p) ==> !lists(list2, p)) by {
        lemma_one_owns(t2, p);
        assert(lists(list2, p) <==> lists(freed, p) || p == t2.id());
        assert(t2.owns(p) <==> p == t2.id() || some_owns(kids, p));
        assert(lists(freed, p) || some_owns(seq![t2], p) <==> t.owns(p) || lists(Seq::empty(), p)
            || taken(s, s2, p));
        assert(some_owns(seq![t2], p) ==> !lists(freed, p));
    }
    assert(Seq::<PageId>::empty().is_prefix_of(list2));
}

/// Delete `key` from the tree at `root`.
#[verifier::spinoff_prover]
#[verifier::rlimit(60)]
pub fn delete_in<B: IoBackend>(pager: &mut Pager<B>, root: PageId, key: &[u8]) -> (r: Result<Edit>)
    requires
        ready(*old(pager)),
        is_tree(old(pager).state(), root.0),
        whole_or_stuck(old(pager).state(), root.0, key@),
        has_btree(old(pager).state(), root.0) ==> usable(old(pager).state()) && roomy(
            old(pager).state(),
            4 * tree_at(old(pager).state(), root.0).height() as int + 1,
        ),
    ensures
        final(pager).wf(),
        old(pager).fault_free() ==> final(pager).fault_free(),
        has_btree(old(pager).state(), root.0) ==> usable(final(pager).state()) && evolves(
            old(pager).state(),
            final(pager).state(),
            4 * tree_at(old(pager).state(), root.0).height() as int + 1,
        ),
        !has_btree(old(pager).state(), root.0) ==> final(pager).state() == old(pager).state() && r
            is Err && stops_at(
            tree_at(old(pager).state(), root.0).find(key@),
            old(pager).fault_free(),
            r->Err_0,
        ),
        has_btree(old(pager).state(), root.0) ==> match r {
            Ok(edit) => {
                &&& edited(old(pager).state(), final(pager).state(), root.0, edit)
                &&& forall|k: Seq<u8>| #[trigger]
                    tree_at(final(pager).state(), edit.new_root.0).get(k) == if k == key@ {
                        None
                    } else {
                        tree_at(old(pager).state(), root.0).get(k)
                    }
                &&& tree_at(final(pager).state(), edit.new_root.0).height() <= tree_at(
                    old(pager).state(),
                    root.0,
                ).height() + 1
                &&& tree_at(old(pager).state(), root.0).get(key@) is None ==> {
                    &&& final(pager).state() == old(pager).state()
                    &&& edit.new_root == root
                    &&& edit.freed@.len() == 0
                }
                &&& tree_at(old(pager).state(), root.0).get(key@) is Some ==> {
                    &&& old(pager).state().free_list() is Done
                    &&& lists(edit.freed@, root.0)
                }
            },
            Err(e) => refused(old(pager).state().free_list(), old(pager).fault_free(), e),
        },
{
    let ghost s = pager.state();
    let ghost t = tree_at(s, root.0);
    let ghost h = t.height();
    let mut freed: Vec<PageId> = Vec::new();
    proof {
        evolves_reflexive(s);
        lemma_evolves_bounds(s, s, 0);
        assert(rooted(s, root.0, t));
    }
    let sub = delete_rec(
        pager,
        root,
        key,
        &mut freed,
        Ghost(t),
        Ghost(h),
        Ghost(None),
        Ghost(None),
        Ghost(has_btree(s, root.0)),
    );
    let ghost s1 = pager.state();
    proof {
        if has_btree(s, root.0) {
            lemma_evolves_bounds(s, s1, 4 * h as int);
        }
    }
    match sub {
        Err(e) => Err(e),
        Ok(Del::Unchanged) => {
            proof {
                lemma_account_none(s, t);
                assert(t.get(key@) is None);
            }
            Ok(Edit { new_root: root, freed })
        },
        Ok(Del::Done { ins: Ins::Split(left, sep, right, gl, gr), .. }) => {
            // The root was parted: the tree grows by a level.
            let ghost sepv = sep@;
            let ghost whole = sub->Ok_0->Done_ins;
            let mut keys: Vec<Vec<u8>> = Vec::new();
            keys.push(sep);
            let mut children: Vec<PageId> = Vec::new();
            children.push(left);
            children.push(right);
            let node = Node::Internal { keys, children };
            let ghost t0 = over(0, gl@, sepv, gr@);
            proof {
                lemma_evolves_bounds(s, s1, 4 * h as int);
                lemma_over(0, gl@, sepv, gr@, h);
                lemma_node_parts(t0);
                assert(strings(keys@) =~= seq![sepv]);
                assert(kid_ids(pair(gl@, gr@)) =~= children@);
                assert(node@ =~= t0.node());
                assert(whole.trees() == pair(gl@, gr@));
                lemma_kid_ids_ok(s1, pair(gl@, gr@));
                lemma_small_encodable(node@);
                assert(crate::order::ascending(node@.keys()));
            }
            let ghost ff1 = pager.fault_free();
            let res = write_node(pager, &node);
            let ghost s2 = pager.state();
            proof {
                lemma_stored(s1, ff1, node@, res, s2);
                evolves_transitive(s, s1, s2, 4 * h as int, 1);
            }
            match res {
                Ok(id) => {
                    let ghost t2 = over(id.0, gl@, sepv, gr@);
                    proof {
                        lemma_over(id.0, gl@, sepv, gr@, h);
                        lemma_node_parts(t2);
                        assert(t2.node() =~= node@);
                        assert(taken(s1, s2, id.0));
                        lemma_half_held(s1, s2, 1, t2);
                        lemma_good_height(t2, h + 1, None, None);
                        lemma_held(s2, t2);
                        lemma_tree_found(s2, id.0, t2);
                        lemma_held_kept(s, s2, 4 * h as int + 1, t);
                        lemma_tree_found(s2, root.0, t);
                        lemma_account_root(
                            s,
                            s1,
                            s2,
                            4 * h as int,
                            1,
                            t,
                            whole.trees(),
                            t2,
                            freed@,
                        );
                        assert forall|k: Seq<u8>| #[trigger] t2.get(k) == (if k == key@ {
                            None
                        } else {
                            t.get(k)
                        }) by {
                            assert(whole.get(k) == if before(k, sepv) {
                                gl@.get(k)
                            } else {
                                gr@.get(k)
                            });
                        }
                    }
                    Ok(Edit { new_root: id, freed })
                },
                Err(e) => Err(e),
            }
        },
        Ok(Del::Done { ins: Ins::Updated(id, tree), .. }) => {
            let ghost t1 = tree@;
            proof {
                let whole = sub->Ok_0->Done_ins;
                assert(whole.trees() =~= seq![t1]);
                assert(whole.trees()[0] == t1);
                assert forall|k: Seq<u8>| #[trigger] t1.get(k) == (if k == key@ {
                    None
                } else {
                    t.get(k)
                }) by {
                    assert(whole.get(k) == t1.get(k));
                }
                lemma_good_height(t1, h, None, None);
                lemma_held(s1, t1);
                lemma_tree_found(s1, id.0, t1);
                lemma_held_kept(s, s1, 4 * h as int, t);
                lemma_tree_found(s1, root.0, t);
                lemma_node_parts(t1);
                pager.wf_state();
                lemma_evolves_bounds(s, s1, 4 * h as int);
            }
            // If the root became an internal node with a single child, that
            // child becomes the new root (the tree shrinks by a level).
            let node = match read_node(pager, id) {
                Ok(node) => node,
                Err(e) => {
                    return Err(e);
                },
            };
            if let Node::Internal { children, .. } = &node {
                if children.len() == 1 {
                    let new_root = children[0];
                    proof {
                        let kids = t1.subtrees();
                        assert(kid_ids(kids) == children@);
                        assert(kids.len() == kid_ids(kids).len());
                        assert(kid_ids(kids)[0] == children@[0]);
                        lemma_account_drop(s, s1, t, t1, freed@);
                        assert(good(kids[0], (h - 1) as nat, None, None));
                        lemma_good_height(kids[0], (h - 1) as nat, None, None);
                        lemma_held(s1, kids[0]);
                        lemma_tree_found(s1, new_root.0, kids[0]);
                        assert(kids =~= seq![kids[0]]);
                        assert forall|k: Seq<u8>| #[trigger] kids[0].get(k) == (if k == key@ {
                            None
                        } else {
                            t.get(k)
                        }) by {
                            assert(t1.get(k) == kids[0].get(k));
                        }
                    }
                    let ghost list1 = freed@;
                    freed.push(id);
                    proof {
                        lemma_lists_push(list1, id);
                        assert(lists(freed@, root.0));
                    }
                    return Ok(Edit { new_root, freed });
                }
            }
            proof {
                assert(t1 is Inner ==> t1.keys().len() >= 1) by {
                    if t1 is Inner {
                        assert(kid_ids(t1.subtrees()).len() == t1.subtrees().len());
                    }
                }
            }
            Ok(Edit { new_root: id, freed })
        },
    }
}

proof fn lemma_account_none(s: PagerState, t: Tree)
    ensures
        accounted(s, s, t, Seq::empty(), Seq::empty(), seq![t]),
{
    reveal(taken);
    assert forall|p: u64| #[trigger] some_owns(seq![t], p) <==> t.owns(p) by {
        lemma_one_owns(t, p);
    }
    assert(Seq::<PageId>::empty().is_prefix_of(Seq::<PageId>::empty()));
    assert forall|p: u64| !lists(Seq::empty(), p) by {}
    assert forall|p: u64|
        #![trigger lists(Seq::empty(), p)]
        #![trigger some_owns(seq![t], p)]
        lists(Seq::empty(), p) || some_owns(seq![t], p) <==> t.owns(p) || lists(Seq::empty(), p)
            || taken(s, s, p) by {}
}

} // verus!
