//! Several trees in one page store: a sequence of changes to them, and what becomes
//! of their pages.

use vstd::prelude::*;
use crate::common::io::IoBackend;
use crate::pager::state::{PagerState, Walked};
use crate::pager::{PageId, Pager, PagerError};
use crate::views::opt;
use super::api::snapshots_are_stable;
use super::delete::delete_in;
use super::error::{BTreeError, Result};
use super::grow::{
    forest, held, lemma_concat_own, lemma_forest_kept, lemma_held, lemma_held_kids, lemma_owner,
    lemma_parts_apart, lemma_replaced_forest, lemma_replaced_own, lemma_some_owns, replaced,
    some_owns,
};
use super::insert::{
    accounted, cell_need, has_btree, insert_in, lemma_lists_push, lemma_one_owns, lists, need_told,
    roomy,
};
use super::model::{
    apart, embeds, good, kid_hi, kid_ids, kid_lo, lemma_apart, rooted, tree_at, Bound, Tree,
};
use super::node::{Node, MAX_CELL};
use super::store::{
    evolves, evolves_reflexive, evolves_transitive, lemma_evolves_bounds, read_node, refused, taken,
    usable,
};
use super::tree::ready;

verus! {

/// A change to one of several trees.
#[derive(Debug, PartialEq, Eq)]
pub struct Op {
    /// Which tree.
    pub tree: usize,
    /// The key.
    pub key: Vec<u8>,
    /// The value to store, or nothing where the key is deleted.
    pub value: Option<Vec<u8>>,
}

/// What an [`Op`] says.
#[verifier::ext_equal]
pub struct OpV {
    pub tree: nat,
    pub key: Seq<u8>,
    pub value: Option<Seq<u8>>,
}

impl View for Op {
    type V = OpV;

    open spec fn view(&self) -> OpV {
        OpV { tree: self.tree as nat, key: self.key@, value: opt(self.value) }
    }
}

/// The trees after a sequence of changes.
#[derive(Debug, PartialEq, Eq)]
pub struct Grown {
    /// The new roots.
    pub roots: Vec<PageId>,
    /// The pages that no tree needs any more.
    pub freed: Vec<PageId>,
}

/// What a tree maps keys to.
pub open spec fn tree_map(t: Tree) -> Map<Seq<u8>, Seq<u8>> {
    Map::new(|k: Seq<u8>| t.get(k) is Some, |k: Seq<u8>| t.get(k)->Some_0)
}

/// The trees at these roots.
pub open spec fn trees_at(s: PagerState, roots: Seq<PageId>) -> Seq<Tree> {
    Seq::new(roots.len(), |i: int| tree_at(s, roots[i].0))
}

/// Whether there are B+trees at these roots, with no page in common.
pub open spec fn planted(s: PagerState, roots: Seq<PageId>) -> bool {
    &&& forall|i: int| 0 <= i < roots.len() ==> has_btree(s, (#[trigger] roots[i]).0)
    &&& apart(trees_at(s, roots))
}

/// The height of the tallest of these trees.
pub open spec fn tallest(trees: Seq<Tree>) -> nat
    decreases trees.len(),
{
    if trees.len() == 0 {
        0
    } else {
        let rest = tallest(trees.drop_last());
        if trees.last().height() > rest {
            trees.last().height()
        } else {
            rest
        }
    }
}

/// How many pages `n` changes to trees of at most this height may take.
pub open spec fn pages_for(n: int, height: int) -> int {
    n * (4 * (height + n) + 1)
}

/// What tree `i` maps keys to after changes.
pub open spec fn after_ops(m: Map<Seq<u8>, Seq<u8>>, ops: Seq<OpV>, i: nat) -> Map<
    Seq<u8>,
    Seq<u8>,
>
    decreases ops.len(),
{
    if ops.len() == 0 {
        m
    } else {
        let rest = after_ops(m, ops.drop_last(), i);
        if ops.last().tree == i {
            match ops.last().value {
                Some(v) => rest.insert(ops.last().key, v),
                None => rest.remove(ops.last().key),
            }
        } else {
            rest
        }
    }
}

/// Whether no change is one to tree `i`.
pub open spec fn spares(ops: Seq<OpV>, i: nat) -> bool {
    forall|j: int| 0 <= j < ops.len() ==> (#[trigger] ops[j]).tree != i
}

/// Whether no page was lost or kept twice when `olds` became `news`: what was in use
/// or handed out is now in use or listed, and never both.
pub open spec fn balanced(
    s: PagerState,
    s2: PagerState,
    olds: Seq<Tree>,
    freed: Seq<PageId>,
    news: Seq<Tree>,
) -> bool {
    &&& freed.no_duplicates()
    &&& forall|p: u64|
        #![trigger lists(freed, p)]
        #![trigger some_owns(news, p)]
        lists(freed, p) || some_owns(news, p) <==> some_owns(olds, p) || taken(s, s2, p)
    &&& forall|p: u64| #[trigger] some_owns(news, p) ==> !lists(freed, p)
}

/// Why a change fails: a page cannot be had, or its entry is too large.
pub open spec fn op_fails(w: Walked, fault_free: bool, op: OpV, e: BTreeError) -> bool {
    ||| refused(w, fault_free, e)
    ||| op.value matches Some(v) && cell_need(op.key, v) > MAX_CELL && e
        == (BTreeError::EntryTooLarge { entry: need_told(op.key, v), max: MAX_CELL })
}

pub proof fn lemma_tallest(trees: Seq<Tree>, i: int)
    requires
        0 <= i < trees.len(),
    ensures
        trees[i].height() <= tallest(trees),
    decreases trees.len(),
{
    if i < trees.len() - 1 {
        assert(trees.drop_last()[i] == trees[i]);
        lemma_tallest(trees.drop_last(), i);
    }
}

/// The tallest of trees is no taller than all of them.
pub proof fn lemma_tallest_most(trees: Seq<Tree>, most: nat)
    requires
        forall|i: int| 0 <= i < trees.len() ==> (#[trigger] trees[i]).height() <= most,
    ensures
        tallest(trees) <= most,
    decreases trees.len(),
{
    if trees.len() > 0 {
        assert(trees.last() == trees[trees.len() - 1]);
        assert forall|i: int| 0 <= i < trees.drop_last().len() implies (
        #[trigger] trees.drop_last()[i]).height() <= most by {
            assert(trees.drop_last()[i] == trees[i]);
        }
        lemma_tallest_most(trees.drop_last(), most);
    }
}

pub proof fn lemma_planted(s: PagerState, roots: Seq<PageId>)
    requires
        planted(s, roots),
    ensures
        forest(s, trees_at(s, roots)),
{
    let trees = trees_at(s, roots);
    assert forall|i: int| 0 <= i < trees.len() implies held(s, #[trigger] trees[i]) by {
        assert(has_btree(s, roots[i].0));
    }
}

/// A refusal later on is one from the start.
pub proof fn lemma_refused_kept(
    s: PagerState,
    s1: PagerState,
    n: int,
    ff: bool,
    ff1: bool,
    e: BTreeError,
)
    requires
        evolves(s, s1, n),
        ff ==> ff1,
        refused(s1.free_list(), ff1, e),
    ensures
        refused(s.free_list(), ff, e),
{
    reveal(evolves);
}

/// One tree of several changed: the others stay as they are.
#[verifier::rlimit(40)]
proof fn lemma_others_kept(
    s: PagerState,
    s2: PagerState,
    n: int,
    roots: Seq<PageId>,
    at: int,
    new_root: PageId,
    more: Seq<PageId>,
)
    requires
        evolves(s, s2, n),
        usable(s),
        planted(s, roots),
        0 <= at < roots.len(),
        has_btree(s2, new_root.0),
        accounted(
            s,
            s2,
            tree_at(s, roots[at].0),
            Seq::empty(),
            more,
            seq![tree_at(s2, new_root.0)],
        ),
    ensures
        planted(s2, roots.update(at, new_root)),
        trees_at(s2, roots.update(at, new_root)) == replaced(
            trees_at(s, roots),
            at,
            at + 1,
            seq![tree_at(s2, new_root.0)],
        ),
        forall|i: int|
            0 <= i < roots.len() && i != at ==> tree_at(s2, (#[trigger] roots[i]).0) == tree_at(
                s,
                roots[i].0,
            ),
{
    let trees = trees_at(s, roots);
    let roots2 = roots.update(at, new_root);
    let trees2 = trees_at(s2, roots2);
    let t = tree_at(s, roots[at].0);
    let t2 = tree_at(s2, new_root.0);
    let one = seq![t2];
    let mid = trees.subrange(at, at + 1);
    lemma_planted(s, roots);
    assert forall|i: int| 0 <= i < roots2.len() implies has_btree(s2, (#[trigger] roots2[i]).0) by {
        if i != at {
            assert(has_btree(s, roots[i].0));
            snapshots_are_stable(s, s2, n, roots[i].0);
        }
    }
    assert forall|i: int| 0 <= i < roots.len() && i != at implies tree_at(
        s2,
        (#[trigger] roots[i]).0,
    ) == tree_at(s, roots[i].0) by {
        assert(has_btree(s, roots[i].0));
        snapshots_are_stable(s, s2, n, roots[i].0);
    }
    assert(mid =~= seq![t]);
    assert(trees2 =~= replaced(trees, at, at + 1, one));
    lemma_single(s2, t2);
    lemma_pages_from(s, s2, t, t2, more);
    assert forall|i: int| 0 <= i < at || at + 1 <= i < trees.len() implies held(
        s,
        #[trigger] trees[i],
    ) by {}
    lemma_replaced_forest(s, s2, n, trees, at, at + 1, one);
}

proof fn lemma_single(s: PagerState, t: Tree)
    requires
        held(s, t),
    ensures
        forest(s, seq![t]),
{
    reveal(apart);
}

proof fn lemma_pages_from(s: PagerState, s2: PagerState, t: Tree, t2: Tree, more: Seq<PageId>)
    requires
        accounted(s, s2, t, Seq::empty(), more, seq![t2]),
    ensures
        forall|p: u64| #[trigger]
            some_owns(seq![t2], p) ==> some_owns(seq![t], p) || taken(s, s2, p),
{
    assert forall|p: u64| #[trigger] some_owns(seq![t2], p) implies some_owns(seq![t], p) || taken(
        s,
        s2,
        p,
    ) by {
        lemma_one_owns(t, p);
        assert(!lists(Seq::empty(), p));
    }
}

pub proof fn lemma_lists_concat(a: Seq<PageId>, b: Seq<PageId>, p: u64)
    ensures
        lists(a + b, p) <==> lists(a, p) || lists(b, p),
{
    let all = a + b;
    let x = PageId(p);
    if all.contains(x) {
        let j = all.index_of(x);
        if j < a.len() {
            assert(a[j] == x);
        } else {
            assert(b[j - a.len()] == x);
        }
    }
    if a.contains(x) {
        let j = a.index_of(x);
        assert(all[j] == x);
    }
    if b.contains(x) {
        let j = b.index_of(x);
        assert(all[a.len() + j] == x);
    }
}

pub proof fn lemma_lists_disjoint(a: Seq<PageId>, b: Seq<PageId>)
    requires
        a.no_duplicates(),
        b.no_duplicates(),
        forall|p: u64| #[trigger] lists(a, p) ==> !lists(b, p),
    ensures
        (a + b).no_duplicates(),
{
    let all = a + b;
    assert forall|i: int, j: int| 0 <= i < j < all.len() implies all[i] != all[j] by {
        if i < a.len() && j >= a.len() {
            let p = all[i].0;
            assert(a[i] == PageId(p));
            assert(lists(a, p));
            if all[i] == all[j] {
                assert(b[j - a.len()] == PageId(p));
                assert(lists(b, p));
            }
        } else if j < a.len() {
            assert(all[i] == a[i] && all[j] == a[j]);
        } else {
            assert(all[i] == b[i - a.len()] && all[j] == b[j - a.len()]);
        }
    }
}

/// One tree of several changed: their pages are still in balance.
proof fn lemma_balance_kept(
    s0: PagerState,
    s: PagerState,
    s2: PagerState,
    n0: int,
    n: int,
    trees: Seq<Tree>,
    at: int,
    t2: Tree,
    olds: Seq<Tree>,
    freed: Seq<PageId>,
    more: Seq<PageId>,
)
    requires
        usable(s0),
        evolves(s0, s, n0),
        evolves(s, s2, n),
        forest(s0, olds),
        forest(s, trees),
        0 <= at < trees.len(),
        balanced(s0, s, olds, freed, trees),
        accounted(s, s2, trees[at], Seq::empty(), more, seq![t2]),
    ensures
        balanced(s0, s2, olds, freed + more, replaced(trees, at, at + 1, seq![t2])),
{
    let t = trees[at];
    let one = seq![t2];
    let trees2 = replaced(trees, at, at + 1, one);
    let all = freed + more;
    evolves_transitive(s0, s, s2, n0, n);
    lemma_forest_kept(s0, s2, n0 + n, olds);
    lemma_forest_kept(s, s2, n, trees);
    assert forall|p: u64| #[trigger] lists(freed, p) implies !taken(s, s2, p) && !lists(more, p) by {
        lemma_page_balance(s0, s, s2, trees, at, t2, olds, freed, more, p);
    }
    lemma_lists_disjoint(freed, more);
    assert forall|p: u64|
        #![trigger lists(all, p)]
        #![trigger some_owns(trees2, p)]
        (lists(all, p) || some_owns(trees2, p) <==> some_owns(olds, p) || taken(s0, s2, p)) && (
        some_owns(trees2, p) ==> !lists(all, p)) by {
        lemma_page_balance(s0, s, s2, trees, at, t2, olds, freed, more, p);
    }
}

proof fn lemma_page_balance(
    s0: PagerState,
    s: PagerState,
    s2: PagerState,
    trees: Seq<Tree>,
    at: int,
    t2: Tree,
    olds: Seq<Tree>,
    freed: Seq<PageId>,
    more: Seq<PageId>,
    p: u64,
)
    requires
        0 <= at < trees.len(),
        apart(trees),
        taken(s0, s2, p) <==> taken(s0, s, p) || taken(s, s2, p),
        taken(s0, s, p) ==> !taken(s, s2, p),
        some_owns(olds, p) ==> !taken(s0, s2, p),
        some_owns(trees, p) ==> !taken(s, s2, p),
        lists(freed, p) || some_owns(trees, p) <==> some_owns(olds, p) || taken(s0, s, p),
        some_owns(trees, p) ==> !lists(freed, p),
        lists(more, p) || some_owns(seq![t2], p) <==> trees[at].owns(p) || lists(
            Seq::empty(),
            p,
        ) || taken(s, s2, p),
        some_owns(seq![t2], p) ==> !lists(more, p),
    ensures
        lists(freed, p) ==> !taken(s, s2, p) && !lists(more, p),
        lists(freed + more, p) || some_owns(replaced(trees, at, at + 1, seq![t2]), p) <==> some_owns(
            olds,
            p,
        ) || taken(s0, s2, p),
        some_owns(replaced(trees, at, at + 1, seq![t2]), p) ==> !lists(freed + more, p),
{
    let mid = trees.subrange(at, at + 1);
    assert(mid =~= seq![trees[at]]);
    lemma_one_owns(trees[at], p);
    lemma_replaced_own(trees, at, at + 1, seq![t2], p);
    lemma_parts_apart(trees, at, at + 1, p);
    lemma_lists_concat(freed, more, p);
    assert(!lists(Seq::empty(), p));
}

pub(crate) fn append(freed: &mut Vec<PageId>, more: &Vec<PageId>)
    ensures
        final(freed)@ == old(freed)@ + more@,
{
    let ghost f0 = freed@;
    let mut i: usize = 0;
    assert(f0 + more@.take(0) =~= f0);
    while i < more.len()
        invariant
            i <= more@.len(),
            freed@ == f0 + more@.take(i as int),
        decreases more@.len() - i,
    {
        freed.push(more[i]);
        i = i + 1;
        assert(freed@ =~= f0 + more@.take(i as int));
    }
    assert(more@.take(i as int) =~= more@);
}

/// Change one of several trees.
fn step<B: IoBackend>(
    pager: &mut Pager<B>,
    roots: &mut Vec<PageId>,
    op: &Op,
    freed: &mut Vec<PageId>,
    Ghost(s0): Ghost<PagerState>,
    Ghost(n0): Ghost<int>,
    Ghost(olds): Ghost<Seq<Tree>>,
) -> (r: Result<()>)
    requires
        ready(*old(pager)),
        usable(s0),
        evolves(s0, old(pager).state(), n0),
        usable(old(pager).state()),
        forest(s0, olds),
        planted(old(pager).state(), old(roots)@),
        op.tree < old(roots)@.len(),
        roomy(
            old(pager).state(),
            4 * tree_at(old(pager).state(), old(roots)@[op.tree as int].0).height() as int + 1,
        ),
        balanced(s0, old(pager).state(), olds, old(freed)@, trees_at(old(pager).state(), old(roots)@)),
    ensures
        final(pager).wf(),
        old(pager).fault_free() ==> final(pager).fault_free(),
        usable(final(pager).state()),
        evolves(
            old(pager).state(),
            final(pager).state(),
            4 * tree_at(old(pager).state(), old(roots)@[op.tree as int].0).height() as int + 1,
        ),
        match r {
            Ok(_) => {
                &&& final(roots)@.len() == old(roots)@.len()
                &&& forall|i: int|
                    0 <= i < old(roots)@.len() && i != op.tree ==> #[trigger] final(roots)@[i]
                        == old(roots)@[i]
                &&& planted(final(pager).state(), final(roots)@)
                &&& balanced(
                    s0,
                    final(pager).state(),
                    olds,
                    final(freed)@,
                    trees_at(final(pager).state(), final(roots)@),
                )
                &&& forall|i: int|
                    0 <= i < old(roots)@.len() ==> tree_at(
                        final(pager).state(),
                        (#[trigger] final(roots)@[i]).0,
                    ).height() <= tree_at(old(pager).state(), old(roots)@[i].0).height() + 1
                &&& forall|i: int|
                    0 <= i < old(roots)@.len() ==> tree_map(
                        tree_at(final(pager).state(), (#[trigger] final(roots)@[i]).0),
                    ) == after_ops(
                        tree_map(tree_at(old(pager).state(), old(roots)@[i].0)),
                        seq![op@],
                        i as nat,
                    )
            },
            Err(e) => op_fails(old(pager).state().free_list(), old(pager).fault_free(), op@, e),
        },
{
    let ghost s = pager.state();
    let ghost rs = roots@;
    let at: usize = op.tree;
    let root = roots[at];
    let ghost h = tree_at(s, root.0).height();
    assert(has_btree(s, rs[at as int].0));
    let done = match &op.value {
        Some(v) => insert_in(pager, root, op.key.as_slice(), v.as_slice()),
        None => delete_in(pager, root, op.key.as_slice()),
    };
    let ghost s2 = pager.state();
    assert(evolves(s, s2, 4 * h as int + 1)) by {
        reveal(evolves);
    }
    let edit = match done {
        Ok(edit) => edit,
        Err(e) => {
            return Err(e);
        },
    };
    proof {
        let n = 4 * h as int + 1;
        lemma_others_kept(s, s2, n, rs, at as int, edit.new_root, edit.freed@);
        lemma_planted(s, rs);
        lemma_balance_kept(
            s0,
            s,
            s2,
            n0,
            n,
            trees_at(s, rs),
            at as int,
            tree_at(s2, edit.new_root.0),
            olds,
            freed@,
            edit.freed@,
        );
    }
    append(freed, &edit.freed);
    roots.set(at, edit.new_root);
    proof {
        let one = seq![op@];
        assert(roots@ == rs.update(at as int, edit.new_root));
        assert forall|i: int| 0 <= i < rs.len() implies tree_map(
            tree_at(s2, (#[trigger] roots@[i]).0),
        ) == after_ops(tree_map(tree_at(s, rs[i].0)), one, i as nat) && tree_at(
            s2,
            roots@[i].0,
        ).height() <= tree_at(s, rs[i].0).height() + 1 by {
            let m = tree_map(tree_at(s, rs[i].0));
            let m2 = tree_map(tree_at(s2, roots@[i].0));
            reveal_with_fuel(after_ops, 2);
            assert(one.drop_last() =~= Seq::empty());
            assert(one.last() == op@);
            if i == at {
                assert(m2 =~= match op@.value {
                    Some(v) => m.insert(op@.key, v),
                    None => m.remove(op@.key),
                });
            } else {
                assert(tree_at(s2, rs[i].0) == tree_at(s, rs[i].0));
            }
        }
    }
    Ok(())
}

proof fn lemma_after_push(m: Map<Seq<u8>, Seq<u8>>, ops: Seq<OpV>, op: OpV, i: nat)
    ensures
        after_ops(m, ops.push(op), i) == after_ops(after_ops(m, ops, i), seq![op], i),
{
    reveal_with_fuel(after_ops, 2);
    assert(ops.push(op).drop_last() =~= ops);
    assert(seq![op].drop_last() =~= Seq::empty());
}

pub(crate) fn copy_roots(roots: &Vec<PageId>) -> (r: Vec<PageId>)
    ensures
        r@ == roots@,
{
    let mut out: Vec<PageId> = Vec::new();
    append(&mut out, roots);
    assert(out@ =~= roots@);
    out
}

/// Make a sequence of changes to trees in one page store. The trees that were there
/// stay readable at their old roots; the pages that the new ones do not need are
/// listed.
pub fn run<B: IoBackend>(pager: &mut Pager<B>, roots: &Vec<PageId>, ops: &Vec<Op>) -> (r: Result<
    Grown,
>)
    requires
        ready(*old(pager)),
        usable(old(pager).state()),
        planted(old(pager).state(), roots@),
        forall|j: int| 0 <= j < ops@.len() ==> (#[trigger] ops@[j]).tree < roots@.len(),
        roomy(
            old(pager).state(),
            pages_for(
                ops@.len() as int,
                tallest(trees_at(old(pager).state(), roots@)) as int,
            ),
        ),
    ensures
        final(pager).wf(),
        old(pager).fault_free() ==> final(pager).fault_free(),
        usable(final(pager).state()),
        evolves(
            old(pager).state(),
            final(pager).state(),
            pages_for(
                ops@.len() as int,
                tallest(trees_at(old(pager).state(), roots@)) as int,
            ),
        ),
        match r {
            Ok(g) => {
                &&& g.roots@.len() == roots@.len()
                &&& forall|i: int|
                    0 <= i < roots@.len() && spares(crate::views::views(ops@), i as nat)
                        ==> #[trigger] g.roots@[i] == roots@[i]
                &&& planted(final(pager).state(), g.roots@)
                &&& tallest(trees_at(final(pager).state(), g.roots@)) <= tallest(
                    trees_at(old(pager).state(), roots@),
                ) + ops@.len()
                &&& balanced(
                    old(pager).state(),
                    final(pager).state(),
                    trees_at(old(pager).state(), roots@),
                    g.freed@,
                    trees_at(final(pager).state(), g.roots@),
                )
                &&& forall|i: int|
                    0 <= i < roots@.len() ==> tree_map(
                        tree_at(final(pager).state(), (#[trigger] g.roots@[i]).0),
                    ) == after_ops(
                        tree_map(tree_at(old(pager).state(), roots@[i].0)),
                        crate::views::views(ops@),
                        i as nat,
                    )
            },
            Err(e) => exists|j: int|
                0 <= j < ops@.len() && op_fails(
                    old(pager).state().free_list(),
                    old(pager).fault_free(),
                    #[trigger] ops@[j]@,
                    e,
                ),
        },
{
    let ghost s0 = pager.state();
    let ghost ff0 = pager.fault_free();
    let ghost olds = trees_at(s0, roots@);
    let ghost h0 = tallest(olds) as int;
    let ghost n = ops@.len() as int;
    let ghost c = 4 * (h0 + n) + 1;
    let ghost vs = crate::views::views(ops@);
    let mut now = copy_roots(roots);
    let mut freed: Vec<PageId> = Vec::new();
    proof {
        evolves_reflexive(s0);
        lemma_planted(s0, roots@);
        assert forall|p: u64| !lists(freed@, p) by {}
        assert(vs.take(0) =~= Seq::empty());
        assert forall|i: int| 0 <= i < roots@.len() implies tree_at(
            s0,
            (#[trigger] now@[i]).0,
        ).height() <= h0 by {
            lemma_tallest(olds, i);
        }
        assert(0 * c == 0);
    }
    let mut j: usize = 0;
    while j < ops.len()
        invariant
            j <= ops@.len(),
            n == ops@.len(),
            c == 4 * (h0 + n) + 1,
            h0 == tallest(olds) as int,
            s0 == old(pager).state(),
            ff0 == old(pager).fault_free(),
            olds == trees_at(s0, roots@),
            vs == crate::views::views(ops@),
            usable(s0),
            forest(s0, olds),
            forall|j: int| 0 <= j < ops@.len() ==> (#[trigger] ops@[j]).tree < roots@.len(),
            roomy(s0, n * c),
            pager.wf(),
            ff0 ==> pager.fault_free(),
            usable(pager.state()),
            evolves(s0, pager.state(), j * c),
            now@.len() == roots@.len(),
            forall|i: int|
                0 <= i < roots@.len() && spares(vs, i as nat) ==> #[trigger] now@[i] == roots@[i],
            planted(pager.state(), now@),
            balanced(s0, pager.state(), olds, freed@, trees_at(pager.state(), now@)),
            forall|i: int|
                0 <= i < roots@.len() ==> tree_at(
                    pager.state(),
                    (#[trigger] now@[i]).0,
                ).height() <= h0 + j,
            forall|i: int|
                0 <= i < roots@.len() ==> tree_map(
                    tree_at(pager.state(), (#[trigger] now@[i]).0),
                ) == after_ops(
                    tree_map(tree_at(s0, roots@[i].0)),
                    vs.take(j as int),
                    i as nat,
                ),
        decreases ops@.len() - j,
    {
        let ghost s = pager.state();
        let ghost ff = pager.fault_free();
        let ghost before = now@;
        let op = &ops[j];
        let ghost h = tree_at(s, now@[op.tree as int].0).height() as int;
        proof {
            let root = now@[op.tree as int];
            assert(tree_at(s, root.0).height() <= h0 + j);
            lemma_evolves_bounds(s0, s, j * c);
            assert((j + 1) * c == j * c + c) by (nonlinear_arith);
            assert((j + 1) * c <= n * c) by (nonlinear_arith)
                requires
                    j + 1 <= n,
                    c >= 0,
            ;
        }
        let done = step(
            pager,
            &mut now,
            op,
            &mut freed,
            Ghost(s0),
            Ghost(j * c),
            Ghost(olds),
        );
        let ghost s2 = pager.state();
        proof {
            assert(evolves(s, s2, c)) by {
                reveal(evolves);
            }
            evolves_transitive(s0, s, s2, j * c, c);
        }
        match done {
            Ok(_) => {},
            Err(e) => {
                proof {
                    if refused(s.free_list(), ff, e) {
                        lemma_refused_kept(s0, s, j * c, ff0, ff, e);
                    }
                    assert(op_fails(s0.free_list(), ff0, ops@[j as int]@, e));
                    assert(evolves(s0, s2, n * c)) by {
                        reveal(evolves);
                    }
                }
                return Err(e);
            },
        }
        proof {
            assert(vs[j as int] == op@);
            assert(vs.take(j + 1) =~= vs.take(j as int).push(op@));
            assert forall|i: int| 0 <= i < roots@.len() implies tree_map(
                tree_at(s2, (#[trigger] now@[i]).0),
            ) == after_ops(tree_map(tree_at(s0, roots@[i].0)), vs.take(j + 1), i as nat) && tree_at(
                s2,
                now@[i].0,
            ).height() <= h0 + j + 1 by {
                lemma_after_push(
                    tree_map(tree_at(s0, roots@[i].0)),
                    vs.take(j as int),
                    op@,
                    i as nat,
                );
            }
        }
        j = j + 1;
    }
    assert(vs.take(j as int) =~= vs);
    proof {
        lemma_tallest_most(trees_at(pager.state(), now@), (h0 + n) as nat);
    }
    Ok(Grown { roots: now, freed })
}

// --- the pages of a tree -------------------------------------------------------

/// List the pages of the subtree at `id`.
fn list_pages<B: IoBackend>(
    pager: &mut Pager<B>,
    id: PageId,
    out: &mut Vec<PageId>,
    Ghost(t): Ghost<Tree>,
    Ghost(h): Ghost<nat>,
    Ghost(lo): Ghost<Bound>,
    Ghost(hi): Ghost<Bound>,
) -> (r: Result<()>)
    requires
        ready(*old(pager)),
        held(old(pager).state(), t),
        t.id() == id.0,
        good(t, h, lo, hi),
        old(out)@.no_duplicates(),
        forall|p: u64| #[trigger] t.owns(p) ==> !lists(old(out)@, p),
    ensures
        final(pager).wf(),
        final(pager).state() == old(pager).state(),
        old(pager).fault_free() ==> final(pager).fault_free(),
        match r {
            Ok(_) => {
                &&& final(out)@.no_duplicates()
                &&& forall|p: u64| #[trigger]
                    lists(final(out)@, p) <==> lists(old(out)@, p) || t.owns(p)
            },
            Err(e) => !old(pager).fault_free() && e matches BTreeError::Pager(PagerError::Io(_)),
        },
    decreases t,
{
    let ghost s = pager.state();
    let ghost list0 = out@;
    proof {
        lemma_held(s, t);
        lemma_held_kids(s, t);
        assert(embeds(s, t));
        lemma_lists_push(list0, id);
    }
    let node = match read_node(pager, id) {
        Ok(node) => node,
        Err(e) => {
            return Err(e);
        },
    };
    proof {
        pager.wf_state();
    }
    out.push(id);
    let ghost list1 = out@;
    let ghost kids = t.subtrees();
    match node {
        Node::Leaf { .. } => {
            proof {
                assert(t is Leaf);
                assert forall|p: u64| #[trigger] lists(out@, p) <==> lists(list0, p) || t.owns(p) by {}
            }
            Ok(())
        },
        Node::Internal { children, .. } => {
            let mut i: usize = 0;
            proof {
                assert(t is Inner);
                assert(kid_ids(kids) == children@);
                assert(kids.len() == kid_ids(kids).len());
                assert(kids.take(0) =~= Seq::empty());
                assert forall|p: u64| !some_owns(Seq::<Tree>::empty(), p) by {
                    reveal(some_owns);
                }
            }
            while i < children.len()
                invariant
                    i <= children@.len(),
                    ready(*pager),
                    pager.state() == s,
                    s == old(pager).state(),
                    old(pager).fault_free() ==> pager.fault_free(),
                    t is Inner,
                    kids == t.subtrees(),
                    kid_ids(kids) == children@,
                    kids.len() == children@.len(),
                    good(t, h, lo, hi),
                    forest(s, kids),
                    !some_owns(kids, t.id()),
                    t.id() == id.0,
                    list0 == old(out)@,
                    forall|p: u64| #[trigger] t.owns(p) ==> !lists(list0, p),
                    forall|p: u64|
                        t.owns(p) <==> p == t.id() || #[trigger] some_owns(kids, p),
                    out@.no_duplicates(),
                    forall|p: u64| #[trigger]
                        lists(out@, p) <==> lists(list0, p) || p == id.0 || some_owns(
                            kids.take(i as int),
                            p,
                        ),
                decreases children@.len() - i,
            {
                let ghost kid = kids[i as int];
                let ghost list2 = out@;
                let ghost keys = t.keys();
                proof {
                    assert(kid_ids(kids)[i as int] == children@[i as int]);
                    assert(held(s, kid));
                    assert(good(
                        kid,
                        (h - 1) as nat,
                        kid_lo(lo, keys, i as int),
                        kid_hi(keys, hi, i as int),
                    ));
                    assert(decreases_to!(t => kid));
                    assert forall|p: u64| #[trigger] kid.owns(p) implies !lists(out@, p) by {
                        lemma_some_owns(kids, i as int, p);
                        if some_owns(kids.take(i as int), p) {
                            let j = lemma_owner(kids.take(i as int), p);
                            lemma_apart(kids, i as int, j, p);
                        }
                    }
                }
                match list_pages(
                    pager,
                    children[i],
                    out,
                    Ghost(kid),
                    Ghost((h - 1) as nat),
                    Ghost(kid_lo(lo, keys, i as int)),
                    Ghost(kid_hi(keys, hi, i as int)),
                ) {
                    Ok(_) => {},
                    Err(e) => {
                        return Err(e);
                    },
                }
                proof {
                    assert(kids.take(i + 1) =~= kids.take(i as int) + seq![kid]);
                    assert forall|p: u64| #[trigger]
                        lists(out@, p) <==> lists(list0, p) || p == id.0 || some_owns(
                            kids.take(i + 1),
                            p,
                        ) by {
                        lemma_concat_own(kids.take(i as int), seq![kid], p);
                        lemma_one_owns(kid, p);
                        assert(lists(list2, p) <==> lists(list0, p) || p == id.0 || some_owns(
                            kids.take(i as int),
                            p,
                        ));
                    }
                }
                i = i + 1;
            }
            proof {
                assert(kids.take(i as int) =~= kids);
                assert forall|p: u64| #[trigger] lists(out@, p) <==> lists(list0, p) || t.owns(p) by {
                    assert(t.owns(p) <==> p == t.id() || some_owns(kids, p));
                }
            }
            Ok(())
        },
    }
}

/// The pages of the tree at `root`, each once: what a tree that is dropped gives
/// back.
pub fn pages_of<B: IoBackend>(pager: &mut Pager<B>, root: PageId) -> (r: Result<Vec<PageId>>)
    requires
        ready(*old(pager)),
        has_btree(old(pager).state(), root.0),
    ensures
        final(pager).wf(),
        final(pager).state() == old(pager).state(),
        old(pager).fault_free() ==> final(pager).fault_free(),
        match r {
            Ok(ids) => {
                &&& ids@.no_duplicates()
                &&& forall|p: u64| #[trigger]
                    lists(ids@, p) <==> tree_at(old(pager).state(), root.0).owns(p)
            },
            Err(e) => !old(pager).fault_free() && e matches BTreeError::Pager(PagerError::Io(_)),
        },
{
    let ghost t = tree_at(pager.state(), root.0);
    let mut out: Vec<PageId> = Vec::new();
    proof {
        assert(rooted(pager.state(), root.0, t));
        assert forall|p: u64| !lists(out@, p) by {}
    }
    match list_pages(
        pager,
        root,
        &mut out,
        Ghost(t),
        Ghost(t.height()),
        Ghost(None),
        Ghost(None),
    ) {
        Ok(_) => Ok(out),
        Err(e) => Err(e),
    }
}

} // verus!
