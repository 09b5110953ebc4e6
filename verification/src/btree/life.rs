//! Trees through the life of a store: what changes, commits, giving back pages, reopening
//! and crashes all keep.

use vstd::prelude::*;
use crate::common::io::written;
use crate::pager::laws::{
    committed_free_list_reads_back, free_list_ok, lemma_rebuilt_splits,
};
use crate::pager::meta::recordable;
use crate::pager::page::sound;
use crate::pager::pager::{fresh, reopened};
use crate::pager::state::{flushed, kept_outside, meta_image, slots_unstaged, PagerState};
use crate::pager::{PageId, FIRST_DATA_PAGE, PAGE_SIZE};
use super::durable::{
    crashes_leave_committed_trees_changeable, lemma_crashed_list, lemma_read_back,
};
use super::grove::{balanced, lemma_planted, planted, trees_at};
use super::grow::{held, lemma_forest_kept, lemma_held, lemma_owner, lemma_some_owns, some_owns};
use super::insert::{has_btree, lemma_tree_found, lists};
use super::model::{apart, lemma_embeds_frame, node_read, rooted, tree_at};
use super::plant::{lemma_balance_beside, lemma_roots_kept};
use super::store::{evolves, logged, spare, taken, usable};

verus! {

/// The pages that the free list itself is on.
pub open spec fn list_pages(s: PagerState) -> Seq<u64> {
    s.free_list()->Done_1
}

/// Whether the free list is sound: it can be read, every page is free or in use for the
/// list at most once, and both are data pages.
pub open spec fn tidy(s: PagerState) -> bool {
    &&& s.free_list() is Done
    &&& FIRST_DATA_PAGE <= s.meta.page_count
    &&& spare(s).no_duplicates()
    &&& list_pages(s).no_duplicates()
    &&& forall|p: u64| #[trigger] spare(s).contains(p) ==> s.in_range(p)
    &&& forall|p: u64| #[trigger]
        list_pages(s).contains(p) ==> s.in_range(p) && !spare(s).contains(p)
}

/// Whether there are B+trees at these roots, apart from each other and from the free
/// list: what every change to a store keeps.
pub open spec fn alive(s: PagerState, roots: Seq<PageId>) -> bool {
    &&& tidy(s)
    &&& planted(s, roots)
    &&& forall|p: u64| #[trigger] some_owns(trees_at(s, roots), p) ==> !list_pages(s).contains(p)
}

/// Whether these pages can be given back: each is a data page, once, that is neither
/// free nor in use.
pub open spec fn idle(s: PagerState, roots: Seq<PageId>, ids: Seq<PageId>) -> bool {
    &&& ids.no_duplicates()
    &&& forall|p: u64| #[trigger]
        lists(ids, p) ==> s.in_range(p) && !spare(s).contains(p) && !list_pages(s).contains(p)
            && !some_owns(trees_at(s, roots), p)
}

/// Whether nothing is staged and the free list in the store is the one that was
/// committed last: it lists pages that are free since, and is on the pages that it is
/// known to be on.
pub open spec fn settled(s: PagerState) -> bool {
    let stored = reopened(s.disk, s.meta, s.slot);
    &&& forall|p: u64| !#[trigger] s.staged.contains_key(p)
    &&& stored.free_list() is Done
    &&& spare(stored).no_duplicates()
    &&& list_pages(stored).no_duplicates()
    &&& forall|p: u64| #[trigger] spare(stored).contains(p) ==> spare(s).contains(p)
    &&& forall|p: u64| #[trigger] list_pages(stored).contains(p) ==> list_pages(s).contains(p)
}

proof fn lemma_tidy(s: PagerState)
    requires
        tidy(s),
    ensures
        usable(s),
{
    assert forall|i: int| 0 <= i < spare(s).len() implies s.in_range(#[trigger] spare(s)[i]) by {
        assert(spare(s).contains(spare(s)[i]));
    }
}

/// A page that was handed out is a data page, not free any more and not one that the
/// free list is on.
proof fn lemma_taken(s: PagerState, s2: PagerState, n: int, p: u64)
    requires
        tidy(s),
        evolves(s, s2, n),
        taken(s, s2, p),
    ensures
        s2.in_range(p),
        !spare(s2).contains(p),
        !list_pages(s2).contains(p),
{
    reveal(evolves);
    reveal(taken);
}

/// Changes to trees keep a store alive, and the pages that they no longer need can be
/// given back.
pub proof fn changes_keep_stores_alive(
    s: PagerState,
    s2: PagerState,
    n: int,
    olds: Seq<PageId>,
    freed: Seq<PageId>,
    news: Seq<PageId>,
)
    requires
        alive(s, olds),
        evolves(s, s2, n),
        planted(s2, news),
        balanced(s, s2, trees_at(s, olds), freed, trees_at(s2, news)),
    ensures
        alive(s2, news),
        idle(s2, news, freed),
{
    let a = trees_at(s, olds);
    let b = trees_at(s2, news);
    lemma_planted(s, olds);
    lemma_forest_kept(s, s2, n, a);
    assert(tidy(s2)) by {
        reveal(evolves);
        let f = spare(s);
        let f2 = spare(s2);
        assert forall|i: int, j: int| 0 <= i < j < f2.len() implies f2[i] != f2[j] by {
            assert(f[i] == f2[i] && f[j] == f2[j]);
        }
        assert forall|p: u64| #[trigger] f2.contains(p) implies f.contains(p) by {
            let i = f2.index_of(p);
            assert(f[i] == f2[i]);
        }
    }
    assert forall|p: u64| some_owns(a, p) || taken(s, s2, p) implies s2.in_range(p) && !spare(
        s2,
    ).contains(p) && !list_pages(s2).contains(p) by {
        if some_owns(a, p) {
            let i = lemma_owner(a, p);
            lemma_held(s2, a[i]);
            assert(list_pages(s2) == list_pages(s)) by {
                reveal(evolves);
            }
        } else {
            lemma_taken(s, s2, n, p);
        }
    }
    assert forall|p: u64| #[trigger] some_owns(b, p) implies !list_pages(s2).contains(p) by {
        assert(lists(freed, p) || some_owns(b, p) <==> some_owns(a, p) || taken(s, s2, p));
    }
    assert forall|p: u64| #[trigger] lists(freed, p) implies s2.in_range(p) && !spare(s2).contains(
        p,
    ) && !list_pages(s2).contains(p) && !some_owns(b, p) by {
        assert(lists(freed, p) || some_owns(b, p) <==> some_owns(a, p) || taken(s, s2, p));
        assert(some_owns(b, p) ==> !lists(freed, p));
    }
}

/// Changes to some trees spare all others: they are as they were, the store stays
/// alive, and the pages that are no longer needed can be given back.
pub proof fn changes_spare_the_trees_beside(
    s: PagerState,
    s2: PagerState,
    n: int,
    beside: Seq<PageId>,
    olds: Seq<PageId>,
    freed: Seq<PageId>,
    news: Seq<PageId>,
)
    requires
        alive(s, beside + olds),
        evolves(s, s2, n),
        planted(s2, news),
        balanced(s, s2, trees_at(s, olds), freed, trees_at(s2, news)),
    ensures
        alive(s2, beside + news),
        trees_at(s2, beside) == trees_at(s, beside),
        idle(s2, beside + news, freed),
{
    lemma_tidy(s);
    lemma_balance_beside(s, s2, n, beside, olds, news, freed);
    changes_keep_stores_alive(s, s2, n, beside + olds, freed, beside + news);
}

/// What a rejected transaction allocated can be given back: where allocations were
/// recorded from its start, the trees that were there are as they were, and the
/// recording lists exactly the pages that it took.
pub proof fn rejected_changes_can_be_given_back(
    s: PagerState,
    s2: PagerState,
    n: int,
    roots: Seq<PageId>,
)
    requires
        alive(s, roots),
        s.log == Some(Seq::<PageId>::empty()),
        evolves(s, s2, n),
    ensures
        s2.log is Some,
        alive(s2, roots),
        trees_at(s2, roots) == trees_at(s, roots),
        idle(s2, roots, s2.log->Some_0),
        forall|p: u64| #[trigger] lists(s2.log->Some_0, p) <==> taken(s, s2, p),
{
    let trees = trees_at(s, roots);
    let log = s2.log->Some_0;
    lemma_tidy(s);
    lemma_roots_kept(s, s2, n, roots);
    lemma_planted(s, roots);
    lemma_forest_kept(s, s2, n, trees);
    assert(logged(s, s2)) by {
        reveal(evolves);
    }
    assert(log.skip(0) =~= log);
    assert(s2.log is Some && log.no_duplicates()) by {
        reveal(logged);
    }
    assert forall|p: u64| #[trigger] lists(log, p) <==> taken(s, s2, p) by {
        reveal(logged);
    }
    assert forall|p: u64|
        #![trigger lists(log, p)]
        #![trigger some_owns(trees, p)]
        lists(log, p) || some_owns(trees, p) <==> some_owns(trees, p) || taken(s, s2, p) by {}
    changes_keep_stores_alive(s, s2, n, roots, log, roots);
}

/// Where their pages read the same and are not free, trees are where they were.
proof fn lemma_planted_frame(s: PagerState, t: PagerState, roots: Seq<PageId>)
    requires
        planted(s, roots),
        forall|p: u64| #[trigger]
            some_owns(trees_at(s, roots), p) ==> node_read(t, p) == node_read(s, p) && t.in_range(p)
                && !spare(t).contains(p),
    ensures
        planted(t, roots),
        trees_at(t, roots) == trees_at(s, roots),
{
    let trees = trees_at(s, roots);
    assert forall|i: int| 0 <= i < roots.len() implies has_btree(t, (#[trigger] roots[i]).0)
        && tree_at(t, roots[i].0) == tree_at(s, roots[i].0) by {
        let tree = tree_at(s, roots[i].0);
        assert(has_btree(s, roots[i].0));
        assert(rooted(s, roots[i].0, tree));
        lemma_held(s, tree);
        assert forall|p: u64| #[trigger] tree.owns(p) implies node_read(t, p) == node_read(s, p)
            && t.in_range(p) && !spare(t).contains(p) by {
            lemma_some_owns(trees, i, p);
        }
        lemma_embeds_frame(s, t, tree);
        assert(held(t, tree)) by {
            reveal(held);
        }
        lemma_tree_found(t, roots[i].0, tree);
    }
    assert(trees_at(t, roots) =~= trees);
}

/// A commit keeps a store alive: the trees are where they were, on pages that the new
/// free list leaves alone. What could be given back still can.
///
/// `s` is the state before the commit, with its free list recovered, and `d` the store
/// with the staged pages in place.
pub proof fn commits_keep_stores_alive(
    s: PagerState,
    d: Seq<u8>,
    roots: Seq<PageId>,
    ids: Seq<PageId>,
)
    requires
        alive(s, roots),
        idle(s, roots, ids),
        s.loaded,
        s.slot <= 1,
        forall|k: u64| #[trigger]
            s.staged.contains_key(k) && k >= FIRST_DATA_PAGE ==> sound(s.staged[k], k),
        flushed(s.disk, s.meta.page_count * PAGE_SIZE, s.rebuilt().staged, d),
    ensures
        ({
            let u = s.rebuilt();
            let t = u.promoted(
                written(
                    d,
                    u.other_slot() * PAGE_SIZE,
                    meta_image(u.next_meta(), u.other_slot()),
                ),
                s.trunks,
            );
            &&& alive(t, roots)
            &&& trees_at(t, roots) == trees_at(s, roots)
            &&& idle(t, roots, ids)
        }),
{
    let u = s.rebuilt();
    let disk = written(d, u.other_slot() * PAGE_SIZE, meta_image(u.next_meta(), u.other_slot()));
    let t = u.promoted(disk, s.trunks);
    let r = reopened(disk, u.next_meta(), u.other_slot());
    let trees = trees_at(s, roots);
    lemma_list_split(s);
    assert forall|p: u64| #[trigger] some_owns(trees, p) implies node_read(t, p) == node_read(s, p)
        && t.in_range(p) && !spare(t).contains(p) && !list_pages(t).contains(p) by {
        let i = lemma_owner(trees, p);
        let tree = trees[i];
        assert(has_btree(s, roots[i].0));
        assert(rooted(s, roots[i].0, tree));
        lemma_held(s, tree);
        lemma_read_back(s, d, roots[i].0, p);
        assert(node_read(t, p) == node_read(r, p));
    }
    lemma_planted_frame(s, t, roots);
}

/// A commit splits the free pages into those that it lists and those that it lists them
/// on; the pages that the earlier list was on become free.
proof fn lemma_list_split(s: PagerState)
    requires
        tidy(s),
        s.loaded,
    ensures
        ({
            let u = s.rebuilt();
            let free = u.free + s.trunks;
            &&& free.no_duplicates()
            &&& u.trunks.no_duplicates()
            &&& forall|p: u64| #[trigger]
                free.contains(p) ==> s.free.contains(p) || s.trunks.contains(p)
            &&& forall|p: u64| #[trigger]
                u.trunks.contains(p) ==> s.free.contains(p) && !free.contains(p)
        }),
{
    broadcast use vstd::seq_lib::group_to_multiset_ensures;

    let u = s.rebuilt();
    let all = u.free + u.trunks;
    let free = u.free + s.trunks;
    lemma_rebuilt_splits(s);
    assert(spare(s) == s.free && list_pages(s) == s.trunks);
    assert(all.no_duplicates()) by {
        s.free.lemma_multiset_has_no_duplicates();
        all.lemma_multiset_has_no_duplicates_conv();
    }
    assert forall|p: u64| all.contains(p) implies s.free.contains(p) by {
        assert(all.to_multiset().count(p) > 0);
    }
    assert forall|p: u64| #[trigger] u.free.contains(p) implies all.contains(p) by {
        let i = u.free.index_of(p);
        assert(all[i] == p);
    }
    assert forall|p: u64| #[trigger] u.trunks.contains(p) implies all.contains(p)
        && !u.free.contains(p) by {
        let i = u.trunks.index_of(p);
        assert(all[u.free.len() + i] == p);
        if u.free.contains(p) {
            let j = u.free.index_of(p);
            assert(all[j] == p);
        }
    }
    assert forall|i: int, j: int| 0 <= i < j < u.trunks.len() implies u.trunks[i]
        != u.trunks[j] by {
        assert(all[u.free.len() + i] == u.trunks[i] && all[u.free.len() + j] == u.trunks[j]);
    }
    assert forall|i: int, j: int| 0 <= i < j < free.len() implies free[i] != free[j] by {
        let n = u.free.len() as int;
        if j < n {
            assert(all[i] == free[i] && all[j] == free[j]);
        } else if i >= n {
            assert(s.trunks[i - n] == free[i] && s.trunks[j - n] == free[j]);
        } else {
            assert(u.free.contains(free[i]));
            assert(s.trunks.contains(free[j])) by {
                assert(s.trunks[j - n] == free[j]);
            }
        }
    }
    assert forall|p: u64| #[trigger] free.contains(p) implies u.free.contains(p)
        || s.trunks.contains(p) by {
        let i = free.index_of(p);
        if i < u.free.len() {
            assert(u.free[i] == p);
        } else {
            assert(s.trunks[i - u.free.len()] == p);
        }
    }
}

/// A new store is alive.
pub proof fn fresh_stores_are_alive(before: Seq<u8>)
    ensures
        alive(fresh(before), Seq::empty()),
{
    let s = fresh(before);
    let none = trees_at(s, Seq::empty());
    assert(apart(none)) by {
        reveal(apart);
    }
    assert forall|p: u64| !#[trigger] some_owns(none, p) by {
        reveal(some_owns);
    }
}

/// A committed store that is opened again is alive: its trees are where they were, on
/// pages that its free list leaves alone.
///
/// `s` is the state before the commit, with its free list recovered, and `d` the store
/// with the staged pages in place.
pub proof fn reopened_stores_are_alive(s: PagerState, d: Seq<u8>, roots: Seq<PageId>)
    requires
        alive(s, roots),
        s.loaded,
        s.slot <= 1,
        s.meta.txn_id < u64::MAX,
        slots_unstaged(s),
        recordable(s.rebuilt().next_meta()),
        forall|k: u64| #[trigger]
            s.staged.contains_key(k) && k >= FIRST_DATA_PAGE ==> sound(s.staged[k], k),
        flushed(s.disk, s.meta.page_count * PAGE_SIZE, s.rebuilt().staged, d),
    ensures
        ({
            let u = s.rebuilt();
            let t = written(
                d,
                u.other_slot() * PAGE_SIZE,
                meta_image(u.next_meta(), u.other_slot()),
            );
            let r = reopened(t, u.next_meta(), u.other_slot());
            alive(r, roots) && trees_at(r, roots) == trees_at(s, roots)
        }),
{
    let u = s.rebuilt();
    let t = written(d, u.other_slot() * PAGE_SIZE, meta_image(u.next_meta(), u.other_slot()));
    let r = reopened(t, u.next_meta(), u.other_slot());
    let trees = trees_at(s, roots);
    lemma_stored_list(s, d);
    assert forall|p: u64| #[trigger] some_owns(trees, p) implies node_read(r, p) == node_read(s, p)
        && r.in_range(p) && !spare(r).contains(p) && !list_pages(r).contains(p) by {
        let i = lemma_owner(trees, p);
        assert(has_btree(s, roots[i].0));
        lemma_held(s, trees[i]);
        lemma_read_back(s, d, roots[i].0, p);
    }
    lemma_planted_frame(s, r, roots);
}

/// A commit settles the store: what a crash would recover is what it recorded.
///
/// `s` is the state before the commit, with its free list recovered, and `d` the store
/// with the staged pages in place.
pub proof fn commits_settle_the_store(s: PagerState, d: Seq<u8>)
    requires
        tidy(s),
        s.loaded,
        s.slot <= 1,
        s.meta.txn_id < u64::MAX,
        slots_unstaged(s),
        recordable(s.rebuilt().next_meta()),
        flushed(s.disk, s.meta.page_count * PAGE_SIZE, s.rebuilt().staged, d),
    ensures
        ({
            let u = s.rebuilt();
            settled(
                u.promoted(
                    written(
                        d,
                        u.other_slot() * PAGE_SIZE,
                        meta_image(u.next_meta(), u.other_slot()),
                    ),
                    s.trunks,
                ),
            )
        }),
{
    let u = s.rebuilt();
    let disk = written(d, u.other_slot() * PAGE_SIZE, meta_image(u.next_meta(), u.other_slot()));
    let t = u.promoted(disk, s.trunks);
    let r = reopened(disk, u.next_meta(), u.other_slot());
    lemma_stored_list(s, d);
    assert forall|p: u64| #[trigger] spare(r).contains(p) implies spare(t).contains(p) by {
        let i = u.free.index_of(p);
        assert(spare(t)[i] == p);
    }
}

/// What the free list that a commit stores reads as.
proof fn lemma_stored_list(s: PagerState, d: Seq<u8>)
    requires
        tidy(s),
        s.loaded,
        s.slot <= 1,
        s.meta.txn_id < u64::MAX,
        slots_unstaged(s),
        recordable(s.rebuilt().next_meta()),
        flushed(s.disk, s.meta.page_count * PAGE_SIZE, s.rebuilt().staged, d),
    ensures
        ({
            let u = s.rebuilt();
            let t = written(
                d,
                u.other_slot() * PAGE_SIZE,
                meta_image(u.next_meta(), u.other_slot()),
            );
            let r = reopened(t, u.next_meta(), u.other_slot());
            &&& tidy(r)
            &&& forall|p: u64| #[trigger] spare(r).contains(p) <==> u.free.contains(p)
            &&& forall|p: u64| #[trigger] list_pages(r).contains(p) ==> u.trunks.contains(p)
            &&& forall|p: u64| #[trigger] u.free.contains(p) ==> s.free.contains(p)
            &&& forall|p: u64| #[trigger] u.trunks.contains(p) ==> s.free.contains(p)
        }),
{
    broadcast use vstd::seq_lib::group_to_multiset_ensures;

    let u = s.rebuilt();
    let t = written(d, u.other_slot() * PAGE_SIZE, meta_image(u.next_meta(), u.other_slot()));
    let r = reopened(t, u.next_meta(), u.other_slot());
    let w0 = spare(r);
    let w1 = list_pages(r);
    lemma_tidy(s);
    assert(free_list_ok(s));
    committed_free_list_reads_back(s, d);
    lemma_list_split(s);
    lemma_rebuilt_splits(s);
    assert(w1 =~= u.trunks.reverse());
    assert forall|p: u64| #[trigger] w0.contains(p) <==> u.free.contains(p) by {
        assert(w0.to_multiset().count(p) == u.free.to_multiset().count(p));
    }
    assert(w0.no_duplicates()) by {
        let all = u.free + s.trunks;
        assert forall|i: int, j: int| 0 <= i < j < u.free.len() implies u.free[i] != u.free[j] by {
            assert(all[i] == u.free[i] && all[j] == u.free[j]);
        }
        u.free.lemma_multiset_has_no_duplicates();
        w0.lemma_multiset_has_no_duplicates_conv();
    }
    assert forall|p: u64| #[trigger] w1.contains(p) implies u.trunks.contains(p) by {
        let i = w1.index_of(p);
        assert(u.trunks[u.trunks.len() - 1 - i] == p);
    }
    assert(w1.no_duplicates());
    assert forall|p: u64| #[trigger] u.free.contains(p) implies (u.free + s.trunks).contains(p)
        && s.free.contains(p) by {
        let i = u.free.index_of(p);
        assert((u.free + s.trunks)[i] == p);
        let all = u.free + u.trunks;
        assert(all[i] == p);
        assert(all.to_multiset().count(p) > 0);
    }
}

/// A store that crashed is alive once it is opened again at its last committed state,
/// whatever of a later commit reached it: the trees are where they were.
///
/// `s` is the state after the last commit; `s1` is the state after changes to its
/// trees; `after` is the store as the interruption left it.
pub proof fn crashed_stores_are_alive(
    s: PagerState,
    s1: PagerState,
    n: int,
    roots: Seq<PageId>,
    after: Seq<u8>,
)
    requires
        alive(s, roots),
        settled(s),
        evolves(s, s1, n),
        s.slot <= 1,
        s1.free_list() is Done,
        ({
            let u = s1.with_free(s1.free_list()->Done_0, s1.free_list()->Done_1).rebuilt();
            kept_outside(s.disk, u.staged, u.other_slot(), after)
        }),
    ensures
        alive(reopened(after, s.meta, s.slot), roots),
        trees_at(reopened(after, s.meta, s.slot), roots) == trees_at(s, roots),
{
    let r = reopened(after, s.meta, s.slot);
    let trees = trees_at(s, roots);
    lemma_tidy(s);
    assert forall|i: int| 0 <= i < roots.len() implies has_btree(r, (#[trigger] roots[i]).0)
        && tree_at(r, roots[i].0) == tree_at(s, roots[i].0) by {
        assert(has_btree(s, roots[i].0));
        crashes_leave_committed_trees_changeable(s, s1, n, roots[i].0, after, s.meta, s.slot);
    }
    assert(trees_at(r, roots) =~= trees);
    lemma_crashed_list(s, s1, n, after, s.meta, s.slot);
}

/// Giving back a page that no tree needs keeps a store alive: the page becomes free, the
/// trees are where they were, and the other pages can still be given back.
pub proof fn pages_can_be_given_back(s: PagerState, roots: Seq<PageId>, ids: Seq<PageId>)
    requires
        alive(s, roots),
        idle(s, roots, ids),
        ids.len() > 0,
    ensures
        ({
            let t = s.with_free(spare(s).push(ids.last().0), list_pages(s));
            &&& alive(t, roots)
            &&& trees_at(t, roots) == trees_at(s, roots)
            &&& idle(t, roots, ids.drop_last())
        }),
{
    let id = ids.last();
    let p = id.0;
    let rest = ids.drop_last();
    let t = s.with_free(spare(s).push(p), list_pages(s));
    let trees = trees_at(s, roots);
    assert(lists(ids, p)) by {
        assert(ids[ids.len() - 1] == PageId(p));
    }
    assert forall|q: u64| #[trigger] spare(t).contains(q) implies spare(s).contains(q) || q == p by {
        let j = spare(t).index_of(q);
        if j < spare(s).len() {
            assert(spare(s)[j] == q);
        }
    }
    assert(tidy(t)) by {
        assert forall|a: int, b: int| 0 <= a < b < spare(t).len() implies spare(t)[a]
            != spare(t)[b] by {
            assert(spare(t)[a] == spare(s)[a]);
            if b == spare(s).len() {
                assert(spare(s).contains(spare(s)[a]));
            }
        }
    }
    assert forall|q: u64| #[trigger] some_owns(trees, q) implies node_read(t, q) == node_read(s, q)
        && t.in_range(q) && !spare(t).contains(q) by {
        let j = lemma_owner(trees, q);
        assert(has_btree(s, roots[j].0));
        lemma_held(s, trees[j]);
    }
    lemma_planted_frame(s, t, roots);
    assert forall|q: u64| #[trigger] lists(rest, q) implies lists(ids, q) && q != p by {
        let j = rest.index_of(PageId(q));
        assert(ids[j] == PageId(q));
        assert(ids[ids.len() - 1] == id);
    }
}

} // verus!
