//! What becomes of trees when the store is committed, reopened or interrupted.

use vstd::prelude::*;
use crate::pager::error::Result;
use crate::pager::laws::{
    commit_recovers, committed_free_list_reads_back, committed_pages_are_read_back, flushing,
    free_list_ok, interrupted_commit_recovers, landed, lemma_rebuilt_is_sturdy, tear_shows,
};
use crate::pager::freelist::next_of;
use crate::pager::meta::{opt_number, recordable, Meta};
use crate::pager::page::sound;
use crate::pager::pager::{committed, lemma_build_keys, reopened};
use crate::pager::state::{
    all_in_range, backed, covers, flushed, kept_outside, meta_image, page_bytes, recover,
    slots_unstaged, sturdy, trunk_ids, walk, Built, PagerState,
};
use crate::common::io::written;
use crate::pager::{FIRST_DATA_PAGE, PAGE_SIZE};
use super::grow::{held, lemma_held, lemma_held_kept};
use super::insert::has_btree;
use super::model::{
    embeds, good, is_tree, kid_hi, kid_lo, lemma_embeds_frame, node_read, rooted, tree_at,
    tree_is_unique, Bound, Tree,
};
use super::store::{edits_keep_sturdy, evolves, spare, taken, usable};

verus! {

proof fn lemma_owned_reads(s: PagerState, t: Tree, h: nat, lo: Bound, hi: Bound, p: u64)
    requires
        embeds(s, t),
        good(t, h, lo, hi),
        t.owns(p),
    ensures
        node_read(s, p) is Node,
    decreases t,
{
    if let Tree::Inner { keys, kids, .. } = t {
        if p != t.id() {
            let i = choose|i: int| 0 <= i < kids.len() && (#[trigger] kids[i]).owns(p);
            lemma_owned_reads(
                s,
                kids[i],
                (h - 1) as nat,
                kid_lo(lo, keys, i),
                kid_hi(keys, hi, i),
                p,
            );
        }
    }
}

proof fn lemma_same_tree(s: PagerState, r: PagerState, root: u64)
    requires
        has_btree(s, root),
        forall|p: u64| #[trigger]
            tree_at(s, root).owns(p) ==> node_read(r, p) == node_read(s, p),
    ensures
        is_tree(r, root),
        tree_at(r, root) == tree_at(s, root),
{
    let t = tree_at(s, root);
    assert(rooted(s, root, t));
    lemma_embeds_frame(s, r, t);
    assert(rooted(r, root, t));
    let u = tree_at(r, root);
    assert(rooted(r, root, u));
    tree_is_unique(r, t, u);
}

/// The pages of a committed tree are read back.
pub proof fn lemma_read_back(s: PagerState, d: Seq<u8>, root: u64, p: u64)
    requires
        has_btree(s, root),
        tree_at(s, root).owns(p),
        s.loaded,
        s.slot <= 1,
        forall|k: u64| #[trigger]
            s.staged.contains_key(k) && k >= FIRST_DATA_PAGE ==> sound(s.staged[k], k),
        flushed(s.disk, s.meta.page_count * PAGE_SIZE, s.rebuilt().staged, d),
    ensures
        ({
            let u = s.rebuilt();
            let t = written(
                d,
                u.other_slot() * PAGE_SIZE,
                meta_image(u.next_meta(), u.other_slot()),
            );
            node_read(reopened(t, u.next_meta(), u.other_slot()), p) == node_read(s, p)
        }),
{
    let u = s.rebuilt();
    let t = written(d, u.other_slot() * PAGE_SIZE, meta_image(u.next_meta(), u.other_slot()));
    let r = reopened(t, u.next_meta(), u.other_slot());
    let tree = tree_at(s, root);
    assert(rooted(s, root, tree));
    lemma_held(s, tree);
    lemma_owned_reads(s, tree, tree.height(), None, None, p);
    assert(!spare(s).contains(p));
    committed_pages_are_read_back(s, d, p);
    assert(r.page(p) == s.page(p));
}

/// A committed tree is durable: once the store is opened again, the same tree is at
/// its root.
///
/// `s` is the state before the commit, with its free list recovered, and `d` the store
/// with the staged pages in place.
pub proof fn committed_trees_are_read_back(s: PagerState, d: Seq<u8>, root: u64)
    requires
        has_btree(s, root),
        s.loaded,
        s.slot <= 1,
        forall|k: u64| #[trigger]
            s.staged.contains_key(k) && k >= FIRST_DATA_PAGE ==> sound(s.staged[k], k),
        flushed(s.disk, s.meta.page_count * PAGE_SIZE, s.rebuilt().staged, d),
    ensures
        ({
            let u = s.rebuilt();
            let t = written(
                d,
                u.other_slot() * PAGE_SIZE,
                meta_image(u.next_meta(), u.other_slot()),
            );
            let r = reopened(t, u.next_meta(), u.other_slot());
            is_tree(r, root) && tree_at(r, root) == tree_at(s, root)
        }),
{
    let u = s.rebuilt();
    let t = written(d, u.other_slot() * PAGE_SIZE, meta_image(u.next_meta(), u.other_slot()));
    let r = reopened(t, u.next_meta(), u.other_slot());
    let tree = tree_at(s, root);
    assert forall|p: u64| #[trigger] tree.owns(p) implies node_read(r, p) == node_read(s, p) by {
        lemma_read_back(s, d, root, p);
    }
    lemma_same_tree(s, r, root);
}

/// A committed tree can be changed again once the store is opened again: it is a
/// B+tree none of whose pages is free, and the free pages are those that the commit
/// left free.
///
/// `s` is the state before the commit, with its free list recovered, and `d` the store
/// with the staged pages in place.
pub proof fn committed_trees_can_be_changed_again(s: PagerState, d: Seq<u8>, root: u64)
    requires
        has_btree(s, root),
        s.loaded,
        s.slot <= 1,
        s.meta.page_count >= FIRST_DATA_PAGE,
        s.meta.txn_id < u64::MAX,
        free_list_ok(s),
        slots_unstaged(s),
        recordable(s.rebuilt().next_meta()),
        forall|k: u64| #[trigger]
            s.staged.contains_key(k) && k >= FIRST_DATA_PAGE ==> sound(s.staged[k], k),
        flushed(s.disk, s.meta.page_count * PAGE_SIZE, s.rebuilt().staged, d),
    ensures
        ({
            let u = s.rebuilt();
            let t = written(
                d,
                u.other_slot() * PAGE_SIZE,
                meta_image(u.next_meta(), u.other_slot()),
            );
            let r = reopened(t, u.next_meta(), u.other_slot());
            has_btree(r, root) && usable(r) && tree_at(r, root) == tree_at(s, root)
        }),
{
    let u = s.rebuilt();
    let t = written(d, u.other_slot() * PAGE_SIZE, meta_image(u.next_meta(), u.other_slot()));
    let r = reopened(t, u.next_meta(), u.other_slot());
    let tree = tree_at(s, root);
    committed_trees_are_read_back(s, d, root);
    committed_free_list_reads_back(s, d);
    lemma_spare_kept(s, u, r);
    assert(rooted(s, root, tree));
    assert(rooted(r, root, tree));
    lemma_held(s, tree);
    assert(held(r, tree)) by {
        reveal(held);
        assert forall|p: u64| #[trigger] tree.owns(p) implies r.in_range(p) && !spare(r).contains(
            p,
        ) by {
            assert(!spare(s).contains(p));
        }
    }
}

/// The free pages of a reopened store were free before.
proof fn lemma_spare_kept(s: PagerState, u: PagerState, r: PagerState)
    requires
        s.loaded,
        usable(s),
        r.free_list() is Done,
        r.free_list()->Done_0.to_multiset() =~= u.free.to_multiset(),
        (u.free + u.trunks).to_multiset() =~= s.free.to_multiset(),
        r.meta.page_count == s.meta.page_count,
    ensures
        usable(r),
        forall|p: u64| #[trigger] spare(r).contains(p) ==> spare(s).contains(p),
{
    broadcast use vstd::seq_lib::group_to_multiset_ensures;

    let w = spare(r);
    let all = u.free + u.trunks;
    assert(spare(s) == s.free);
    assert forall|p: u64| #[trigger] w.contains(p) implies s.free.contains(p) by {
        assert(w.to_multiset().count(p) > 0);
        assert(u.free.contains(p));
        let i = u.free.index_of(p);
        assert(all[i] == p);
        assert(all.to_multiset().count(p) > 0);
    }
    s.free.lemma_multiset_has_no_duplicates();
    assert forall|p: u64| #[trigger] w.to_multiset().contains(p) implies w.to_multiset().count(p)
        == 1 by {
        assert(w.contains(p));
        vstd::seq_lib::lemma_multiset_commutative(u.free, u.trunks);
        assert(all.to_multiset().count(p) == u.free.to_multiset().count(p)
            + u.trunks.to_multiset().count(p));
        assert(s.free.to_multiset().contains(p));
    }
    w.lemma_multiset_has_no_duplicates_conv();
    assert forall|i: int| 0 <= i < w.len() implies r.in_range(#[trigger] w[i]) by {
        assert(w.contains(w[i]));
        let j = s.free.index_of(w[i]);
        assert(s.in_range(spare(s)[j]));
    }
}

/// A crash is harmless to what was committed: whatever of a later commit reached the
/// store before it was interrupted, a tree of the last committed state is at its root
/// as it was, once that state is the one that opening the store recovers.
///
/// `s` is the state after the last commit, with nothing staged; `s1` is the state
/// after changes to its trees; `after` is the store as the interruption left it.
pub proof fn crashes_spare_committed_trees(
    s: PagerState,
    s1: PagerState,
    n: int,
    root: u64,
    after: Seq<u8>,
    m: Meta,
    slot: u64,
)
    requires
        has_btree(s, root),
        usable(s),
        evolves(s, s1, n),
        forall|p: u64| !#[trigger] s.staged.contains_key(p),
        s.slot <= 1,
        s1.free_list() is Done,
        ({
            let u = s1.with_free(s1.free_list()->Done_0, s1.free_list()->Done_1).rebuilt();
            kept_outside(s.disk, u.staged, u.other_slot(), after)
        }),
        m.page_count == s.meta.page_count,
    ensures
        is_tree(reopened(after, m, slot), root),
        tree_at(reopened(after, m, slot), root) == tree_at(s, root),
{
    let (free, trunks) = (s1.free_list()->Done_0, s1.free_list()->Done_1);
    let f = s1.with_free(free, trunks);
    let u = f.rebuilt();
    let r = reopened(after, m, slot);
    let tree = tree_at(s, root);
    assert(rooted(s, root, tree));
    lemma_held(s, tree);
    lemma_held_kept(s, s1, n, tree);
    lemma_held(s1, tree);
    lemma_build_keys(
        free,
        Built { staged: f.staged, stored: Seq::empty(), trunks: Seq::empty(), head: 0 },
    );
    assert(u.other_slot() <= 1) by {
        reveal(evolves);
    }
    assert forall|p: u64| #[trigger] tree.owns(p) implies node_read(r, p) == node_read(s, p) by {
        lemma_owned_reads(s, tree, tree.height(), None, None, p);
        assert(!s1.staged.contains_key(p)) by {
            reveal(evolves);
        }
        assert(!spare(s1).contains(p));
        assert(!u.staged.contains_key(p));
        assert(backed(s.disk, p as int));
        assert forall|i: int| p * PAGE_SIZE <= i < p * PAGE_SIZE + PAGE_SIZE implies after[i]
            == s.disk[i] by {
            assert(i / PAGE_SIZE as int == p);
            assert(!covers(u.staged, i));
        }
        assert(page_bytes(after, p as int) =~= page_bytes(s.disk, p as int));
    }
    lemma_same_tree(s, r, root);
}

proof fn lemma_walk_grows(
    disk: Seq<u8>,
    page_count: u64,
    head: u64,
    trunks: Seq<u64>,
    free: Seq<u64>,
)
    requires
        walk(disk, page_count, head, trunks, free) is Done,
    ensures
        trunks.is_prefix_of(walk(disk, page_count, head, trunks, free)->Done_1),
        head != 0 ==> walk(disk, page_count, head, trunks, free)->Done_1.contains(head),
    decreases page_count - trunks.len(),
{
    if head != 0 {
        let page = page_bytes(disk, head as int);
        let more = trunks.push(head);
        let all = walk(disk, page_count, head, trunks, free)->Done_1;
        lemma_walk_grows(disk, page_count, next_of(page) as u64, more, free + trunk_ids(page));
        assert(all[trunks.len() as int] == more[trunks.len() as int]);
        assert(trunks =~= all.subrange(0, trunks.len() as int)) by {
            assert forall|i: int| 0 <= i < trunks.len() implies trunks[i] == all[i] by {
                assert(more[i] == all[i]);
            }
        }
    }
}

proof fn lemma_walk_range(
    disk: Seq<u8>,
    page_count: u64,
    head: u64,
    trunks: Seq<u64>,
    free: Seq<u64>,
)
    requires
        walk(disk, page_count, head, trunks, free) is Done,
        forall|i: int|
            0 <= i < trunks.len() ==> FIRST_DATA_PAGE <= #[trigger] trunks[i] < page_count
                && backed(disk, trunks[i] as int),
    ensures
        forall|i: int|
            0 <= i < walk(disk, page_count, head, trunks, free)->Done_1.len()
                ==> FIRST_DATA_PAGE <= #[trigger] walk(
                disk,
                page_count,
                head,
                trunks,
                free,
            )->Done_1[i] < page_count && backed(
                disk,
                walk(disk, page_count, head, trunks, free)->Done_1[i] as int,
            ),
    decreases page_count - trunks.len(),
{
    if head != 0 {
        let page = page_bytes(disk, head as int);
        lemma_walk_range(
            disk,
            page_count,
            next_of(page) as u64,
            trunks.push(head),
            free + trunk_ids(page),
        );
    }
}

/// Where its trunk pages are kept, a free list reads the same.
proof fn lemma_walk_kept(
    disk: Seq<u8>,
    after: Seq<u8>,
    page_count: u64,
    head: u64,
    trunks: Seq<u64>,
    free: Seq<u64>,
)
    requires
        walk(disk, page_count, head, trunks, free) is Done,
        forall|p: u64| #[trigger]
            walk(disk, page_count, head, trunks, free)->Done_1.contains(p) ==> backed(
                after,
                p as int,
            ) && page_bytes(after, p as int) == page_bytes(disk, p as int),
    ensures
        walk(after, page_count, head, trunks, free) == walk(disk, page_count, head, trunks, free),
    decreases page_count - trunks.len(),
{
    if head != 0 {
        let page = page_bytes(disk, head as int);
        lemma_walk_grows(disk, page_count, head, trunks, free);
        lemma_walk_kept(
            disk,
            after,
            page_count,
            next_of(page) as u64,
            trunks.push(head),
            free + trunk_ids(page),
        );
    }
}

/// After a crash the free list of the last committed state reads as it did.
pub proof fn lemma_crashed_list(
    s: PagerState,
    s1: PagerState,
    n: int,
    after: Seq<u8>,
    m: Meta,
    slot: u64,
)
    requires
        evolves(s, s1, n),
        forall|p: u64| !#[trigger] s.staged.contains_key(p),
        s.slot <= 1,
        s1.free_list() is Done,
        ({
            let u = s1.with_free(s1.free_list()->Done_0, s1.free_list()->Done_1).rebuilt();
            kept_outside(s.disk, u.staged, u.other_slot(), after)
        }),
        m.page_count == s.meta.page_count,
        ({
            let w = reopened(s.disk, m, slot).free_list();
            &&& w is Done
            &&& forall|p: u64| #[trigger] w->Done_1.contains(p) ==> !spare(s).contains(p)
        }),
    ensures
        reopened(after, m, slot).free_list() == reopened(s.disk, m, slot).free_list(),
{
    let w = reopened(s.disk, m, slot).free_list();
    let (free, trunks) = (s1.free_list()->Done_0, s1.free_list()->Done_1);
    let f = s1.with_free(free, trunks);
    let u = f.rebuilt();
    lemma_build_keys(
        free,
        Built { staged: f.staged, stored: Seq::empty(), trunks: Seq::empty(), head: 0 },
    );
    lemma_walk_range(s.disk, m.page_count, opt_number(m.freelist_head), Seq::empty(), Seq::empty());
    assert(u.other_slot() <= 1) by {
        reveal(evolves);
    }
    assert forall|p: u64| #[trigger] w->Done_1.contains(p) implies backed(after, p as int)
        && page_bytes(after, p as int) == page_bytes(s.disk, p as int) by {
        assert(!spare(s).contains(p));
        let i = w->Done_1.index_of(p);
        assert(w->Done_1[i] == p);
        assert(!taken(s, s1, p)) by {
            reveal(taken);
        }
        assert(!s1.staged.contains_key(p)) by {
            reveal(evolves);
        }
        assert(!spare(s1).contains(p)) by {
            reveal(evolves);
            if spare(s1).contains(p) {
                let j = spare(s1).index_of(p);
                assert(spare(s)[j] == spare(s1)[j]);
            }
        }
        assert(!u.staged.contains_key(p));
        assert forall|i: int| p * PAGE_SIZE <= i < p * PAGE_SIZE + PAGE_SIZE implies after[i]
            == s.disk[i] by {
            assert(i / PAGE_SIZE as int == p);
            assert(!covers(u.staged, i));
        }
        assert(page_bytes(after, p as int) =~= page_bytes(s.disk, p as int));
    }
    lemma_walk_kept(
        s.disk,
        after,
        m.page_count,
        opt_number(m.freelist_head),
        Seq::empty(),
        Seq::empty(),
    );
}

/// After a crash the trees of the last committed state can be changed again: the free
/// pages of the recovered store are those that the last commit recorded, and none of
/// the trees' pages is among them.
///
/// `s`, `s1` and `after` are those of [`crashes_spare_committed_trees`]. The free list
/// that was committed lists no page twice, no page that is in use since, and is itself
/// on pages that are not free.
pub proof fn crashes_leave_committed_trees_changeable(
    s: PagerState,
    s1: PagerState,
    n: int,
    root: u64,
    after: Seq<u8>,
    m: Meta,
    slot: u64,
)
    requires
        has_btree(s, root),
        usable(s),
        evolves(s, s1, n),
        forall|p: u64| !#[trigger] s.staged.contains_key(p),
        s.slot <= 1,
        s1.free_list() is Done,
        ({
            let u = s1.with_free(s1.free_list()->Done_0, s1.free_list()->Done_1).rebuilt();
            kept_outside(s.disk, u.staged, u.other_slot(), after)
        }),
        m.page_count == s.meta.page_count,
        ({
            let w = reopened(s.disk, m, slot).free_list();
            &&& w is Done
            &&& w->Done_0.no_duplicates()
            &&& forall|p: u64| #[trigger] w->Done_0.contains(p) ==> spare(s).contains(p)
            &&& forall|p: u64| #[trigger] w->Done_1.contains(p) ==> !spare(s).contains(p)
        }),
    ensures
        has_btree(reopened(after, m, slot), root),
        usable(reopened(after, m, slot)),
        tree_at(reopened(after, m, slot), root) == tree_at(s, root),
{
    let r = reopened(after, m, slot);
    let w = reopened(s.disk, m, slot).free_list();
    let tree = tree_at(s, root);
    crashes_spare_committed_trees(s, s1, n, root, after, m, slot);
    lemma_crashed_list(s, s1, n, after, m, slot);
    assert(spare(r) == w->Done_0);
    assert(usable(r)) by {
        assert forall|i: int| 0 <= i < spare(r).len() implies r.in_range(#[trigger] spare(r)[i]) by {
            assert(w->Done_0.contains(spare(r)[i]));
            let j = spare(s).index_of(spare(r)[i]);
            assert(s.in_range(spare(s)[j]));
        }
    }
    assert(rooted(s, root, tree));
    assert(rooted(r, root, tree));
    lemma_held(s, tree);
    assert(held(r, tree)) by {
        reveal(held);
        assert forall|p: u64| #[trigger] tree.owns(p) implies !spare(r).contains(p) by {
            assert(!spare(s).contains(p));
        }
    }
}

/// A tree is the same, and as free of the free list, in a state that differs only in its
/// catalog root and in whether the free list has been recovered.
proof fn lemma_rerooted(s: PagerState, v: PagerState, root: u64)
    requires
        has_btree(s, root),
        v.disk == s.disk,
        v.staged == s.staged,
        v.meta.page_count == s.meta.page_count,
        spare(v) == spare(s),
    ensures
        has_btree(v, root),
        tree_at(v, root) == tree_at(s, root),
{
    let tree = tree_at(s, root);
    assert(rooted(s, root, tree));
    lemma_held(s, tree);
    assert forall|p: u64| #[trigger] tree.owns(p) implies node_read(v, p) == node_read(s, p) by {
        assert(v.page(p) == s.page(p));
    }
    lemma_same_tree(s, v, root);
    assert(rooted(v, root, tree));
    assert(held(v, tree)) by {
        reveal(held);
    }
}

/// A commit of changed trees is all or nothing. After it, failed or not, opening the
/// store, or what a crash would leave of it, finds the last committed state, with the tree
/// at its old root as it was; or it finds the new state, with the tree at its new root as
/// it was written. A commit that succeeded is found at the new state.
///
/// `s` is the state after the last commit, with nothing staged; `s1` is the state after
/// changes to its trees, and `s2` that state with its catalog root set; `t` is what the
/// commit of `s2` left. A meta page that was written in part fails its checks.
pub proof fn commits_of_trees_are_atomic(
    s: PagerState,
    s1: PagerState,
    s2: PagerState,
    n: int,
    was: u64,
    new_root: u64,
    fault_free: bool,
    r: Result<()>,
    t: PagerState,
    after: Seq<u8>,
)
    requires
        has_btree(s, was),
        usable(s),
        sturdy(s),
        recover(s.disk) == Some((s.meta, s.slot)),
        s.durable == s.disk,
        forall|p: u64| !#[trigger] s.staged.contains_key(p),
        s.meta.page_count >= FIRST_DATA_PAGE,
        s.meta.txn_id < u64::MAX,
        evolves(s, s1, n),
        s1.free_list() is Done,
        has_btree(s1, new_root),
        forall|k: u64| #[trigger]
            s1.staged.contains_key(k) && k >= FIRST_DATA_PAGE ==> sound(s1.staged[k], k),
        s2 == (PagerState {
            meta: Meta { catalog_root: s2.meta.catalog_root, ..s1.meta },
            ..s1
        }),
        recordable(flushing(s2).next_meta()),
        committed(s2, fault_free, r, t),
        after == t.disk || after == t.durable,
        r is Err ==> tear_shows(flushing(s2), after),
    ensures
        recover(after) is Some,
        ({
            let u = flushing(s2);
            let (m, slot) = recover(after)->0;
            let now = reopened(after, m, slot);
            ||| {
                &&& r is Err
                &&& (m, slot) == (s.meta, s.slot)
                &&& is_tree(now, was)
                &&& tree_at(now, was) == tree_at(s, was)
            }
            ||| {
                &&& (m, slot) == (u.next_meta(), u.other_slot())
                &&& is_tree(now, new_root)
                &&& tree_at(now, new_root) == tree_at(s1, new_root)
            }
        }),
{
    let (free, trunks) = (s1.free_list()->Done_0, s1.free_list()->Done_1);
    assert(s2.free_list() == s1.free_list());
    let v = s2.with_free(free, trunks);
    let u = v.rebuilt();
    edits_keep_sturdy(s, s1, n);
    assert(sturdy(v)) by {
        assert(all_in_range(s1, free) && all_in_range(s1, trunks));
        assert(all_in_range(v, free) && all_in_range(v, trunks));
    }
    lemma_rebuilt_is_sturdy(v);
    assert(u.disk == s.disk && u.durable == s.disk && u.slot == s.slot && u.meta.txn_id
        == s.meta.txn_id) by {
        reveal(evolves);
    }
    let other = u.other_slot();
    if r is Ok {
        assert(landed(u, after));
    } else {
        interrupted_commit_recovers(u, t.disk, t.durable, after);
    }
    if landed(u, after) {
        let d = choose|d: Seq<u8>| #[trigger]
            flushed(u.disk, u.meta.page_count * PAGE_SIZE, u.staged, d) && after == written(
                d,
                other * PAGE_SIZE,
                meta_image(u.next_meta(), other),
            );
        commit_recovers(u, d);
        lemma_rerooted(s1, v, new_root);
        committed_trees_are_read_back(v, d, new_root);
    } else {
        let u1 = s1.with_free(free, trunks).rebuilt();
        assert(u1.staged == u.staged && u1.slot == u.slot);
        crashes_spare_committed_trees(s, s1, n, was, after, s.meta, s.slot);
    }
}

} // verus!
