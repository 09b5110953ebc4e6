//! The committed free list over a run of operations: an audited list holds no page twice,
//! and as long as nothing but what was handed out is written or freed, the pages that the
//! list is on stay as they were committed.

use vstd::prelude::*;
use super::freelist::{count_of, id_of, next_of};
use super::laws::{
    anchored, commit_recovers, commits_anchor, committed_free_list_reads_back, flushing,
    fresh_database_recovers, interrupted_commit_recovers, landed, lemma_fresh_is_sturdy,
    lemma_rebuilt_is_sturdy, stepped, tear_shows, went, Step,
};
use super::meta::{opt_number, recordable};
use super::page::{FIRST_DATA_PAGE, PAGE_SIZE};
use super::error::Result;
use super::pager::{committed, fresh, lemma_build_keys, reopened};
use super::state::{
    all_in_range, audit, backed, check_chain, check_ids, covers, flushed, meta_image, page_bytes,
    recover, sturdy, trunk_ids, walk, Audit, Built, PagerState, Walked,
};
use crate::common::io::written;

verus! {

/// What passing the check means for the entries of a trunk page: data pages, each once and
/// none seen before.
proof fn lemma_checked_ids(page: Seq<u8>, page_count: u64, i: nat, seen: Set<u64>)
    requires
        i <= count_of(page),
        check_ids(page, page_count, i, seen) is Ok,
    ensures
        ({
            let ids = trunk_ids(page).skip(i as int);
            &&& ids.no_duplicates()
            &&& forall|k: int| 0 <= k < ids.len() ==> FIRST_DATA_PAGE <= #[trigger] ids[k]
                < page_count && !seen.contains(ids[k])
            &&& forall|p: u64| #[trigger]
                check_ids(page, page_count, i, seen)->Ok_0.contains(p) <==> seen.contains(p)
                    || ids.contains(p)
        }),
    decreases count_of(page) - i,
{
    let all = trunk_ids(page);
    let ids = all.skip(i as int);
    if i < count_of(page) {
        let e = id_of(page, i as int) as u64;
        assert(all[i as int] == e);
        let rest = all.skip(i as int + 1);
        lemma_checked_ids(page, page_count, i + 1, seen.insert(e));
        assert(ids[0] == e);
        assert forall|k: int| 1 <= k < ids.len() implies #[trigger] ids[k] == rest[k - 1] by {}
        assert forall|k: int| 0 <= k < ids.len() implies FIRST_DATA_PAGE <= #[trigger] ids[k]
            < page_count && !seen.contains(ids[k]) by {
            if k > 0 {
                assert(ids[k] == rest[k - 1]);
            }
        }
        assert forall|a: int, b: int| 0 <= a < b < ids.len() implies ids[a] != ids[b] by {
            assert(ids[b] == rest[b - 1]);
            if a > 0 {
                assert(ids[a] == rest[a - 1]);
            } else {
                assert(seen.insert(e).contains(e));
            }
        }
        assert forall|p: u64| #[trigger]
            check_ids(page, page_count, i, seen)->Ok_0.contains(p) <==> seen.contains(p)
                || ids.contains(p) by {
            if ids.contains(p) && p != e {
                let q = ids.index_of(p);
                assert(rest[q - 1] == p);
            }
            if rest.contains(p) {
                assert(ids[rest.index_of(p) + 1] == p);
            }
            if p == e {
                assert(ids.contains(p));
            }
        }
    }
}

proof fn lemma_checked_chain(
    disk: Seq<u8>,
    page_count: u64,
    head: u64,
    seen: Set<u64>,
    stored: nat,
    trunks: Seq<u64>,
    free: Seq<u64>,
)
    requires
        check_chain(disk, page_count, head, seen, stored, trunks.len()) is Done,
        (free + trunks).no_duplicates(),
        forall|p: u64| #[trigger] seen.contains(p) <==> (free + trunks).contains(p),
        forall|i: int|
            0 <= i < (free + trunks).len() ==> FIRST_DATA_PAGE <= #[trigger] (free + trunks)[i]
                < page_count,
    ensures
        ({
            let w = walk(disk, page_count, head, trunks, free);
            &&& w is Done
            &&& (w->Done_0 + w->Done_1).no_duplicates()
            &&& forall|i: int|
                0 <= i < (w->Done_0 + w->Done_1).len() ==> FIRST_DATA_PAGE <= #[trigger] (w->Done_0
                    + w->Done_1)[i] < page_count
        }),
    decreases page_count - trunks.len(),
{
    if head != 0 {
        let page = page_bytes(disk, head as int);
        let ids = trunk_ids(page);
        let seen1 = seen.insert(head);
        let all = check_ids(page, page_count, 0, seen1)->Ok_0;
        lemma_checked_ids(page, page_count, 0, seen1);
        assert(ids.skip(0) =~= ids);
        let old_list = free + trunks;
        let free1 = free + ids;
        let trunks1 = trunks.push(head);
        let list = free1 + trunks1;
        if trunks.contains(head) {
            let q = trunks.index_of(head);
            assert(old_list[free.len() + q] == head);
            assert(old_list.contains(head));
        }
        // Where each element of the longer list comes from.
        assert forall|i: int| 0 <= i < list.len() implies (#[trigger] list[i] == head && i
            == list.len() - 1) || (free.len() <= i < free1.len() && list[i] == ids[i - free.len()])
            || (i < free.len() && list[i] == old_list[i]) || (free1.len() <= i < list.len() - 1
            && list[i] == old_list[i - ids.len()]) by {}
        assert forall|i: int| 0 <= i < list.len() implies FIRST_DATA_PAGE <= #[trigger] list[i]
            < page_count by {
            if free.len() <= i < free1.len() {
                assert(ids[i - free.len()] == list[i]);
            }
        }
        assert(list.no_duplicates()) by {
            assert forall|i: int, j: int| 0 <= i < j < list.len() implies list[i] != list[j] by {
                lemma_list_apart(free, trunks, ids, head, i, j, seen);
            }
        }
        assert forall|p: u64| #[trigger] all.contains(p) <==> list.contains(p) by {
            if all.contains(p) {
                if p == head {
                    assert(list[list.len() - 1] == p);
                } else if ids.contains(p) {
                    assert(list[free.len() + ids.index_of(p)] == p);
                } else {
                    assert(old_list.contains(p));
                    let q = old_list.index_of(p);
                    if q < free.len() {
                        assert(list[q] == p);
                    } else {
                        assert(list[q + ids.len()] == p);
                    }
                }
            }
            if list.contains(p) {
                let q = list.index_of(p);
                if free.len() <= q < free1.len() {
                    assert(ids[q - free.len()] == p);
                    assert(ids.contains(p));
                } else if q < free.len() {
                    assert(old_list[q] == p);
                    assert(old_list.contains(p));
                } else if q < list.len() - 1 {
                    assert(old_list[q - ids.len()] == p);
                    assert(old_list.contains(p));
                }
            }
        }
        lemma_checked_chain(
            disk,
            page_count,
            next_of(page) as u64,
            all,
            stored + count_of(page),
            trunks1,
            free1,
        );
    }
}

proof fn lemma_list_apart(
    free: Seq<u64>,
    trunks: Seq<u64>,
    ids: Seq<u64>,
    head: u64,
    i: int,
    j: int,
    seen: Set<u64>,
)
    requires
        (free + trunks).no_duplicates(),
        ids.no_duplicates(),
        !seen.contains(head),
        forall|p: u64| #[trigger] seen.contains(p) <==> (free + trunks).contains(p),
        forall|k: int|
            0 <= k < ids.len() ==> !seen.contains(#[trigger] ids[k]) && ids[k] != head,
        0 <= i < j < free.len() + ids.len() + trunks.len() + 1,
    ensures
        (free + ids + trunks.push(head))[i] != (free + ids + trunks.push(head))[j],
{
    let old_list = free + trunks;
    let list = free + ids + trunks.push(head);
    let n = free.len() + ids.len();
    // What the old list held was seen.
    assert forall|k: int| 0 <= k < old_list.len() implies seen.contains(#[trigger] old_list[k]) by {
        assert(old_list.contains(old_list[k]));
    }
    let a = if i < free.len() {
        i
    } else {
        i - ids.len()
    };
    let b = if j < free.len() {
        j
    } else {
        j - ids.len()
    };
    if j == list.len() - 1 {
        assert(list[j] == head);
        if free.len() <= i < n {
            assert(list[i] == ids[i - free.len()]);
        } else {
            assert(list[i] == old_list[a]);
        }
    } else if free.len() <= j < n {
        assert(list[j] == ids[j - free.len()]);
        if free.len() <= i {
            assert(list[i] == ids[i - free.len()]);
        } else {
            assert(list[i] == old_list[i]);
        }
    } else {
        assert(list[j] == old_list[b]);
        if free.len() <= i < n {
            assert(list[i] == ids[i - free.len()]);
        } else {
            assert(list[i] == old_list[a]);
        }
    }
}

/// A committed state that passes its audit has a free list that can be recovered, of data
/// pages, in which no page occurs twice, be it as a free page or as one the list is on.
pub proof fn audited_free_lists_hold_no_page_twice(s: PagerState)
    requires
        audit(s) is Sound,
        !s.loaded,
    ensures
        s.free_list() matches Walked::Done(free, trunks) && (free + trunks).no_duplicates()
            && all_in_range(s, free) && all_in_range(s, trunks),
{
    let none = Seq::<u64>::empty();
    lemma_checked_chain(
        s.disk,
        s.meta.page_count,
        opt_number(s.meta.freelist_head),
        Set::empty(),
        0,
        none,
        none,
    );
    let (free, trunks) = (s.free_list()->Done_0, s.free_list()->Done_1);
    let both = free + trunks;
    assert forall|i: int| 0 <= i < free.len() implies s.in_range(#[trigger] free[i]) by {
        assert(both[i] == free[i]);
    }
    assert forall|i: int| 0 <= i < trunks.len() implies s.in_range(#[trigger] trunks[i]) by {
        assert(both[free.len() + i] == trunks[i]);
    }
}

/// The state that opening a store gives, its committed state being recoverable.
pub open spec fn opened(disk: Seq<u8>) -> PagerState {
    let (m, slot) = recover(disk)->0;
    reopened(disk, m, slot)
}

/// Whether none of `pages` is staged or free.
pub open spec fn spares(staged: Map<u64, Seq<u8>>, free: Seq<u64>, pages: Seq<u64>) -> bool {
    forall|i: int|
        0 <= i < pages.len() ==> !staged.contains_key(#[trigger] pages[i]) && !free.contains(
            pages[i],
        )
}

/// Whether the committed free list of a database is consistent and out of the way of what
/// is staged: no page is listed twice, and none that the committed list is on is staged or
/// free.
pub open spec fn orderly(s: PagerState) -> bool {
    &&& recover(s.disk) is Some
    &&& audit(opened(s.disk)) is Sound
    &&& s.free_list() matches Walked::Done(free, trunks) && (free + trunks).no_duplicates()
        && spares(s.staged, free, opened(s.disk).free_list()->Done_1)
}

proof fn lemma_free_once(free: Seq<u64>, trunks: Seq<u64>)
    requires
        (free + trunks).no_duplicates(),
    ensures
        free.no_duplicates(),
{
    let both = free + trunks;
    assert forall|i: int, j: int| 0 <= i < j < free.len() implies free[i] != free[j] by {
        assert(both[i] == free[i] && both[j] == free[j]);
    }
}

/// Checking entries keeps what has been seen.
proof fn lemma_check_ids_keep(page: Seq<u8>, page_count: u64, i: nat, seen: Set<u64>)
    ensures
        check_ids(page, page_count, i, seen) matches Ok(all) ==> seen.subset_of(all),
    decreases count_of(page) - i,
{
    let entry = id_of(page, i as int) as u64;
    if i < count_of(page) && FIRST_DATA_PAGE <= entry < page_count && !seen.contains(entry) {
        lemma_check_ids_keep(page, page_count, i + 1, seen.insert(entry));
    }
}

/// Whether page `id` of `after` is the one that `disk` holds.
pub open spec fn same_page(disk: Seq<u8>, after: Seq<u8>, id: u64) -> bool {
    backed(after, id as int) && page_bytes(after, id as int) == page_bytes(disk, id as int)
}

/// A chain that checks out can be walked, and checks out in every store that holds the
/// same pages of it.
proof fn lemma_chain_kept(
    disk: Seq<u8>,
    after: Seq<u8>,
    page_count: u64,
    head: u64,
    seen: Set<u64>,
    stored: nat,
    trunks: Seq<u64>,
    free: Seq<u64>,
)
    requires
        check_chain(disk, page_count, head, seen, stored, trunks.len()) is Done,
        forall|i: int| 0 <= i < trunks.len() ==> seen.contains(#[trigger] trunks[i]),
    ensures
        ({
            let w = walk(disk, page_count, head, trunks, free);
            &&& w is Done
            &&& trunks.is_prefix_of(w->Done_1)
            &&& (forall|i: int|
                trunks.len() <= i < w->Done_1.len() ==> same_page(
                    disk,
                    after,
                    #[trigger] w->Done_1[i],
                )) ==> check_chain(after, page_count, head, seen, stored, trunks.len())
                == check_chain(disk, page_count, head, seen, stored, trunks.len())
        }),
    decreases page_count - trunks.len(),
{
    if head != 0 {
        let page = page_bytes(disk, head as int);
        let all = check_ids(page, page_count, 0, seen.insert(head))->Ok_0;
        let next = trunks.push(head);
        lemma_check_ids_keep(page, page_count, 0, seen.insert(head));
        assert forall|i: int| 0 <= i < next.len() implies all.contains(#[trigger] next[i]) by {
            if i < trunks.len() {
                assert(seen.contains(trunks[i]));
            }
            assert(seen.insert(head).contains(next[i]));
        }
        assert(!trunks.contains(head));
        lemma_chain_kept(
            disk,
            after,
            page_count,
            next_of(page) as u64,
            all,
            stored + count_of(page),
            next,
            free + trunk_ids(page),
        );
        let w = walk(disk, page_count, head, trunks, free);
        assert(w == walk(disk, page_count, next_of(page) as u64, next, free + trunk_ids(page)));
        assert(w->Done_1[trunks.len() as int] == next[trunks.len() as int]);
        assert(trunks =~= w->Done_1.take(trunks.len() as int)) by {
            assert forall|i: int| 0 <= i < trunks.len() implies trunks[i] == w->Done_1[i] by {
                assert(next[i] == w->Done_1[i]);
            }
        }
    }
}

/// A store whose committed structures were consistent before a commit is found consistent
/// after it, whether the commit succeeded or failed, in what the store then holds and in
/// what a crash would leave of it: an audit of what opening it finds succeeds, at the
/// transaction before or at the new one.
///
/// `s` is the state before and `t` the one after; `after` is what the store holds, or
/// what is durable of it; a meta page that was half written fails its checks.
pub proof fn commits_leave_a_sound_store(
    s: PagerState,
    fault_free: bool,
    r: Result<()>,
    t: PagerState,
    after: Seq<u8>,
)
    requires
        sturdy(s),
        anchored(s),
        orderly(s),
        s.durable == s.disk,
        s.meta.page_count >= FIRST_DATA_PAGE,
        s.meta.txn_id < u64::MAX,
        recordable(flushing(s).next_meta()),
        committed(s, fault_free, r, t),
        after == t.disk || after == t.durable,
        r is Err ==> tear_shows(flushing(s), after),
    ensures
        recover(after) is Some,
        ({
            let txn = opened(after).meta.txn_id;
            &&& audit(opened(after)) matches Audit::Sound(stats) && stats.txn_id == txn
            &&& txn == s.meta.txn_id + 1 || (r is Err && txn == s.meta.txn_id)
        }),
{
    if s.free_list() is Done {
        let v = s.with_free(s.free_list()->Done_0, s.free_list()->Done_1);
        let u = v.rebuilt();
        assert(sturdy(v));
        assert(all_in_range(v, v.free));
        lemma_free_once(v.free, v.trunks);
        lemma_rebuilt_is_sturdy(v);
        if r is Ok {
            assert(landed(u, after));
        } else {
            interrupted_commit_recovers(u, t.disk, t.durable, after);
        }
        if landed(u, after) {
            let d = choose|d: Seq<u8>| #[trigger]
                flushed(u.disk, u.meta.page_count * PAGE_SIZE, u.staged, d) && after == written(
                    d,
                    u.other_slot() * PAGE_SIZE,
                    meta_image(u.next_meta(), u.other_slot()),
                );
            commit_recovers(u, d);
            committed_free_list_reads_back(v, d);
        } else {
            let (m, slot) = recover(s.disk)->0;
            let past = reopened(s.disk, m, slot);
            let head = opt_number(m.freelist_head);
            lemma_chain_kept(
                s.disk,
                after,
                m.page_count,
                head,
                Set::empty(),
                0,
                Seq::empty(),
                Seq::empty(),
            );
            let chain = past.free_list()->Done_1;
            lemma_build_keys(
                v.free,
                Built { staged: v.staged, stored: Seq::empty(), trunks: Seq::empty(), head: 0 },
            );
            lemma_walk_ranges(s.disk, m.page_count, head, Seq::empty(), Seq::empty());
            assert forall|i: int| 0 <= i < chain.len() implies same_page(
                s.disk,
                after,
                #[trigger] chain[i],
            ) by {
                let id = chain[i];
                assert(!u.staged.contains_key(id));
                assert forall|k: int| id * PAGE_SIZE <= k < id * PAGE_SIZE + PAGE_SIZE implies
                    after[k] == s.disk[k] by {
                    assert(k / PAGE_SIZE as int == id);
                    assert(!covers(u.staged, k));
                }
                assert(page_bytes(after, id as int) =~= page_bytes(s.disk, id as int));
            }
        }
    }
}

/// The pages that a walk goes over are data pages that the store holds.
proof fn lemma_walk_ranges(
    disk: Seq<u8>,
    page_count: u64,
    head: u64,
    trunks: Seq<u64>,
    free: Seq<u64>,
)
    requires
        walk(disk, page_count, head, trunks, free) is Done,
        forall|i: int|
            0 <= i < trunks.len() ==> FIRST_DATA_PAGE <= #[trigger] trunks[i] && backed(
                disk,
                trunks[i] as int,
            ),
    ensures
        forall|i: int|
            0 <= i < walk(disk, page_count, head, trunks, free)->Done_1.len() ==> FIRST_DATA_PAGE
                <= #[trigger] walk(disk, page_count, head, trunks, free)->Done_1[i] && backed(
                disk,
                walk(disk, page_count, head, trunks, free)->Done_1[i] as int,
            ),
    decreases page_count - trunks.len(),
{
    if head != 0 {
        let page = page_bytes(disk, head as int);
        lemma_walk_ranges(
            disk,
            page_count,
            next_of(page) as u64,
            trunks.push(head),
            free + trunk_ids(page),
        );
    }
}

/// A database that was just created on an empty store is orderly.
pub proof fn fresh_databases_are_orderly()
    ensures
        orderly(fresh(Seq::empty())),
        sturdy(fresh(Seq::empty())),
{
    fresh_database_recovers();
    lemma_fresh_is_sturdy(Seq::empty());
    assert(Seq::<u64>::empty() + Seq::<u64>::empty() =~= Seq::empty());
}

/// A database that was opened on a store which passes its audit is orderly.
pub proof fn audited_databases_are_orderly(disk: Seq<u8>)
    requires
        recover(disk) is Some,
        audit(opened(disk)) is Sound,
    ensures
        orderly(opened(disk)),
{
    let s = opened(disk);
    audited_free_lists_hold_no_page_twice(s);
    let (free, trunks) = (s.free_list()->Done_0, s.free_list()->Done_1);
    let both = free + trunks;
    assert forall|i: int| 0 <= i < trunks.len() implies !free.contains(#[trigger] trunks[i]) by {
        if free.contains(trunks[i]) {
            let q = free.index_of(trunks[i]);
            assert(both[q] == both[free.len() + i]);
        }
    }
}

/// Whether a step keeps to the pages that were handed out: it writes none that the
/// committed free list is on, and frees none that is listed already. A commit is one that
/// succeeds.
pub open spec fn tame(s: PagerState, step: Step) -> bool {
    let chain = opened(s.disk).free_list()->Done_1;
    match step {
        Step::Write(id, _) => !chain.contains(id),
        Step::Free(id) => !chain.contains(id) && !s.free_list()->Done_0.contains(id)
            && !s.free_list()->Done_1.contains(id),
        Step::Commit(_, r) => r is Ok && recordable(flushing(s).next_meta()),
        _ => true,
    }
}

proof fn lemma_allocation_keeps_order(s: PagerState, t: PagerState)
    requires
        orderly(s),
        sturdy(s),
        s.meta.page_count >= FIRST_DATA_PAGE,
        stepped(s, Step::Allocate, t),
        tame(s, Step::Allocate),
    ensures
        orderly(t),
        sturdy(t),
        t.meta.page_count >= FIRST_DATA_PAGE,
{
    let (free, trunks) = (s.free_list()->Done_0, s.free_list()->Done_1);
    let both = free + trunks;
    let chain = opened(s.disk).free_list()->Done_1;
    assert(all_in_range(s, free) && all_in_range(s, trunks));
    let left = t.free;
    let list = left + trunks;
    if free.len() > 0 {
        assert forall|i: int, j: int| 0 <= i < j < list.len() implies list[i]
            != list[j] by {
            let a = if i < left.len() {
                i
            } else {
                i + 1
            };
            let b = if j < left.len() {
                j
            } else {
                j + 1
            };
            assert(list[i] == both[a] && list[j] == both[b]);
        }
        assert forall|i: int| 0 <= i < chain.len() implies !left.contains(
            #[trigger] chain[i],
        ) by {
            if left.contains(chain[i]) {
                let q = left.index_of(chain[i]);
                assert(free[q] == chain[i]);
            }
        }
    }
    assert forall|i: int| 0 <= i < left.len() implies t.in_range(#[trigger] left[i]) by {
        assert(s.in_range(free[i]));
    }
    assert forall|i: int| 0 <= i < trunks.len() implies t.in_range(#[trigger] trunks[i]) by {
        assert(s.in_range(trunks[i]));
    }
}

proof fn lemma_freeing_keeps_order(s: PagerState, id: u64, t: PagerState)
    requires
        orderly(s),
        sturdy(s),
        s.meta.page_count >= FIRST_DATA_PAGE,
        stepped(s, Step::Free(id), t),
        tame(s, Step::Free(id)),
    ensures
        orderly(t),
        sturdy(t),
        t.meta.page_count >= FIRST_DATA_PAGE,
{
    let (free, trunks) = (s.free_list()->Done_0, s.free_list()->Done_1);
    let both = free + trunks;
    let chain = opened(s.disk).free_list()->Done_1;
    assert(all_in_range(s, free) && all_in_range(s, trunks));
    let more = free.push(id);
    let list = more + trunks;
    assert forall|i: int, j: int| 0 <= i < j < list.len() implies list[i] != list[j] by {
        let a = if i < free.len() {
            i
        } else {
            i - 1
        };
        let b = if j < free.len() {
            j
        } else {
            j - 1
        };
        if i != free.len() {
            assert(list[i] == both[a]);
        }
        if j != free.len() {
            assert(list[j] == both[b]);
        }
        if i == free.len() {
            assert(trunks[j - free.len() - 1] == list[j]);
            assert(trunks.contains(list[j]));
        }
        if j == free.len() {
            assert(free[i] == list[i]);
            assert(free.contains(list[i]));
        }
    }
    assert forall|i: int| 0 <= i < chain.len() implies !more.contains(
        #[trigger] chain[i],
    ) by {
        if more.contains(chain[i]) {
            let q = more.index_of(chain[i]);
            if q < free.len() {
                assert(free[q] == chain[i]);
            } else {
                assert(chain.contains(id));
            }
        }
    }
    assert forall|i: int| 0 <= i < more.len() implies t.in_range(#[trigger] more[i]) by {
        if i < free.len() {
            assert(s.in_range(free[i]));
        }
    }
}

/// A database stays orderly over every tame step.
pub proof fn steps_keep_order(s: PagerState, step: Step, t: PagerState)
    requires
        orderly(s),
        sturdy(s),
        s.meta.page_count >= FIRST_DATA_PAGE,
        stepped(s, step, t),
        tame(s, step),
    ensures
        orderly(t),
        sturdy(t),
        t.meta.page_count >= FIRST_DATA_PAGE,
{
    let chain = opened(s.disk).free_list()->Done_1;
    match step {
        Step::Write(id, _) => {
            assert(t.free_list() == s.free_list());
            assert forall|i: int| 0 <= i < chain.len() implies !t.staged.contains_key(
                #[trigger] chain[i],
            ) by {
                assert(chain.contains(chain[i]));
            }
        },
        Step::Root(_) => {
            assert(t.free_list() == s.free_list());
        },
        Step::Allocate => {
            lemma_allocation_keeps_order(s, t);
        },
        Step::Free(id) => {
            lemma_freeing_keeps_order(s, id, t);
        },
        Step::Commit(fault_free, r) => {
            assert(committed(s, fault_free, Ok(()), t));
            commits_keep_order(s, fault_free, t);
        },
    }
}

/// A database is orderly after a commit that succeeded: the list that it wrote is
/// consistent, and the pages of the list before it are free.
pub proof fn commits_keep_order(s: PagerState, fault_free: bool, t: PagerState)
    requires
        orderly(s),
        sturdy(s),
        s.meta.page_count >= FIRST_DATA_PAGE,
        s.meta.txn_id < u64::MAX,
        recordable(flushing(s).next_meta()),
        committed(s, fault_free, Ok(()), t),
    ensures
        orderly(t),
        sturdy(t),
        t.meta.page_count == s.meta.page_count,
{
    broadcast use vstd::seq_lib::group_to_multiset_ensures;
    commits_anchor(s, fault_free, t);
    let (free, trunks) = (s.free_list()->Done_0, s.free_list()->Done_1);
    let v = s.with_free(free, trunks);
    let u = v.rebuilt();
    assert(sturdy(v));
    assert(all_in_range(v, v.free));
    lemma_free_once(free, trunks);
    lemma_rebuilt_is_sturdy(v);
    let d = choose|d: Seq<u8>| #[trigger]
        flushed(u.disk, u.meta.page_count * PAGE_SIZE, u.staged, d) && t == u.promoted(
            written(
                d,
                u.other_slot() * PAGE_SIZE,
                meta_image(u.next_meta(), u.other_slot()),
            ),
            trunks,
        );
    committed_free_list_reads_back(v, d);
    let chain = opened(t.disk).free_list()->Done_1;
    assert(chain =~= u.trunks.reverse());
    // The pages of the new list are those that were free.
    let list = u.free + u.trunks;
    free.lemma_multiset_has_no_duplicates();
    list.lemma_multiset_has_no_duplicates_conv();
    assert forall|i: int| 0 <= i < list.len() implies free.contains(#[trigger] list[i]) by {
        assert(list.to_multiset().count(list[i]) > 0);
        assert(free.to_multiset().count(list[i]) > 0);
    }
    let both = free + trunks;
    assert forall|i: int, j: int| 0 <= i < list.len() && 0 <= j < trunks.len() implies list[i]
        != trunks[j] by {
        assert(free.contains(list[i]));
        let q = free.index_of(list[i]);
        assert(both[q] == list[i] && both[free.len() + j] == trunks[j]);
    }
    assert(t.free =~= u.free + trunks);
    let all = t.free + t.trunks;
    assert forall|i: int, j: int| 0 <= i < j < all.len() implies all[i] != all[j] by {
        lemma_joined_apart(u.free, trunks, u.trunks, both, free.len() as int, i, j);
    }
    assert forall|i: int| 0 <= i < chain.len() implies !t.free.contains(#[trigger] chain[i]) by {
        let k = u.trunks.len() - 1 - i;
        assert(chain[i] == u.trunks[k] && all[t.free.len() + k] == chain[i]);
        if t.free.contains(chain[i]) {
            let q = t.free.index_of(chain[i]);
            assert(all[q] == chain[i]);
        }
    }
}

/// Three lists are without a page in common where the outer ones are, together, and
/// neither shares one with the middle one.
proof fn lemma_joined_apart(
    a: Seq<u64>,
    mid: Seq<u64>,
    c: Seq<u64>,
    both: Seq<u64>,
    n: int,
    i: int,
    j: int,
)
    requires
        (a + c).no_duplicates(),
        both.no_duplicates(),
        0 <= n,
        both.len() == n + mid.len(),
        forall|k: int| 0 <= k < mid.len() ==> #[trigger] mid[k] == both[n + k],
        forall|x: int, y: int|
            0 <= x < (a + c).len() && 0 <= y < mid.len() ==> #[trigger] (a + c)[x]
                != #[trigger] mid[y],
        0 <= i < j < a.len() + mid.len() + c.len(),
    ensures
        (a + mid + c)[i] != (a + mid + c)[j],
{
    let outer = a + c;
    let all = a + mid + c;
    let m = a.len() + mid.len();
    if i < a.len() {
        assert(all[i] == outer[i]);
    } else if i < m {
        assert(all[i] == mid[i - a.len()]);
    } else {
        assert(all[i] == outer[i - mid.len()]);
    }
    if j < a.len() {
        assert(all[j] == outer[j]);
    } else if j < m {
        assert(all[j] == mid[j - a.len()]);
    } else {
        assert(all[j] == outer[j - mid.len()]);
    }
}

/// What a run keeps: being orderly and sturdy.
#[verifier::opaque]
spec fn in_order(s: PagerState) -> bool {
    orderly(s) && sturdy(s) && s.meta.page_count >= FIRST_DATA_PAGE
}

/// Whether a tame step was taken.
#[verifier::opaque]
spec fn tamely(s: PagerState, step: Step, t: PagerState) -> bool {
    stepped(s, step, t) && tame(s, step)
}

proof fn lemma_in_order(s: PagerState, step: Step, t: PagerState)
    requires
        in_order(s),
        tamely(s, step, t),
    ensures
        in_order(t),
{
    reveal(in_order);
    reveal(tamely);
    steps_keep_order(s, step, t);
}

proof fn lemma_run_in_order(states: Seq<PagerState>, steps: Seq<Step>, n: nat)
    requires
        n <= steps.len(),
        in_order(states[0]),
        forall|i: int| 0 <= i < steps.len() ==> #[trigger] tamely(states[i], steps[i], states[i + 1]),
    ensures
        in_order(states[n as int]),
    decreases n,
{
    if n > 0 {
        lemma_run_in_order(states, steps, (n - 1) as nat);
        assert(tamely(states[n - 1], steps[n - 1], states[n - 1 + 1]));
        lemma_in_order(states[n - 1], steps[n - 1], states[n as int]);
    }
}

/// A database that starts out orderly is orderly throughout a run of tame steps, and so
/// passes its audit after each of its commits.
pub proof fn runs_keep_order(states: Seq<PagerState>, steps: Seq<Step>, n: nat)
    requires
        went(states, steps),
        n <= steps.len(),
        orderly(states[0]),
        sturdy(states[0]),
        states[0].meta.page_count >= FIRST_DATA_PAGE,
        forall|i: int| 0 <= i < steps.len() ==> tame(states[i], #[trigger] steps[i]),
    ensures
        orderly(states[n as int]),
        sturdy(states[n as int]),
        states[n as int].meta.page_count >= FIRST_DATA_PAGE,
{
    assert forall|i: int| 0 <= i < steps.len() implies #[trigger] tamely(
        states[i],
        steps[i],
        states[i + 1],
    ) by {
        reveal(tamely);
        assert(tame(states[i], steps[i]));
        assert(stepped(states[i], steps[i], states[i + 1]));
    }
    reveal(in_order);
    lemma_run_in_order(states, steps, n);
}

} // verus!
