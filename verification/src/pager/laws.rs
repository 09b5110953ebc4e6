//! What holds of the pager across operations: what recovery finds after a
//! commit and after one that was interrupted, what a committed page reads as,
//! and that the free list a commit writes is the one it reads back.

use vstd::prelude::*;
use crate::bytes::{le_bytes, le_nat, lemma_pow256_values, splice};
use crate::common::io::written;
use super::error::Result;
use super::freelist::{count_of, id_of, next_of, CAPACITY};
use super::meta::{initial_meta, meta_bytes, meta_round_trip, opt_number, recordable, Meta};
use super::page;
use super::page::{
    page_flaw, sound, type_at, u64_at, zero_page, PageType, FIRST_DATA_PAGE, HEADER_SIZE, PAGE_SIZE,
};
use super::pager::{
    committed, fresh, interrupted, lemma_build_keys, lemma_distinct_bounded,
    lemma_trunk_image_sound, lemma_with_ids_len, reopened, torn_meta,
};
use super::state::{
    all_in_range, audit, backed, build, check_chain, check_ids, covers, flushed, kept_around,
    kept_outside, meta_image,
    moored, page_bytes, recover, slots_unstaged, sturdy, trunk_flaw, trunk_ids,
    trunk_image, trunk_take, unsettled, walk, with_ids, Audit, Built, Checked, PagerState, PagerStats,
};

verus! {

/// The meta page that records `m` in `slot` holds it.
pub proof fn meta_image_holds_the_meta(m: Meta, slot: u64)
    requires
        recordable(m),
    ensures
        meta_image(m, slot).len() == PAGE_SIZE,
        sound(meta_image(m, slot), slot),
        type_at(meta_image(m, slot)) == Some(PageType::Meta),
        super::meta::meta_in(meta_image(m, slot), slot) == Ok::<Meta, super::error::PagerError>(m),
{
    let s = splice(zero_page(), HEADER_SIZE as int, meta_bytes(m));
    page::finalize_then_verify(s, PageType::Meta, slot);
    let f = meta_image(m, slot);
    super::meta::lemma_meta_bytes_len(m);
    assert(f.subrange(16, 72) =~= f.subrange(16, PAGE_SIZE as int).subrange(0, 56));
    assert(s.subrange(16, PAGE_SIZE as int).subrange(0, 56) =~= meta_bytes(m));
    meta_round_trip(f, m, slot);
}

/// A database created on an empty store is found again as created.
pub proof fn fresh_database_recovers()
    ensures
        recover(fresh(Seq::empty()).disk) == Some((initial_meta(), 0u64)),
{
    let d = fresh(Seq::empty()).disk;
    meta_image_holds_the_meta(initial_meta(), 0);
    assert(page_bytes(d, 0) =~= meta_image(initial_meta(), 0));
    let p1 = page_bytes(d, 1);
    assert(p1 =~= zero_page());
    reveal_with_fuel(le_nat, 9);
    assert(u64_at(p1, 8) == 0);
    assert(page_flaw(p1, 1) is Some);
}

/// Whether opening the store of `s` would find the state that `s` took as
/// committed, in the slot that `s` took it from.
pub open spec fn anchored(s: PagerState) -> bool {
    &&& s.slot <= 1
    &&& match recover(s.disk) {
        Some((m, slot)) => slot == s.slot && m.txn_id == s.meta.txn_id,
        None => false,
    }
}

proof fn lemma_slot_kept(before: Seq<u8>, staged: Map<u64, Seq<u8>>, other: u64, after: Seq<u8>, slot: u64)
    requires
        kept_outside(before, staged, other, after),
        backed(before, slot as int),
        slot != other,
        !staged.contains_key(slot),
    ensures
        backed(after, slot as int),
        page_bytes(after, slot as int) == page_bytes(before, slot as int),
{
    assert forall|i: int| slot * PAGE_SIZE <= i < slot * PAGE_SIZE + PAGE_SIZE implies after[i]
        == before[i] by {
        assert(i / PAGE_SIZE as int == slot);
        assert(!covers(staged, i));
    }
    assert(page_bytes(after, slot as int) =~= page_bytes(before, slot as int));
}

/// A meta page of this build's format is one that its slot is recovered from.
proof fn lemma_meta_image_is_valid(m: Meta, slot: u64)
    requires
        m.format_version == 1,
        m.page_size == 4096,
        m.page_count >= FIRST_DATA_PAGE,
        m.freelist_head != Some(page::PageId(0)),
    ensures
        meta_image(m, slot).len() == PAGE_SIZE,
        sound(meta_image(m, slot), slot),
        type_at(meta_image(m, slot)) == Some(PageType::Meta),
        super::meta::meta_in(meta_image(m, slot), slot) is Ok,
        super::meta::meta_in(meta_image(m, slot), slot)->Ok_0.txn_id == m.txn_id,
{
    let root = if m.catalog_root == Some(page::PageId(0)) {
        None
    } else {
        m.catalog_root
    };
    let n = Meta { catalog_root: root, ..m };
    assert(meta_bytes(n) == meta_bytes(m));
    meta_image_holds_the_meta(n, slot);
}

/// A database that was just created is sturdy.
pub proof fn lemma_fresh_is_sturdy(before: Seq<u8>)
    ensures
        sturdy(fresh(before)),
{
    let d = fresh(before).disk;
    lemma_meta_image_is_valid(initial_meta(), 0);
    assert(page_bytes(d, 0) =~= meta_image(initial_meta(), 0));
}

/// What a chain stores, and what it is on, comes from its pool.
proof fn lemma_build_draws(pool: Seq<u64>, b: Built)
    ensures
        forall|i: int|
            0 <= i < build(pool, b).stored.len() ==> b.stored.contains(
                #[trigger] build(pool, b).stored[i],
            ) || pool.contains(build(pool, b).stored[i]),
        forall|i: int|
            0 <= i < build(pool, b).trunks.len() ==> b.trunks.contains(
                #[trigger] build(pool, b).trunks[i],
            ) || pool.contains(build(pool, b).trunks[i]),
    decreases pool.len(),
{
    if pool.len() > 0 {
        let container = pool.last();
        let rest = pool.drop_last();
        let cut = rest.len() - trunk_take(rest.len());
        let ids = rest.skip(cut);
        let b2 = Built {
            staged: b.staged.insert(container, trunk_image(container, b.head, ids)),
            stored: b.stored + ids,
            trunks: b.trunks.push(container),
            head: container,
        };
        let r = build(rest.take(cut), b2);
        lemma_build_draws(rest.take(cut), b2);
        assert forall|x: u64| rest.take(cut).contains(x) implies pool.contains(x) by {
            let q = rest.take(cut).index_of(x);
            assert(pool[q] == x);
        }
        assert forall|i: int| 0 <= i < r.stored.len() implies b.stored.contains(
            #[trigger] r.stored[i],
        ) || pool.contains(r.stored[i]) by {
            if b2.stored.contains(r.stored[i]) {
                let q = b2.stored.index_of(r.stored[i]);
                if q < b.stored.len() {
                    assert(b.stored[q] == r.stored[i]);
                } else {
                    assert(pool[cut + q - b.stored.len()] == r.stored[i]);
                }
            }
        }
        assert forall|i: int| 0 <= i < r.trunks.len() implies b.trunks.contains(
            #[trigger] r.trunks[i],
        ) || pool.contains(r.trunks[i]) by {
            if b2.trunks.contains(r.trunks[i]) {
                let q = b2.trunks.index_of(r.trunks[i]);
                if q < b.trunks.len() {
                    assert(b.trunks[q] == r.trunks[i]);
                } else {
                    assert(pool[pool.len() - 1] == r.trunks[i]);
                }
            }
        }
    }
}

/// Serialising the free set of a sturdy state leaves it sturdy.
pub proof fn lemma_rebuilt_is_sturdy(s: PagerState)
    requires
        sturdy(s),
        s.loaded,
    ensures
        sturdy(s.rebuilt()),
{
    let b = Built { staged: s.staged, stored: Seq::empty(), trunks: Seq::empty(), head: 0 };
    let r = build(s.free, b);
    lemma_build_keys(s.free, b);
    lemma_build_draws(s.free, b);
    assert(all_in_range(s, s.free));
    assert forall|k: u64| #[trigger] r.staged.contains_key(k) implies k >= FIRST_DATA_PAGE by {
        if s.free.contains(k) {
            assert(s.in_range(s.free[s.free.index_of(k)]));
        }
    }
    assert forall|i: int| 0 <= i < r.stored.len() implies s.in_range(#[trigger] r.stored[i]) by {
        assert(s.in_range(s.free[s.free.index_of(r.stored[i])]));
    }
    assert forall|i: int| 0 <= i < r.trunks.len() implies s.in_range(#[trigger] r.trunks[i]) by {
        assert(s.in_range(s.free[s.free.index_of(r.trunks[i])]));
    }
}

/// A commit, failed or not, leaves a sturdy database sturdy.
pub proof fn commits_keep_sturdy(s: PagerState, fault_free: bool, r: Result<()>, t: PagerState)
    requires
        sturdy(s),
        committed(s, fault_free, r, t),
        s.meta.format_version == 1,
        s.meta.page_size == 4096,
        s.meta.page_count >= FIRST_DATA_PAGE,
        s.meta.txn_id < u64::MAX,
    ensures
        sturdy(t),
{
    if s.free_list() is Done {
        let free = s.free_list()->Done_0;
        let trunks = s.free_list()->Done_1;
        let v = s.with_free(free, trunks);
        let u = v.rebuilt();
        assert(sturdy(v));
        lemma_rebuilt_is_sturdy(v);
        assert(all_in_range(u, u.free) && all_in_range(u, u.trunks));
        let other = u.other_slot();
        if r is Ok {
            let d = choose|d: Seq<u8>| #[trigger]
                flushed(s.disk, u.meta.page_count * PAGE_SIZE, u.staged, d) && t == u.promoted(
                    written(d, other * PAGE_SIZE, meta_image(u.next_meta(), other)),
                    trunks,
                );
            lemma_meta_image_is_valid(u.next_meta(), other);
            assert(page_bytes(t.disk, other as int) =~= meta_image(u.next_meta(), other));
            assert forall|i: int| 0 <= i < t.free.len() implies t.in_range(#[trigger] t.free[i]) by {
                if i < u.free.len() {
                    assert(u.in_range(u.free[i]));
                } else {
                    assert(s.in_range(trunks[i - u.free.len()]));
                }
            }
            assert forall|i: int| 0 <= i < t.trunks.len() implies t.in_range(#[trigger] t.trunks[i]) by {
                assert(u.in_range(u.trunks[i]));
            }
        } else {
            lemma_slot_kept(s.disk, u.staged, other, t.disk, s.slot);
        }
    }
}

/// After a commit, opening the store finds what was committed.
///
/// `u` is the state about to be flushed and `d` the store with its pages in
/// place; the meta is then written to the slot that was not in use.
pub proof fn commit_recovers(u: PagerState, d: Seq<u8>)
    requires
        moored(u),
        slots_unstaged(u),
        u.meta.txn_id < u64::MAX,
        recordable(u.next_meta()),
        flushed(u.disk, u.meta.page_count * PAGE_SIZE, u.staged, d),
    ensures
        recover(
            written(d, u.other_slot() * PAGE_SIZE, meta_image(u.next_meta(), u.other_slot())),
        ) == Some((u.next_meta(), u.other_slot())),
{
    let other = u.other_slot();
    let image = meta_image(u.next_meta(), other);
    let t = written(d, other * PAGE_SIZE, image);
    meta_image_holds_the_meta(u.next_meta(), other);
    assert(page_bytes(t, other as int) =~= image);
    assert(kept_outside(u.disk, u.staged, other, t)) by {
        assert forall|i: int|
            #![trigger t[i]]
            0 <= i < u.disk.len() && !covers(u.staged, i) && i / PAGE_SIZE as int
                != other implies t[i] == u.disk[i] by {
            assert(d[i] == u.disk[i]);
        }
    }
    lemma_slot_kept(u.disk, u.staged, other, t, u.slot);
}

/// Whether the new meta page of `u` stands in `after` whole or not at all: a page of
/// it that was written in part is one that fails its checks.
pub open spec fn tear_shows(u: PagerState, after: Seq<u8>) -> bool {
    let page = page_bytes(after, u.other_slot() as int);
    ||| page == page_bytes(u.disk, u.other_slot() as int)
    ||| page == meta_image(u.next_meta(), u.other_slot())
    ||| !sound(page, u.other_slot())
}

/// Whether `after` is the store with all of the staged pages of `u` in place, and its
/// new meta.
pub open spec fn landed(u: PagerState, after: Seq<u8>) -> bool {
    exists|d: Seq<u8>| #[trigger]
        flushed(u.disk, u.meta.page_count * PAGE_SIZE, u.staged, d) && after == written(
            d,
            u.other_slot() * PAGE_SIZE,
            meta_image(u.next_meta(), u.other_slot()),
        )
}

proof fn lemma_unsettled_keeps(u: PagerState, after: Seq<u8>)
    requires
        moored(u),
        slots_unstaged(u),
        kept_around(u.disk, u.staged, after) || (u.durable == u.disk && unsettled(
            u.durable,
            u.disk,
            u.staged,
            after,
        )),
    ensures
        kept_outside(u.disk, u.staged, u.other_slot(), after),
        recover(after) == recover(u.disk),
{
    assert(kept_around(u.disk, u.staged, after)) by {
        assert forall|i: int| #![trigger after[i]] 0 <= i < u.disk.len() && !covers(u.staged, i)
            implies after[i] == u.disk[i] by {}
    }
    assert(kept_outside(u.disk, u.staged, u.other_slot(), after));
    assert(kept_outside(u.disk, u.staged, u.slot, after));
    lemma_slot_kept(u.disk, u.staged, u.other_slot(), after, u.slot);
    lemma_slot_kept(u.disk, u.staged, u.slot, after, u.other_slot());
}

/// A commit that the store failed loses nothing and leaves nothing half done: what the
/// store then holds, and what a crash would leave of it, is recovered as what was
/// committed before, with every byte outside the staged pages kept, or it holds the new
/// commit whole. A meta page that was half written is one that fails its checks.
///
/// `u` is the state that was being flushed.
pub proof fn interrupted_commit_recovers(
    u: PagerState,
    disk: Seq<u8>,
    durable: Seq<u8>,
    after: Seq<u8>,
)
    requires
        anchored(u),
        moored(u),
        slots_unstaged(u),
        u.durable == u.disk,
        u.meta.txn_id < u64::MAX,
        recordable(u.next_meta()),
        interrupted(u, disk, durable),
        after == disk || after == durable,
        tear_shows(u, after),
    ensures
        ({
            ||| recover(after) == recover(u.disk) && kept_outside(
                u.disk,
                u.staged,
                u.other_slot(),
                after,
            )
            ||| recover(after) == Some((u.next_meta(), u.other_slot())) && landed(u, after)
        }),
{
    let other = u.other_slot();
    let needed = u.meta.page_count * PAGE_SIZE;
    if kept_around(u.disk, u.staged, disk) && unsettled(u.durable, u.disk, u.staged, durable) {
        lemma_unsettled_keeps(u, after);
    } else {
        let d = choose|d: Seq<u8>| #[trigger]
            flushed(u.disk, needed, u.staged, d) && torn_meta(u, d, disk) && torn_meta(
                u,
                d,
                durable,
            );
        let image = meta_image(u.next_meta(), other);
        meta_image_holds_the_meta(u.next_meta(), other);
        let w = written(d, other * PAGE_SIZE, image);
        assert(after.len() == d.len());
        assert(kept_outside(u.disk, u.staged, other, after)) by {
            assert forall|i: int|
                #![trigger after[i]]
                0 <= i < u.disk.len() && !covers(u.staged, i) && i / PAGE_SIZE as int
                    != other implies after[i] == u.disk[i] by {
                assert(d[i] == u.disk[i]);
                assert(w[i] == d[i]);
            }
        }
        lemma_slot_kept(u.disk, u.staged, other, after, u.slot);
        if page_bytes(after, other as int) == image {
            assert forall|i: int| 0 <= i < after.len() implies after[i] == w[i] by {
                if i / PAGE_SIZE as int == other {
                    assert(after[i] == page_bytes(after, other as int)[i - other * PAGE_SIZE]);
                } else {
                    assert(w[i] == d[i]);
                }
            }
            assert(after =~= w);
            commit_recovers(u, d);
        }
    }
}

/// The state that a commit of `s` flushes, the free list being recoverable.
pub open spec fn flushing(s: PagerState) -> PagerState {
    s.with_free(s.free_list()->Done_0, s.free_list()->Done_1).rebuilt()
}

/// After a commit, failed or not, the database is recovered as a whole: either at the
/// transaction before, and then every page that was readable and was not staged reads
/// as it did; or at the new one, and then every page in use reads as it did to the
/// writer. A commit that succeeded is recovered at the new one. No outcome mixes the two,
/// neither in what the store then holds nor in what a crash would leave of it.
///
/// `s` is the state before and `t` the one after; `after` is what the store holds, or
/// what is durable of it; a meta page that was half written fails its checks.
pub proof fn commits_are_atomic(
    s: PagerState,
    fault_free: bool,
    r: Result<()>,
    t: PagerState,
    after: Seq<u8>,
    id: u64,
)
    requires
        sturdy(s),
        anchored(s),
        s.durable == s.disk,
        s.meta.txn_id < u64::MAX,
        recordable(flushing(s).next_meta()),
        forall|k: u64| #[trigger]
            s.staged.contains_key(k) && k >= FIRST_DATA_PAGE ==> sound(s.staged[k], k),
        committed(s, fault_free, r, t),
        after == t.disk || after == t.durable,
        r is Err ==> tear_shows(flushing(s), after),
    ensures
        recover(after) is Some,
        ({
            let u = flushing(s);
            let (m, slot) = recover(after)->0;
            let past = reopened(s.disk, m, slot);
            let now = reopened(after, m, slot);
            ||| {
                &&& r is Err
                &&& recover(after) == recover(s.disk)
                &&& m.txn_id == s.meta.txn_id
                &&& past.page(id) is Some && !u.staged.contains_key(id) ==> now.page(id)
                    == past.page(id)
            }
            ||| {
                &&& (m, slot) == (u.next_meta(), u.other_slot())
                &&& m.txn_id == s.meta.txn_id + 1
                &&& s.page(id) is Some && !s.free_list()->Done_0.contains(id) ==> now.page(id)
                    == s.page(id)
            }
        }),
{
    if s.free_list() is Done {
        let v = s.with_free(s.free_list()->Done_0, s.free_list()->Done_1);
        let u = v.rebuilt();
        assert(sturdy(v));
        lemma_rebuilt_is_sturdy(v);
        let other = u.other_slot();
        if r is Ok {
            assert(landed(u, after));
        } else {
            interrupted_commit_recovers(u, t.disk, t.durable, after);
        }
        if landed(u, after) {
            let d = choose|d: Seq<u8>| #[trigger]
                flushed(u.disk, u.meta.page_count * PAGE_SIZE, u.staged, d) && after == written(
                    d,
                    other * PAGE_SIZE,
                    meta_image(u.next_meta(), other),
                );
            commit_recovers(u, d);
            if s.page(id) is Some && !v.free.contains(id) {
                assert(v.page(id) == s.page(id));
                committed_pages_are_read_back(v, d, id);
            }
        } else {
            let (m, slot) = recover(after)->0;
            if reopened(s.disk, m, slot).page(id) is Some && !u.staged.contains_key(id) {
                assert forall|i: int| id * PAGE_SIZE <= i < id * PAGE_SIZE + PAGE_SIZE implies after[i]
                    == s.disk[i] by {
                    assert(i / PAGE_SIZE as int == id);
                    assert(!covers(u.staged, i));
                }
                assert(page_bytes(after, id as int) =~= page_bytes(s.disk, id as int));
            }
        }
    }
}

/// After a commit that succeeded, what the store holds is durable, and opening it finds
/// the state that the pager has taken as committed.
pub proof fn commits_anchor(s: PagerState, fault_free: bool, t: PagerState)
    requires
        sturdy(s),
        s.meta.txn_id < u64::MAX,
        recordable(flushing(s).next_meta()),
        committed(s, fault_free, Ok(()), t),
    ensures
        anchored(t),
        sturdy(t),
        t.durable == t.disk,
        recover(t.disk) == Some((t.meta, t.slot)),
{
    let v = s.with_free(s.free_list()->Done_0, s.free_list()->Done_1);
    let u = v.rebuilt();
    assert(sturdy(v));
    lemma_rebuilt_is_sturdy(v);
    assert(landed(u, t.disk));
    let d = choose|d: Seq<u8>| #[trigger]
        flushed(u.disk, u.meta.page_count * PAGE_SIZE, u.staged, d) && t.disk == written(
            d,
            u.other_slot() * PAGE_SIZE,
            meta_image(u.next_meta(), u.other_slot()),
        );
    commit_recovers(u, d);
    commits_keep_sturdy(s, fault_free, Ok(()), t);
}

proof fn lemma_build_keeps(pool: Seq<u64>, b: Built, id: u64)
    requires
        !pool.contains(id),
    ensures
        build(pool, b).staged.contains_key(id) == b.staged.contains_key(id),
        b.staged.contains_key(id) ==> build(pool, b).staged[id] == b.staged[id],
    decreases pool.len(),
{
    if pool.len() > 0 {
        let container = pool.last();
        let rest = pool.drop_last();
        let cut = rest.len() - trunk_take(rest.len());
        assert(pool[pool.len() - 1] == container);
        assert forall|i: int| 0 <= i < cut implies rest.take(cut)[i] != id by {
            assert(pool[i] == rest.take(cut)[i]);
        }
        lemma_build_keeps(
            rest.take(cut),
            Built {
                staged: b.staged.insert(
                    container,
                    trunk_image(container, b.head, rest.skip(cut)),
                ),
                stored: b.stored + rest.skip(cut),
                trunks: b.trunks.push(container),
                head: container,
            },
            id,
        );
    }
}

/// What could be read of a page before a commit is what is read of it once the
/// committed store is opened again, for every page that is not free.
///
/// `s` is the state before, with its free list recovered, and `d` the store
/// with the staged pages in place.
pub proof fn committed_pages_are_read_back(s: PagerState, d: Seq<u8>, id: u64)
    requires
        s.slot <= 1,
        !s.free.contains(id),
        s.page(id) is Some,
        forall|k: u64| #[trigger]
            s.staged.contains_key(k) && k >= FIRST_DATA_PAGE ==> sound(s.staged[k], k),
        flushed(s.disk, s.meta.page_count * PAGE_SIZE, s.rebuilt().staged, d),
    ensures
        ({
            let u = s.rebuilt();
            let t = written(
                d,
                u.other_slot() * PAGE_SIZE,
                meta_image(u.next_meta(), u.other_slot()),
            );
            reopened(t, u.next_meta(), u.other_slot()).page(id) == s.page(id)
        }),
{
    let u = s.rebuilt();
    let b0 = Built { staged: s.staged, stored: Seq::empty(), trunks: Seq::empty(), head: 0 };
    lemma_build_keeps(s.free, b0, id);
    let other = u.other_slot();
    let s0 = splice(zero_page(), HEADER_SIZE as int, meta_bytes(u.next_meta()));
    page::finalize_then_verify(s0, PageType::Meta, other);
    let t = written(d, other * PAGE_SIZE, meta_image(u.next_meta(), other));
    assert(page_bytes(t, id as int) =~= page_bytes(d, id as int)) by {
        if s.staged.contains_key(id) {
            assert(u.staged.contains_key(id));
        }
    }
    if s.staged.contains_key(id) {
        assert(u.staged.contains_key(id));
        assert(backed(d, id as int));
    } else {
        assert forall|i: int| id * PAGE_SIZE <= i < id * PAGE_SIZE + PAGE_SIZE implies d[i]
            == s.disk[i] by {
            assert(i / PAGE_SIZE as int == id);
            assert(!covers(u.staged, i));
        }
        assert(page_bytes(d, id as int) =~= page_bytes(s.disk, id as int));
    }
}

/// Whether every page is free at most once and every free page is a data page.
pub open spec fn free_list_ok(s: PagerState) -> bool {
    &&& s.free.no_duplicates()
    &&& forall|i: int| 0 <= i < s.free.len() ==> s.in_range(#[trigger] s.free[i])
}

/// An allocation hands out a data page that was free or new, takes it off the
/// free list, and leaves every other page's contents alone.
pub proof fn allocation_is_fresh(s: PagerState, other: u64)
    requires
        free_list_ok(s),
        FIRST_DATA_PAGE <= s.meta.page_count < u64::MAX,
    ensures
        s.free.contains(s.next_id()) || s.next_id() == s.meta.page_count,
        s.allocated().in_range(s.next_id()),
        !s.allocated().free.contains(s.next_id()),
        free_list_ok(s.allocated()),
        s.in_range(other) ==> s.allocated().page(other) == s.page(other),
{
    let t = s.allocated();
    if s.free.len() > 0 {
        assert(s.free[s.free.len() - 1] == s.next_id());
        assert forall|i: int| 0 <= i < t.free.len() implies t.in_range(#[trigger] t.free[i])
            && t.free[i] != s.next_id() by {
            assert(t.free[i] == s.free[i]);
        }
    }
}

/// What was written to a page is what is read from it, and no other page
/// changes.
pub proof fn read_gives_back_the_write(s: PagerState, id: u64, image: Seq<u8>, other: u64)
    requires
        s.in_range(id),
    ensures
        s.put(id, image).page(id) == Some(image),
        other != id ==> s.put(id, image).page(other) == s.page(other),
{
}

// The chain that a commit builds, read back.

/// Whether `staged` holds a chain of the trunk pages `trunks`, the last one its
/// head, that stores `stored`.
pub open spec fn chained(staged: Map<u64, Seq<u8>>, trunks: Seq<u64>, stored: Seq<u64>) -> bool
    decreases trunks.len(),
{
    if trunks.len() == 0 {
        stored.len() == 0
    } else {
        exists|n: int| #[trigger]
            chain_link(staged, trunks, stored, n) && chained(
                staged,
                trunks.drop_last(),
                stored.take(n),
            )
    }
}

/// Whether the head of such a chain stores what is in `stored` from `n` on.
pub open spec fn chain_link(
    staged: Map<u64, Seq<u8>>,
    trunks: Seq<u64>,
    stored: Seq<u64>,
    n: int,
) -> bool {
    let head = trunks.last();
    &&& 0 <= n <= stored.len()
    &&& stored.len() - n <= CAPACITY
    &&& staged.contains_key(head)
    &&& staged[head] == trunk_image(head, chain_head(trunks.drop_last()), stored.skip(n))
}

/// The head of a chain of trunk pages, 0 if there is none.
pub open spec fn chain_head(trunks: Seq<u64>) -> u64 {
    if trunks.len() == 0 {
        0
    } else {
        trunks.last()
    }
}

proof fn lemma_chained_insert(staged: Map<u64, Seq<u8>>, trunks: Seq<u64>, stored: Seq<u64>, id: u64, image: Seq<u8>)
    requires
        chained(staged, trunks, stored),
        !trunks.contains(id),
    ensures
        chained(staged.insert(id, image), trunks, stored),
    decreases trunks.len(),
{
    if trunks.len() > 0 {
        let n = choose|n: int| #[trigger]
            chain_link(staged, trunks, stored, n) && chained(
                staged,
                trunks.drop_last(),
                stored.take(n),
            );
        assert(trunks[trunks.len() - 1] != id);
        assert forall|i: int| 0 <= i < trunks.len() - 1 implies trunks.drop_last()[i] != id by {
            assert(trunks[i] != id);
        }
        lemma_chained_insert(staged, trunks.drop_last(), stored.take(n), id, image);
        assert(chain_link(staged.insert(id, image), trunks, stored, n));
    }
}

/// A pool of distinct ids, none of them a trunk yet, becomes a chain that
/// stores, with its trunks, exactly the pool.
proof fn lemma_build_chains(pool: Seq<u64>, b: Built)
    requires
        chained(b.staged, b.trunks, b.stored),
        b.head == chain_head(b.trunks),
        (b.trunks + pool).no_duplicates(),
    ensures
        ({
            let r = build(pool, b);
            &&& chained(r.staged, r.trunks, r.stored)
            &&& r.head == chain_head(r.trunks)
            &&& (r.stored + r.trunks).to_multiset() =~= (b.stored + b.trunks + pool).to_multiset()
        }),
    decreases pool.len(),
{
    broadcast use vstd::seq_lib::group_to_multiset_ensures;
    if pool.len() == 0 {
        assert(b.stored + b.trunks + pool =~= b.stored + b.trunks);
    } else {
        let container = pool.last();
        let rest = pool.drop_last();
        let cut = rest.len() - trunk_take(rest.len());
        let ids = rest.skip(cut);
        let image = trunk_image(container, b.head, ids);
        let b2 = Built {
            staged: b.staged.insert(container, image),
            stored: b.stored + ids,
            trunks: b.trunks.push(container),
            head: container,
        };
        let all = b.trunks + pool;
        assert forall|i: int| 0 <= i < b.trunks.len() implies b.trunks[i] != container by {
            assert(all[i] == b.trunks[i]);
            assert(all[all.len() - 1] == container);
        }
        lemma_chained_insert(b.staged, b.trunks, b.stored, container, image);
        assert(b2.trunks.drop_last() =~= b.trunks);
        assert(b2.stored.take(b.stored.len() as int) =~= b.stored);
        assert(b2.stored.skip(b.stored.len() as int) =~= ids);
        assert(chain_link(b2.staged, b2.trunks, b2.stored, b.stored.len() as int));
        let all2 = b2.trunks + rest.take(cut);
        assert forall|i: int, j: int|
            0 <= i < all2.len() && 0 <= j < all2.len() && i != j implies all2[i] != all2[j] by {
            let a = |x: int| if x < b.trunks.len() {
                x
            } else if x == b.trunks.len() {
                all.len() - 1
            } else {
                x - 1
            };
            assert(all2[i] == all[a(i)]);
            assert(all2[j] == all[a(j)]);
        }
        lemma_build_chains(rest.take(cut), b2);
        assert(rest =~= rest.take(cut) + ids);
        assert(pool =~= rest.take(cut) + ids + seq![container]);
        assert(b2.trunks =~= b.trunks + seq![container]);
        vstd::seq_lib::lemma_multiset_commutative(b.stored, ids);
        vstd::seq_lib::lemma_multiset_commutative(b.stored + ids, b2.trunks);
        vstd::seq_lib::lemma_multiset_commutative(b.stored + ids + b2.trunks, rest.take(cut));
        vstd::seq_lib::lemma_multiset_commutative(b.trunks, seq![container]);
        vstd::seq_lib::lemma_multiset_commutative(b.stored, b.trunks);
        vstd::seq_lib::lemma_multiset_commutative(b.stored + b.trunks, pool);
        vstd::seq_lib::lemma_multiset_commutative(rest.take(cut), ids);
        vstd::seq_lib::lemma_multiset_commutative(rest.take(cut) + ids, seq![container]);
    }
}

/// A commit divides the free pages into those that it lists and those that it lists
/// them on.
pub proof fn lemma_rebuilt_splits(s: PagerState)
    requires
        s.free.no_duplicates(),
    ensures
        (s.rebuilt().free + s.rebuilt().trunks).to_multiset() =~= s.free.to_multiset(),
{
    let b = Built { staged: s.staged, stored: Seq::empty(), trunks: Seq::empty(), head: 0 };
    assert(b.trunks + s.free =~= s.free);
    assert(b.stored + b.trunks + s.free =~= s.free);
    lemma_build_chains(s.free, b);
}

proof fn lemma_with_ids_fields(page: Seq<u8>, ids: Seq<u64>)
    requires
        page.len() == PAGE_SIZE,
        ids.len() <= CAPACITY,
    ensures
        with_ids(page, ids).len() == PAGE_SIZE,
        with_ids(page, ids).subrange(16, 24) == page.subrange(16, 24),
        with_ids(page, ids).subrange(24, 28) == page.subrange(24, 28),
        forall|i: int| 0 <= i < ids.len() ==> #[trigger] id_of(with_ids(page, ids), i) == ids[i],
    decreases ids.len(),
{
    lemma_pow256_values();
    lemma_with_ids_len(page, ids);
    if ids.len() > 0 {
        let init = ids.drop_last();
        let w = with_ids(page, init);
        let t = with_ids(page, ids);
        let at = 28 + (ids.len() - 1) * 8;
        lemma_with_ids_fields(page, init);
        page::lemma_field_round_trip(w, at, ids.last() as nat, 8);
        assert(t.subrange(16, 24) == w.subrange(16, 24));
        assert(t.subrange(24, 28) == w.subrange(24, 28));
        assert forall|i: int| 0 <= i < ids.len() implies #[trigger] id_of(t, i) == ids[i] by {
            if i < ids.len() - 1 {
                assert(t.subrange(28 + i * 8, 28 + i * 8 + 8) == w.subrange(
                    28 + i * 8,
                    28 + i * 8 + 8,
                ));
                assert(id_of(w, i) == init[i]);
            }
        }
    }
}

/// A trunk page reads back as it was built.
pub proof fn trunk_image_reads_back(id: u64, next: u64, ids: Seq<u64>)
    requires
        ids.len() <= CAPACITY,
    ensures
        trunk_flaw(trunk_image(id, next, ids), id) is None,
        next_of(trunk_image(id, next, ids)) == next,
        count_of(trunk_image(id, next, ids)) == ids.len(),
        trunk_ids(trunk_image(id, next, ids)) == ids,
{
    lemma_pow256_values();
    let a = splice(zero_page(), 16, le_bytes(next as nat, 8));
    let b = splice(a, 24, le_bytes(ids.len(), 4));
    page::lemma_field_round_trip(zero_page(), 16, next as nat, 8);
    page::lemma_field_round_trip(a, 24, ids.len(), 4);
    assert(b.subrange(16, 24) == a.subrange(16, 24));
    let w = with_ids(b, ids);
    lemma_with_ids_fields(b, ids);
    page::finalize_then_verify(w, PageType::Freelist, id);
    let f = trunk_image(id, next, ids);
    let ft = f.subrange(16, PAGE_SIZE as int);
    let wt = w.subrange(16, PAGE_SIZE as int);
    assert(f.subrange(16, 24) =~= ft.subrange(0, 8));
    assert(w.subrange(16, 24) =~= wt.subrange(0, 8));
    assert(f.subrange(24, 28) =~= ft.subrange(8, 12));
    assert(w.subrange(24, 28) =~= wt.subrange(8, 12));
    assert forall|i: int| 0 <= i < ids.len() implies #[trigger] id_of(f, i) == ids[i] by {
        assert(f.subrange(28 + i * 8, 28 + i * 8 + 8) =~= ft.subrange(12 + i * 8, 12 + i * 8 + 8));
        assert(w.subrange(28 + i * 8, 28 + i * 8 + 8) =~= wt.subrange(12 + i * 8, 12 + i * 8 + 8));
        assert(id_of(w, i) == ids[i]);
    }
    assert(trunk_ids(f) =~= ids);
}

/// Whether the pages `trunks` of the store are those of `staged`.
spec fn stored_pages(
    disk: Seq<u8>,
    page_count: u64,
    staged: Map<u64, Seq<u8>>,
    trunks: Seq<u64>,
) -> bool {
    forall|i: int|
        0 <= i < trunks.len() ==> FIRST_DATA_PAGE <= #[trigger] trunks[i] < page_count && backed(
            disk,
            trunks[i] as int,
        ) && page_bytes(disk, trunks[i] as int) == staged[trunks[i]]
}

proof fn lemma_walk_chain(
    disk: Seq<u8>,
    page_count: u64,
    staged: Map<u64, Seq<u8>>,
    trunks: Seq<u64>,
    stored: Seq<u64>,
    walked: Seq<u64>,
    free: Seq<u64>,
)
    requires
        chained(staged, trunks, stored),
        stored_pages(disk, page_count, staged, trunks),
        page_count >= FIRST_DATA_PAGE,
        (walked + trunks).no_duplicates(),
        forall|i: int|
            0 <= i < walked.len() ==> FIRST_DATA_PAGE <= #[trigger] walked[i] < page_count,
    ensures
        ({
            let w = walk(disk, page_count, chain_head(trunks), walked, free);
            &&& w is Done
            &&& w->Done_0.to_multiset() =~= (free + stored).to_multiset()
            &&& w->Done_1 =~= walked + trunks.reverse()
        }),
    decreases trunks.len(),
{
    broadcast use vstd::seq_lib::group_to_multiset_ensures;
    if trunks.len() == 0 {
        assert(free + stored =~= free);
        assert(walked + trunks.reverse() =~= walked);
    } else {
        let n = choose|n: int| #[trigger]
            chain_link(staged, trunks, stored, n) && chained(
                staged,
                trunks.drop_last(),
                stored.take(n),
            );
        let head = trunks.last();
        let init = trunks.drop_last();
        let ids = stored.skip(n);
        let all = walked + trunks;
        assert(trunks[trunks.len() - 1] == head);
        trunk_image_reads_back(head, chain_head(init), ids);
        assert forall|i: int, j: int|
            0 <= i < walked.len() && 0 <= j < walked.len() && i != j implies walked[i]
            != walked[j] by {
            assert(all[i] == walked[i] && all[j] == walked[j]);
        }
        lemma_distinct_bounded(walked, FIRST_DATA_PAGE, page_count);
        assert(!walked.contains(head)) by {
            if walked.contains(head) {
                let i = walked.index_of(head);
                assert(all[i] == head);
                assert(all[all.len() - 1] == head);
            }
        }
        let walked2 = walked.push(head);
        let all2 = walked2 + init;
        assert forall|i: int, j: int|
            0 <= i < all2.len() && 0 <= j < all2.len() && i != j implies all2[i] != all2[j] by {
            let a = |x: int| if x < walked.len() {
                x
            } else if x == walked.len() {
                all.len() - 1
            } else {
                x - 1
            };
            assert(all2[i] == all[a(i)]);
            assert(all2[j] == all[a(j)]);
        }
        assert forall|i: int| 0 <= i < init.len() implies FIRST_DATA_PAGE <= #[trigger] init[i]
            < page_count && backed(disk, init[i] as int) && page_bytes(disk, init[i] as int)
            == staged[init[i]] by {
            assert(trunks[i] == init[i]);
        }
        lemma_walk_chain(disk, page_count, staged, init, stored.take(n), walked2, free + ids);
        assert(stored =~= stored.take(n) + ids);
        vstd::seq_lib::lemma_multiset_commutative(free, ids);
        vstd::seq_lib::lemma_multiset_commutative(free + ids, stored.take(n));
        vstd::seq_lib::lemma_multiset_commutative(stored.take(n), ids);
        vstd::seq_lib::lemma_multiset_commutative(free, stored);
        assert(walked2 + init.reverse() =~= walked + trunks.reverse());
    }
}

proof fn lemma_check_ids(page: Seq<u8>, page_count: u64, i: nat, seen: Set<u64>)
    requires
        i <= count_of(page),
        forall|k: int|
            0 <= k < count_of(page) ==> FIRST_DATA_PAGE <= #[trigger] trunk_ids(page)[k]
                < page_count,
        trunk_ids(page).no_duplicates(),
        forall|k: int| i <= k < count_of(page) ==> !seen.contains(#[trigger] trunk_ids(page)[k]),
    ensures
        check_ids(page, page_count, i, seen) == Ok::<
            Set<u64>,
            super::error::CorruptionKind,
        >(seen.union(trunk_ids(page).skip(i as int).to_set())),
    decreases count_of(page) - i,
{
    let ids = trunk_ids(page);
    if i == count_of(page) {
        assert(seen.union(ids.skip(i as int).to_set()) =~= seen);
    } else {
        let e = ids[i as int];
        lemma_check_ids(page, page_count, i + 1, seen.insert(e));
        assert(seen.insert(e).union(ids.skip(i as int + 1).to_set()) =~= seen.union(
            ids.skip(i as int).to_set(),
        )) by {
            assert forall|k: u64| ids.skip(i as int).contains(k) <==> (k == e || ids.skip(
                i as int + 1,
            ).contains(k)) by {
                let s0 = ids.skip(i as int);
                let s1 = ids.skip(i as int + 1);
                if s0.contains(k) && k != e {
                    let q = s0.index_of(k);
                    assert(s1[q - 1] == k);
                }
                if s1.contains(k) {
                    let q = s1.index_of(k);
                    assert(s0[q + 1] == k);
                }
                if k == e {
                    assert(s0[0] == k);
                }
            }
        }
    }
}

/// Whether `stored` and `trunks` together hold distinct data pages, none of
/// them in `seen`.
spec fn all_new(page_count: u64, seen: Set<u64>, trunks: Seq<u64>, stored: Seq<u64>) -> bool {
    &&& (stored + trunks).no_duplicates()
    &&& forall|i: int|
        0 <= i < stored.len() ==> FIRST_DATA_PAGE <= #[trigger] stored[i] < page_count
            && !seen.contains(stored[i])
    &&& forall|i: int| 0 <= i < trunks.len() ==> !seen.contains(#[trigger] trunks[i])
}

proof fn lemma_check_chain(
    disk: Seq<u8>,
    page_count: u64,
    staged: Map<u64, Seq<u8>>,
    trunks: Seq<u64>,
    stored: Seq<u64>,
    seen: Set<u64>,
    n0: nat,
    t0: nat,
)
    requires
        chained(staged, trunks, stored),
        stored_pages(disk, page_count, staged, trunks),
        all_new(page_count, seen, trunks, stored),
        t0 + trunks.len() <= page_count,
    ensures
        check_chain(disk, page_count, chain_head(trunks), seen, n0, t0) == Checked::Done(
            n0 + stored.len(),
            t0 + trunks.len(),
        ),
    decreases trunks.len(),
{
    if trunks.len() > 0 {
        let n = choose|n: int| #[trigger]
            chain_link(staged, trunks, stored, n) && chained(
                staged,
                trunks.drop_last(),
                stored.take(n),
            );
        let head = trunks.last();
        let init = trunks.drop_last();
        let ids = stored.skip(n);
        let page = page_bytes(disk, head as int);
        let all = stored + trunks;
        assert(trunks[trunks.len() - 1] == head);
        trunk_image_reads_back(head, chain_head(init), ids);
        assert(page == staged[head]);
        let seen1 = seen.insert(head);
        assert forall|k: int| 0 <= k < count_of(page) implies FIRST_DATA_PAGE <= #[trigger] trunk_ids(page)[k] < page_count && !seen1.contains(
            trunk_ids(page)[k],
        ) by {
            assert(trunk_ids(page)[k] == stored[n + k]);
            assert(all[n + k] == stored[n + k]);
            assert(all[all.len() - 1] == head);
        }
        assert forall|i: int, j: int|
            0 <= i < ids.len() && 0 <= j < ids.len() && i != j implies ids[i] != ids[j] by {
            assert(all[n + i] == ids[i] && all[n + j] == ids[j]);
        }
        lemma_check_ids(page, page_count, 0, seen1);
        assert(trunk_ids(page).skip(0) =~= ids);
        let seen2 = seen1.union(ids.to_set());
        assert(all_new(page_count, seen2, init, stored.take(n))) by {
            let rest = stored.take(n) + init;
            assert forall|i: int, j: int|
                0 <= i < rest.len() && 0 <= j < rest.len() && i != j implies rest[i] != rest[j] by {
                let a = |x: int| if x < n {
                    x
                } else {
                    x - n + stored.len()
                };
                assert(rest[i] == all[a(i)]);
                assert(rest[j] == all[a(j)]);
            }
            assert forall|i: int| 0 <= i < n implies FIRST_DATA_PAGE <= #[trigger] stored.take(
                n,
            )[i] < page_count && !seen2.contains(stored.take(n)[i]) by {
                let x = stored.take(n)[i];
                assert(stored[i] == x);
                assert(all[i] == x);
                assert(all[all.len() - 1] == head);
                if ids.contains(x) {
                    let q = ids.index_of(x);
                    assert(all[n + q] == x);
                }
            }
            assert forall|i: int| 0 <= i < init.len() implies !seen2.contains(
                #[trigger] init[i],
            ) by {
                let x = init[i];
                assert(trunks[i] == x);
                assert(all[stored.len() + i] == x);
                assert(all[all.len() - 1] == head);
                if ids.contains(x) {
                    let q = ids.index_of(x);
                    assert(all[n + q] == x);
                }
            }
        }
        assert forall|i: int| 0 <= i < init.len() implies FIRST_DATA_PAGE <= #[trigger] init[i]
            < page_count && backed(disk, init[i] as int) && page_bytes(disk, init[i] as int)
            == staged[init[i]] by {
            assert(trunks[i] == init[i]);
        }
        lemma_check_chain(
            disk,
            page_count,
            staged,
            init,
            stored.take(n),
            seen2,
            n0 + ids.len(),
            t0 + 1,
        );
        assert(!seen.contains(trunks[trunks.len() - 1]));
    }
}

/// The free list that a commit writes is read back from the store: recovering
/// it gives the same free ids and the same trunk pages, and an audit of the
/// committed state finds it sound and as long as recorded.
///
/// `s` is the state before the commit, with its free list recovered, and `d`
/// the store with the staged pages in place.
pub proof fn committed_free_list_reads_back(s: PagerState, d: Seq<u8>)
    requires
        s.slot <= 1,
        s.meta.page_count >= FIRST_DATA_PAGE,
        s.meta.txn_id < u64::MAX,
        free_list_ok(s),
        slots_unstaged(s),
        recordable(s.rebuilt().next_meta()),
        flushed(s.disk, s.meta.page_count * PAGE_SIZE, s.rebuilt().staged, d),
    ensures
        ({
            let u = s.rebuilt();
            let t = written(
                d,
                u.other_slot() * PAGE_SIZE,
                meta_image(u.next_meta(), u.other_slot()),
            );
            let w = reopened(t, u.next_meta(), u.other_slot()).free_list();
            &&& w is Done
            &&& w->Done_0.to_multiset() =~= u.free.to_multiset()
            &&& w->Done_1 =~= u.trunks.reverse()
            &&& (u.free + u.trunks).to_multiset() =~= s.free.to_multiset()
            &&& audit(reopened(t, u.next_meta(), u.other_slot())) == Audit::Sound(
                PagerStats {
                    page_count: s.meta.page_count,
                    free_ids: u.free.len() as u64,
                    trunk_count: u.trunks.len() as u64,
                    active_slot: u.other_slot(),
                    txn_id: (s.meta.txn_id + 1) as u64,
                },
            )
        }),
{
    broadcast use vstd::seq_lib::group_to_multiset_ensures;
    let u = s.rebuilt();
    let other = u.other_slot();
    let image = meta_image(u.next_meta(), other);
    let t = written(d, other * PAGE_SIZE, image);
    let b0 = Built { staged: s.staged, stored: Seq::empty(), trunks: Seq::empty(), head: 0 };
    let r = build(s.free, b0);
    assert(b0.trunks + s.free =~= s.free);
    assert(b0.stored + b0.trunks + s.free =~= s.free);
    lemma_build_chains(s.free, b0);
    meta_image_holds_the_meta(u.next_meta(), other);
    assert(page_bytes(t, other as int) =~= image);
    let all = r.stored + r.trunks;
    // The chain's ids are those of the pool: distinct and in range.
    assert(all.to_multiset() =~= s.free.to_multiset());
    s.free.lemma_multiset_has_no_duplicates();
    all.lemma_multiset_has_no_duplicates_conv();
    assert forall|i: int| 0 <= i < all.len() implies s.in_range(#[trigger] all[i]) by {
        assert(all.to_multiset().count(all[i]) > 0);
        assert(s.free.to_multiset().count(all[i]) > 0);
        assert(s.free.contains(all[i]));
        let q = s.free.index_of(all[i]);
        assert(s.in_range(s.free[q]));
    }
    lemma_distinct_bounded(all, FIRST_DATA_PAGE, s.meta.page_count);
    assert forall|i: int| 0 <= i < r.trunks.len() implies FIRST_DATA_PAGE <= #[trigger] r.trunks[i]
        < s.meta.page_count && backed(t, r.trunks[i] as int) && page_bytes(t, r.trunks[i] as int)
        == r.staged[r.trunks[i]] by {
        assert(all[r.stored.len() + i] == r.trunks[i]);
        lemma_chain_staged(r.staged, r.trunks, r.stored, i);
        assert(u.staged.contains_key(r.trunks[i]));
        assert(page_bytes(t, r.trunks[i] as int) =~= page_bytes(d, r.trunks[i] as int));
    }
    assert(Seq::<u64>::empty() + r.trunks =~= r.trunks);
    assert forall|i: int, j: int|
        0 <= i < r.trunks.len() && 0 <= j < r.trunks.len() && i != j implies r.trunks[i]
        != r.trunks[j] by {
        assert(all[r.stored.len() + i] == r.trunks[i]);
        assert(all[r.stored.len() + j] == r.trunks[j]);
    }
    lemma_walk_chain(
        t,
        s.meta.page_count,
        r.staged,
        r.trunks,
        r.stored,
        Seq::empty(),
        Seq::empty(),
    );
    assert(Seq::<u64>::empty() + r.stored =~= r.stored);
    assert forall|i: int| 0 <= i < r.stored.len() implies FIRST_DATA_PAGE <= #[trigger] r.stored[i]
        < s.meta.page_count by {
        assert(all[i] == r.stored[i]);
    }
    lemma_check_chain(
        t,
        s.meta.page_count,
        r.staged,
        r.trunks,
        r.stored,
        Set::empty(),
        0,
        0,
    );
    assert(opt_number(u.next_meta().freelist_head) == r.head);
}

proof fn lemma_chain_staged(staged: Map<u64, Seq<u8>>, trunks: Seq<u64>, stored: Seq<u64>, i: int)
    requires
        chained(staged, trunks, stored),
        0 <= i < trunks.len(),
    ensures
        staged.contains_key(trunks[i]),
    decreases trunks.len(),
{
    let n = choose|n: int| #[trigger]
        chain_link(staged, trunks, stored, n) && chained(
            staged,
            trunks.drop_last(),
            stored.take(n),
        );
    if i < trunks.len() - 1 {
        lemma_chain_staged(staged, trunks.drop_last(), stored.take(n), i);
    }
}

/// A database stays sturdy over a commit and the reopening of its store, where no page is
/// free twice.
pub proof fn reopened_stores_are_sturdy(s: PagerState, fault_free: bool, t: PagerState)
    requires
        sturdy(s),
        s.free_list() is Done,
        s.free_list()->Done_0.no_duplicates(),
        s.meta.txn_id < u64::MAX,
        recordable(flushing(s).next_meta()),
        committed(s, fault_free, Ok(()), t),
    ensures
        sturdy(reopened(t.disk, t.meta, t.slot)),
        recover(t.disk) == Some((t.meta, t.slot)),
{
    broadcast use vstd::seq_lib::group_to_multiset_ensures;
    commits_anchor(s, fault_free, t);
    let v = s.with_free(s.free_list()->Done_0, s.free_list()->Done_1);
    let u = v.rebuilt();
    assert(sturdy(v));
    assert(all_in_range(v, v.free));
    lemma_rebuilt_is_sturdy(v);
    assert(all_in_range(u, u.free) && all_in_range(u, u.trunks));
    assert(landed(u, t.disk));
    let d = choose|d: Seq<u8>| #[trigger]
        flushed(u.disk, u.meta.page_count * PAGE_SIZE, u.staged, d) && t.disk == written(
            d,
            u.other_slot() * PAGE_SIZE,
            meta_image(u.next_meta(), u.other_slot()),
        );
    committed_free_list_reads_back(v, d);
    let r = reopened(t.disk, t.meta, t.slot);
    let (free, trunks) = (r.free_list()->Done_0, r.free_list()->Done_1);
    assert(all_in_range(r, free)) by {
        assert forall|i: int| 0 <= i < free.len() implies r.in_range(#[trigger] free[i]) by {
            assert(free.to_multiset().contains(free[i])) by {
                assert(free.contains(free[i]));
            }
            assert(u.free.contains(free[i]));
            assert(u.in_range(u.free[u.free.index_of(free[i])]));
        }
    }
    assert(all_in_range(r, trunks)) by {
        assert forall|i: int| 0 <= i < trunks.len() implies r.in_range(#[trigger] trunks[i]) by {
            assert(trunks[i] == u.trunks[u.trunks.len() - 1 - i]);
            assert(u.in_range(u.trunks[u.trunks.len() - 1 - i]));
        }
    }
}

// A run of operations.

/// What a pager is asked to do, of what changes its state.
pub enum Step {
    /// Write an image to a page.
    Write(u64, Seq<u8>),
    /// Allocate a page.
    Allocate,
    /// Free a page.
    Free(u64),
    /// Set the catalog root.
    Root(Option<page::PageId>),
    /// Commit, by what came of it.
    Commit(bool, Result<()>),
}

/// Whether one step that was not refused made `t` of `s`, or a commit made it.
pub open spec fn stepped(s: PagerState, step: Step, t: PagerState) -> bool {
    let (free, trunks) = (s.free_list()->Done_0, s.free_list()->Done_1);
    match step {
        Step::Write(id, image) => s.in_range(id) && sound(image, id) && t == s.put(id, image),
        Step::Allocate => s.free_list() is Done && s.meta.page_count < u64::MAX && t == s.with_free(
            free,
            trunks,
        ).allocated(),
        Step::Free(id) => s.free_list() is Done && s.in_range(id) && t == s.with_free(
            free.push(id),
            trunks,
        ),
        Step::Root(root) => t == (PagerState {
            meta: Meta { catalog_root: root, ..s.meta },
            ..s
        }),
        Step::Commit(fault_free, r) => s.meta.txn_id < u64::MAX && committed(s, fault_free, r, t),
    }
}

/// Whether a pager went through these steps: `states[i]` is its state before the `i`-th.
pub open spec fn went(states: Seq<PagerState>, steps: Seq<Step>) -> bool {
    &&& states.len() == steps.len() + 1
    &&& forall|i: int| 0 <= i < steps.len() ==> #[trigger] stepped(states[i], steps[i], states[i + 1])
}

/// Whether a step neither writes nor frees page `id`.
pub open spec fn spares_page(step: Step, id: u64) -> bool {
    match step {
        Step::Write(k, _) => k != id,
        Step::Free(k) => k != id,
        _ => true,
    }
}

/// Whether page `id` is in use, neither free nor on the free list, and reads as `image`.
pub open spec fn in_use(s: PagerState, id: u64, image: Seq<u8>) -> bool {
    &&& s.slot <= 1
    &&& s.page(id) == Some(image)
    &&& s.free_list() is Done ==> !s.free_list()->Done_0.contains(id)
        && !s.free_list()->Done_1.contains(id)
    &&& forall|k: u64| #[trigger]
        s.staged.contains_key(k) && k >= FIRST_DATA_PAGE ==> sound(s.staged[k], k)
}

proof fn lemma_rebuilt_in_use(s: PagerState, id: u64, image: Seq<u8>)
    requires
        in_use(s, id, image),
        s.loaded,
    ensures
        in_use(s.rebuilt(), id, image),
{
    let b = Built { staged: s.staged, stored: Seq::empty(), trunks: Seq::empty(), head: 0 };
    let r = build(s.free, b);
    lemma_build_keeps(s.free, b, id);
    lemma_build_draws(s.free, b);
    lemma_build_sound(s.free, b);
    if r.stored.contains(id) {
        assert(r.stored[r.stored.index_of(id)] == id);
    }
    if r.trunks.contains(id) {
        assert(r.trunks[r.trunks.index_of(id)] == id);
    }
}

proof fn lemma_build_sound(pool: Seq<u64>, b: Built)
    requires
        forall|k: u64| #[trigger]
            b.staged.contains_key(k) && k >= FIRST_DATA_PAGE ==> sound(b.staged[k], k),
    ensures
        forall|k: u64| #[trigger]
            build(pool, b).staged.contains_key(k) && k >= FIRST_DATA_PAGE ==> sound(
                build(pool, b).staged[k],
                k,
            ),
    decreases pool.len(),
{
    if pool.len() > 0 {
        let container = pool.last();
        let rest = pool.drop_last();
        let cut = rest.len() - trunk_take(rest.len());
        let ids = rest.skip(cut);
        let b2 = Built {
            staged: b.staged.insert(container, trunk_image(container, b.head, ids)),
            stored: b.stored + ids,
            trunks: b.trunks.push(container),
            head: container,
        };
        lemma_trunk_image_sound(container, b.head, ids);
        lemma_build_sound(rest.take(cut), b2);
        assert(build(pool, b) == build(rest.take(cut), b2));
    }
}

proof fn lemma_commit_in_use(s: PagerState, fault_free: bool, r: Result<()>, t: PagerState, id: u64, image: Seq<u8>)
    requires
        in_use(s, id, image),
        committed(s, fault_free, r, t),
    ensures
        in_use(t, id, image),
{
    if s.free_list() is Done {
        let trunks = s.free_list()->Done_1;
        let v = s.with_free(s.free_list()->Done_0, trunks);
        let u = v.rebuilt();
        assert(v.page(id) == s.page(id));
        assert(in_use(v, id, image));
        lemma_rebuilt_in_use(v, id, image);
        let other = u.other_slot();
        if r is Ok {
            let d = choose|d: Seq<u8>| #[trigger]
                flushed(s.disk, u.meta.page_count * PAGE_SIZE, u.staged, d) && t == u.promoted(
                    written(d, other * PAGE_SIZE, meta_image(u.next_meta(), other)),
                    trunks,
                );
            committed_pages_are_read_back(v, d, id);
            assert(t.page(id) == reopened(t.disk, t.meta, t.slot).page(id));
            if t.free.contains(id) {
                let q = t.free.index_of(id);
                if q < u.free.len() {
                    assert(u.free[q] == id);
                } else {
                    assert(trunks[q - u.free.len()] == id);
                }
            }
        } else if t != s {
            if !u.staged.contains_key(id) {
                assert forall|i: int| id * PAGE_SIZE <= i < id * PAGE_SIZE + PAGE_SIZE implies
                    t.disk[i] == s.disk[i] by {
                    assert(i / PAGE_SIZE as int == id);
                    assert(!covers(u.staged, i));
                }
                assert(page_bytes(t.disk, id as int) =~= page_bytes(s.disk, id as int));
            }
        }
    }
}

/// What was written to a page is read from it until it is written again or freed: no
/// write to another page, no allocation, no freeing of another page and no commit, failed
/// or not, changes it.
///
/// Before the first step the page is in use and reads as `image`.
pub proof fn written_page_is_read_back(
    states: Seq<PagerState>,
    steps: Seq<Step>,
    id: u64,
    image: Seq<u8>,
    n: nat,
)
    requires
        went(states, steps),
        in_use(states[0], id, image),
        n <= steps.len(),
        forall|i: int| 0 <= i < steps.len() ==> spares_page(#[trigger] steps[i], id),
    ensures
        in_use(states[n as int], id, image),
    decreases n,
{
    if n > 0 {
        written_page_is_read_back(states, steps, id, image, (n - 1) as nat);
        let (s, step, t) = (states[n - 1], steps[n - 1], states[n as int]);
        assert(stepped(states[n - 1], steps[n - 1], states[n - 1 + 1]));
        let free = s.free_list()->Done_0;
        match step {
            Step::Write(_, _) => {
                assert(t.free_list() == s.free_list());
            },
            Step::Allocate => {
                if t.free.contains(id) {
                    let q = t.free.index_of(id);
                    assert(free[q] == id);
                }
            },
            Step::Free(k) => {
                if t.free.contains(id) {
                    let q = t.free.index_of(id);
                    if q < free.len() {
                        assert(free[q] == id);
                    }
                }
            },
            Step::Root(_) => {
                assert(t.free_list() == s.free_list());
            },
            Step::Commit(fault_free, r) => {
                lemma_commit_in_use(s, fault_free, r, t, id, image);
            },
        }
    }
}

/// The pages that the first `n` steps handed out, in order.
pub open spec fn handed_out(states: Seq<PagerState>, steps: Seq<Step>, n: nat) -> Seq<page::PageId>
    decreases n,
{
    if n == 0 {
        Seq::empty()
    } else {
        let rest = handed_out(states, steps, (n - 1) as nat);
        let s = states[n - 1];
        if steps[n - 1] is Allocate {
            rest.push(
                page::PageId(
                    s.with_free(s.free_list()->Done_0, s.free_list()->Done_1).next_id(),
                ),
            )
        } else {
            rest
        }
    }
}

/// A recording holds the pages handed out since it began, in order, whatever else was
/// done meanwhile.
pub proof fn recordings_hold_what_was_handed_out(
    states: Seq<PagerState>,
    steps: Seq<Step>,
    n: nat,
)
    requires
        went(states, steps),
        states[0].log == Some(Seq::<page::PageId>::empty()),
        n <= steps.len(),
    ensures
        states[n as int].log == Some(handed_out(states, steps, n)),
    decreases n,
{
    if n > 0 {
        recordings_hold_what_was_handed_out(states, steps, (n - 1) as nat);
        assert(stepped(states[n - 1], steps[n - 1], states[n - 1 + 1]));
    }
}

} // verus!
