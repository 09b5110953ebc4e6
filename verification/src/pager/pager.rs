//! The pager: paged, checksummed, atomically-committing access to an
//! [`IoBackend`].

use vstd::prelude::*;
use std::collections::HashSet;
use std::sync::Arc;
use crate::bytes::{le_bytes, splice};
use crate::common::io::{
    lemma_reaches_push, reaches, resized, settling, torn, written, IoBackend, StoreOp,
};
use super::cache::{all_clean, evicted, lists_dirty, Entry, PageCache};
use super::error::{CorruptionKind, PagerError, Result};
use super::freelist;
use super::freelist::{count_of, CAPACITY};
use super::laws::{commits_keep_sturdy, flushing, lemma_fresh_is_sturdy};
use super::meta::{initial_meta, opt_number, u64_to_opt, Meta};
use super::page;
use super::page::{
    page_flaw, page_image, sound, zero_page, Frame, PageId, PageType, FIRST_DATA_PAGE,
    PAGE_PAYLOAD_SIZE, PAGE_SIZE,
};
use super::state::{
    audit, backed, build, check_chain, check_ids, covers, flushed, kept_around, kept_outside,
    meta_image, moored, page_bytes, recover, slot_meta, slots_unstaged, sturdy, trunk_ids,
    trunk_image, trunk_take, unsettled, walk, with_ids, Audit, Built, Checked, PagerState,
    PagerStats, Walked, MAX_PAGES,
};

verus! {

broadcast use vstd::std_specs::hash::group_hash_axioms;

/// Default page-cache budget (1 MiB) when not otherwise specified.
pub const DEFAULT_CACHE_BYTES: usize = 1048576;

/// Paged access to a single backing store.
///
/// Construct with [`Pager::create`] (fresh file) or [`Pager::open`] (existing).
/// Mutations ([`allocate`](Self::allocate), [`free`](Self::free),
/// [`write_page`](Self::write_page)) are staged in the cache and made durable
/// atomically by [`commit`](Self::commit) via the double-buffered meta swap.
pub struct Pager<B: IoBackend> {
    backend: B,
    cache: PageCache,
    meta: Meta,
    /// The meta slot (0 or 1) currently holding committed state.
    active_slot: u64,
    /// When `Some`, every [`allocate`](Pager::allocate) records the page it hands
    /// out here.
    alloc_log: Option<Vec<PageId>>,
    /// The authoritative set of free (allocatable) page ids. `allocate`/`free`
    /// mutate only this; the durable trunk chain is a serialization of it,
    /// rebuilt into crash-safe pages at each `commit`.
    free_set: Vec<u64>,
    /// The pages currently serving as the durable trunk chain. They become free
    /// one commit after they go unreferenced.
    trunks: Vec<u64>,
    /// Whether `free_set`/`trunks` have been loaded from the durable trunk
    /// chain. Loading is deferred to the first write, so that a database whose
    /// free list is corrupt stays fully readable.
    free_loaded: bool,
}

/// The dirty images of a cache.
spec fn staged_of(m: Map<u64, Entry>) -> Map<u64, Seq<u8>> {
    Map::new(|k: u64| m.contains_key(k) && m[k].dirty, |k: u64| m[k].frame@)
}

/// Whether each cached data page is sound, and a clean one as in the store.
spec fn cache_ok(m: Map<u64, Entry>, disk: Seq<u8>) -> bool {
    forall|k: u64| #[trigger]
        m.contains_key(k) && k >= FIRST_DATA_PAGE ==> sound(m[k].frame@, k) && (!m[k].dirty
            ==> backed(disk, k as int) && m[k].frame@ == page_bytes(disk, k as int))
}

proof fn lemma_dirty_insert(m: Map<u64, Entry>, id: u64, e: Entry, budget: usize, n: Map<u64, Entry>, disk: Seq<u8>)
    requires
        e.dirty,
        evicted(m.insert(id, e), budget, n),
        cache_ok(m, disk),
        id >= FIRST_DATA_PAGE ==> sound(e.frame@, id),
    ensures
        staged_of(n) == staged_of(m).insert(id, e.frame@),
        cache_ok(n, disk),
{
    let m2 = m.insert(id, e);
    assert forall|k: u64| #[trigger] n.contains_key(k) implies m2.contains_key(k) && m2[k]
        == n[k] by {}
    assert(m2.contains_key(id));
    assert forall|k: u64| staged_of(n).contains_key(k) <==> staged_of(m).insert(
        id,
        e.frame@,
    ).contains_key(k) by {
        if m2.contains_key(k) && m2[k].dirty {
            assert(n.contains_key(k));
        }
    }
    assert(staged_of(n) =~= staged_of(m).insert(id, e.frame@));
}

proof fn lemma_clean_insert(m: Map<u64, Entry>, id: u64, e: Entry, budget: usize, n: Map<u64, Entry>, disk: Seq<u8>)
    requires
        !e.dirty,
        !m.contains_key(id),
        evicted(m.insert(id, e), budget, n),
        cache_ok(m, disk),
        backed(disk, id as int),
        e.frame@ == page_bytes(disk, id as int),
        sound(e.frame@, id),
    ensures
        staged_of(n) == staged_of(m),
        cache_ok(n, disk),
{
    let m2 = m.insert(id, e);
    assert forall|k: u64| #[trigger] n.contains_key(k) implies m2.contains_key(k) && m2[k]
        == n[k] by {}
    assert forall|k: u64| staged_of(n).contains_key(k) <==> staged_of(m).contains_key(k) by {
        if m2.contains_key(k) && m2[k].dirty {
            assert(n.contains_key(k));
        }
    }
    assert(staged_of(n) =~= staged_of(m));
}

impl<B: IoBackend> Pager<B> {
    /// The backing store.
    pub closed spec fn store(&self) -> B {
        self.backend
    }

    /// The abstract state.
    pub closed spec fn state(&self) -> PagerState {
        PagerState {
            disk: self.backend.contents(),
            durable: self.backend.durable(),
            staged: staged_of(self.cache@),
            meta: self.meta,
            slot: self.active_slot,
            free: self.free_set@,
            trunks: self.trunks@,
            loaded: self.free_loaded,
            log: match self.alloc_log {
                Some(l) => Some(l@),
                None => None,
            },
        }
    }

    /// What every operation keeps: a slot of 0 or 1, a meta of this build's
    /// format, sound staged images, and a cache that agrees with the store.
    pub closed spec fn wf(&self) -> bool {
        &&& self.active_slot <= 1
        &&& self.meta.format_version == 1
        &&& self.meta.page_size == 4096
        &&& self.meta.page_count >= FIRST_DATA_PAGE
        &&& self.meta.freelist_head != Some(PageId(0))
        &&& cache_ok(self.cache@, self.backend.contents())
    }

    /// Whether the store is known to fail nothing that it can do.
    pub open spec fn fault_free(&self) -> bool {
        self.store().fault_free()
    }

    /// What a well-formed pager's state satisfies.
    pub proof fn wf_state(&self)
        requires
            self.wf(),
        ensures
            self.state().slot <= 1,
            self.state().meta.format_version == 1,
            self.state().meta.page_size == 4096,
            self.state().meta.page_count >= FIRST_DATA_PAGE,
            self.state().meta.freelist_head != Some(PageId(0)),
            self.state().disk == self.store().contents(),
            self.state().durable == self.store().durable(),
            forall|k: u64| #[trigger]
                self.state().staged.contains_key(k) && k >= FIRST_DATA_PAGE ==> sound(
                    self.state().staged[k],
                    k,
                ),
    {
    }

    /// Create a fresh database on an empty backend, with a 1 MiB cache.
    pub fn create(backend: B) -> (r: Result<Self>)
        ensures
            backend.fault_free() ==> r is Ok,
            match r {
                Ok(p) => p.wf() && p.state() == fresh(backend.contents()) && sturdy(p.state())
                    && (backend.fault_free() ==> p.fault_free()) && reaches(
                    backend,
                    create_calls(),
                    p.store(),
                ),
                Err(e) => e is Io,
            },
    {
        Self::create_with_cache(backend, DEFAULT_CACHE_BYTES)
    }

    /// Create a fresh database, specifying the page-cache byte budget.
    pub fn create_with_cache(backend: B, cache_bytes: usize) -> (r: Result<Self>)
        ensures
            backend.fault_free() ==> r is Ok,
            match r {
                Ok(p) => p.wf() && p.state() == fresh(backend.contents()) && sturdy(p.state())
                    && (backend.fault_free() ==> p.fault_free()) && reaches(
                    backend,
                    create_calls(),
                    p.store(),
                ),
                Err(e) => e is Io,
            },
    {
        let mut backend = backend;
        let ghost before = backend.contents();
        let ghost b0 = backend;
        let meta = Meta::initial();
        // Reserve both meta slots on disk.
        match backend.truncate(8192) {
            Ok(_) => {},
            Err(e) => {
                return Err(PagerError::Io(e));
            },
        }
        let ghost b1 = backend;
        // Write the initial meta into slot 0; slot 1 stays as it is, so the
        // first commit writes slot 1.
        let mut frame = page::zeroed();
        meta.encode(&mut frame);
        page::finalize(&mut frame, PageType::Meta, PageId::new(0));
        match backend.write_at(0, frame.as_slice()) {
            Ok(_) => {},
            Err(e) => {
                return Err(PagerError::Io(e));
            },
        }
        let ghost b2 = backend;
        match backend.sync() {
            Ok(_) => {},
            Err(e) => {
                return Err(PagerError::Io(e));
            },
        }
        let pager = Pager {
            backend,
            cache: PageCache::new(cache_bytes),
            meta,
            active_slot: 0,
            alloc_log: None,
            free_set: Vec::new(),
            trunks: Vec::new(),
            // A fresh database starts with an empty, already-loaded free set.
            free_loaded: true,
        };
        proof {
            assert(staged_of(pager.cache@) =~= Map::empty());
            assert(pager.state() =~= fresh(before));
            let none = Seq::<StoreOp>::empty();
            let calls = create_calls();
            lemma_reaches_push(b0, none, b0, calls[0], b1);
            lemma_reaches_push(b0, none.push(calls[0]), b1, calls[1], b2);
            lemma_reaches_push(
                b0,
                none.push(calls[0]).push(calls[1]),
                b2,
                calls[2],
                pager.backend,
            );
            assert(none.push(calls[0]).push(calls[1]).push(calls[2]) =~= calls);
            lemma_fresh_is_sturdy(before);
        }
        Ok(pager)
    }

    /// Open an existing database, with a 1 MiB cache.
    pub fn open(backend: B) -> (r: Result<Self>)
        ensures
            opened(backend, r),
    {
        Self::open_with_cache(backend, DEFAULT_CACHE_BYTES)
    }

    /// Open an existing database, specifying the page-cache byte budget.
    ///
    /// Both meta slots are validated by checksum; the valid slot with the
    /// highest committed transaction id is adopted (ties favour slot 0).
    pub fn open_with_cache(backend: B, cache_bytes: usize) -> (r: Result<Self>)
        ensures
            opened(backend, r),
    {
        let mut backend = backend;
        let ghost disk = backend.contents();
        match backend.len() {
            Ok(n) => {
                if n < 8192 {
                    return Err(PagerError::Corruption(CorruptionKind::NoValidMeta));
                }
            },
            Err(e) => {
                return Err(PagerError::Io(e));
            },
        }
        let slot0 = Self::read_meta(&mut backend, 0);
        let slot1 = Self::read_meta(&mut backend, 1);
        let (meta, active_slot): (Meta, u64) = match (slot0, slot1) {
            (Ok(a), Ok(b)) => {
                if b.txn_id > a.txn_id {
                    (b, 1)
                } else {
                    (a, 0)
                }
            },
            (Ok(a), Err(_)) => (a, 0),
            (Err(_), Ok(b)) => (b, 1),
            (Err(_), Err(_)) => {
                return Err(PagerError::Corruption(CorruptionKind::NoValidMeta));
            },
        };
        let pager = Pager {
            backend,
            cache: PageCache::new(cache_bytes),
            meta,
            active_slot,
            alloc_log: None,
            // Deferred until the first write recovers it from the trunk chain.
            free_set: Vec::new(),
            trunks: Vec::new(),
            free_loaded: false,
        };
        proof {
            page::lemma_fields_fit(page_bytes(disk, active_slot as int), 40);
            assert(staged_of(pager.cache@) =~= Map::empty());
            assert(pager.state() =~= PagerState {
                durable: pager.backend.durable(),
                ..reopened(disk, meta, active_slot)
            });
        }
        Ok(pager)
    }

    fn read_meta(backend: &mut B, slot: u64) -> (r: Result<Meta>)
        requires
            slot <= 1,
        ensures
            final(backend).contents() == old(backend).contents(),
            final(backend).durable() == old(backend).durable(),
            old(backend).fault_free() ==> final(backend).fault_free(),
            match r {
                Err(PagerError::Io(_)) => !old(backend).fault_free() || !backed(
                    old(backend).contents(),
                    slot as int,
                ),
                _ => backed(old(backend).contents(), slot as int) && r == slot_meta(
                    old(backend).contents(),
                    slot,
                ),
            },
    {
        let mut frame: Frame = [0u8;PAGE_SIZE];
        match backend.read_at(slot * 4096, &mut frame) {
            Ok(_) => {},
            Err(e) => {
                return Err(PagerError::Io(e));
            },
        }
        assert(frame@ == page_bytes(old(backend).contents(), slot as int));
        let verified = match page::verify(frame.as_slice(), PageId::new(slot)) {
            Ok(f) => f,
            Err(e) => {
                return Err(e);
            },
        };
        match page::page_type(verified) {
            Ok(t) => {
                if t != PageType::Meta {
                    return Err(PagerError::Corruption(CorruptionKind::BadMeta { slot }));
                }
            },
            Err(e) => {
                return Err(e);
            },
        }
        Meta::decode(verified, PageId::new(slot))
    }
}

/// What reading page `id` of a store may give: its image if it is sound, its
/// flaw if it is not, and an I/O error only where the store fails or ends.
pub open spec fn reads(disk: Seq<u8>, id: u64, fault_free: bool, r: Result<Seq<u8>>) -> bool {
    match r {
        Ok(bytes) => backed(disk, id as int) && sound(bytes, id) && bytes == page_bytes(
            disk,
            id as int,
        ),
        Err(PagerError::Io(_)) => !fault_free || !backed(disk, id as int),
        Err(e) => backed(disk, id as int) && page_flaw(page_bytes(disk, id as int), id) is Some
            && e == PagerError::Corruption(page_flaw(page_bytes(disk, id as int), id)->0),
    }
}

/// A result by the bytes of its frame.
pub open spec fn image_of<F: View<V = Seq<u8>>>(r: Result<F>) -> Result<Seq<u8>> {
    match r {
        Ok(f) => Ok(f@),
        Err(e) => Err(e),
    }
}

/// What recovering the free list may give, `w` being what the store holds.
pub open spec fn loads<T>(w: Walked, fault_free: bool, r: Result<T>) -> bool {
    match r {
        Ok(_) => w is Done,
        Err(PagerError::Io(_)) => !fault_free || w is Unbacked,
        Err(e) => w is Flaw && e == PagerError::Corruption(w->Flaw_0),
    }
}

/// Distinct numbers in `[lo, hi)` are at most `hi - lo` many.
pub proof fn lemma_distinct_bounded(s: Seq<u64>, lo: u64, hi: u64)
    requires
        lo <= hi,
        s.no_duplicates(),
        forall|i: int| 0 <= i < s.len() ==> lo <= #[trigger] s[i] < hi,
    ensures
        s.len() <= hi - lo,
    decreases hi - lo,
{
    if s.len() > 0 {
        assert(lo <= s[0] < hi);
        let top = (hi - 1) as u64;
        if s.contains(top) {
            let k = s.index_of(top);
            let t = s.remove(k);
            assert forall|i: int, j: int| 0 <= i < t.len() && 0 <= j < t.len() && i != j implies t[i]
                != t[j] by {}
            assert forall|i: int| 0 <= i < t.len() implies lo <= #[trigger] t[i] < top by {
                assert(t[i] == if i < k {
                    s[i]
                } else {
                    s[i + 1]
                });
            }
            lemma_distinct_bounded(t, lo, top);
        } else {
            assert forall|i: int| 0 <= i < s.len() implies lo <= #[trigger] s[i] < top by {
                assert(s[i] != top);
            }
            lemma_distinct_bounded(s, lo, top);
        }
    }
}

/// A set of numbers in `[lo, hi)` has at most `hi - lo` members.
proof fn lemma_set_bounded(s: Set<u64>, lo: u64, hi: u64)
    requires
        lo <= hi,
        s.finite(),
        forall|k: u64| #[trigger] s.contains(k) ==> lo <= k < hi,
    ensures
        s.len() <= hi - lo,
    decreases hi - lo,
{
    if s.len() > 0 {
        let k = s.choose();
        assert(s.contains(k));
        let top = (hi - 1) as u64;
        lemma_set_bounded(s.remove(top), lo, top);
    }
}

pub proof fn lemma_with_ids_len(page: Seq<u8>, ids: Seq<u64>)
    ensures
        with_ids(page, ids).len() == page.len(),
    decreases ids.len(),
{
    if ids.len() > 0 {
        lemma_with_ids_len(page, ids.drop_last());
    }
}

/// A trunk image is a sound page.
pub proof fn lemma_trunk_image_sound(id: u64, next: u64, ids: Seq<u64>)
    ensures
        sound(trunk_image(id, next, ids), id),
        trunk_image(id, next, ids).len() == PAGE_SIZE,
{
    let base = splice(
        splice(zero_page(), 16, le_bytes(next as nat, 8)),
        24,
        le_bytes(ids.len(), 4),
    );
    lemma_with_ids_len(base, ids);
    page::finalize_then_verify(with_ids(base, ids), PageType::Freelist, id);
}

/// A chain under construction stages pages of its pool only.
pub proof fn lemma_build_keys(pool: Seq<u64>, b: Built)
    ensures
        forall|k: u64| #[trigger]
            build(pool, b).staged.contains_key(k) ==> b.staged.contains_key(k) || pool.contains(k),
        forall|k: u64| #[trigger]
            b.staged.contains_key(k) ==> build(pool, b).staged.contains_key(k),
    decreases pool.len(),
{
    if pool.len() > 0 {
        let container = pool.last();
        let rest = pool.drop_last();
        let cut = rest.len() - trunk_take(rest.len());
        let ids = rest.skip(cut);
        let b2 = Built {
            staged: b.staged.insert(container, trunk_image(container, b.head, ids)),
            stored: b.stored + ids,
            trunks: b.trunks.push(container),
            head: container,
        };
        lemma_build_keys(rest.take(cut), b2);
        assert forall|k: u64| #[trigger] build(pool, b).staged.contains_key(k) implies
            b.staged.contains_key(k) || pool.contains(k) by {
            assert(build(rest.take(cut), b2).staged.contains_key(k));
            if rest.take(cut).contains(k) {
                let i = rest.take(cut).index_of(k);
                assert(pool[i] == k);
            } else if !b.staged.contains_key(k) {
                assert(k == container);
                assert(pool[pool.len() - 1] == k);
            }
        }
        assert forall|k: u64| #[trigger] b.staged.contains_key(k) implies build(
            pool,
            b,
        ).staged.contains_key(k) by {
            assert(b2.staged.contains_key(k));
        }
    }
}

/// Whether `d` is `base` with the first `n` images of `list` in their places.
spec fn partly(base: Seq<u8>, list: Seq<(u64, Arc<Frame>)>, n: int, d: Seq<u8>) -> bool {
    &&& base.len() <= d.len()
    &&& d.len() == base.len() || exists|j: int|
        0 <= j < n && d.len() == (#[trigger] list[j]).0 * PAGE_SIZE + PAGE_SIZE
    &&& forall|j: int|
        0 <= j < n ==> backed(d, (#[trigger] list[j]).0 as int) && page_bytes(d, list[j].0 as int)
            == list[j].1@
    &&& forall|i: int|
        #![trigger d[i]]
        0 <= i < d.len() && (forall|j: int|
            0 <= j < n ==> (#[trigger] list[j]).0 != i / PAGE_SIZE as int) ==> d[i] == if i
            < base.len() {
            base[i]
        } else {
            0u8
        }
}

proof fn lemma_flush_step(base: Seq<u8>, list: Seq<(u64, Arc<Frame>)>, n: int, d: Seq<u8>)
    requires
        0 <= n < list.len(),
        forall|i: int, j: int|
            0 <= i < j < list.len() ==> (#[trigger] list[i]).0 != (#[trigger] list[j]).0,
        partly(base, list, n, d),
    ensures
        partly(base, list, n + 1, written(d, list[n].0 * PAGE_SIZE, list[n].1@)),
{
    let id = list[n].0 as int;
    let w = written(d, id * PAGE_SIZE, list[n].1@);
    assert(page_bytes(w, id) =~= list[n].1@);
    assert forall|j: int| 0 <= j < n + 1 implies backed(w, (#[trigger] list[j]).0 as int)
        && page_bytes(w, list[j].0 as int) == list[j].1@ by {
        if j < n {
            assert(backed(d, list[j].0 as int));
            assert(list[j].0 != list[n].0);
            assert(page_bytes(w, list[j].0 as int) =~= page_bytes(d, list[j].0 as int));
        }
    }
    assert forall|i: int|
        #![trigger w[i]]
        0 <= i < w.len() && (forall|j: int|
            0 <= j < n + 1 ==> (#[trigger] list[j]).0 != i / PAGE_SIZE as int) implies w[i] == if i
        < base.len() {
        base[i]
    } else {
        0u8
    } by {
        assert(list[n].0 != i / PAGE_SIZE as int);
        if i < d.len() {
            assert(w[i] == d[i]);
        }
    }
    if w.len() == d.len() {
        if d.len() != base.len() {
            let j = choose|j: int|
                0 <= j < n && d.len() == (#[trigger] list[j]).0 * PAGE_SIZE + PAGE_SIZE;
            assert(w.len() == list[j].0 * PAGE_SIZE + PAGE_SIZE);
        }
    } else {
        assert(w.len() == list[n].0 * PAGE_SIZE + PAGE_SIZE);
    }
}

/// Once all of the list is in place, the staged pages are flushed.
proof fn lemma_flush_done(
    disk: Seq<u8>,
    needed: int,
    base: Seq<u8>,
    m: Map<u64, Entry>,
    list: Seq<(u64, Arc<Frame>)>,
    d: Seq<u8>,
)
    requires
        lists_dirty(m, list),
        base == (if disk.len() < needed {
            resized(disk, needed)
        } else {
            disk
        }),
        partly(base, list, list.len() as int, d),
    ensures
        flushed(disk, needed, staged_of(m), d),
{
    let staged = staged_of(m);
    assert forall|k: u64| #[trigger] staged.contains_key(k) implies backed(d, k as int)
        && page_bytes(d, k as int) == staged[k] by {
        assert(m.contains_key(k));
        let i = choose|i: int| 0 <= i < list.len() && list[i].0 == k;
        assert(backed(d, list[i].0 as int));
    }
    assert forall|i: int| #![trigger d[i]] 0 <= i < d.len() && !covers(staged, i) implies d[i]
        == if i < disk.len() {
        disk[i]
    } else {
        0u8
    } by {
        assert forall|j: int| 0 <= j < list.len() implies (#[trigger] list[j]).0 != i
            / PAGE_SIZE as int by {
            assert(m.contains_key(list[j].0));
            assert(staged.contains_key(list[j].0));
        }
    }
    if d.len() != base.len() {
        let j = choose|j: int|
            0 <= j < list.len() && d.len() == (#[trigger] list[j]).0 * PAGE_SIZE + PAGE_SIZE;
        assert(m.contains_key(list[j].0));
        assert(staged.contains_key(list[j].0));
    }
}

/// A partial flush keeps what lies outside the staged pages.
proof fn lemma_partly_keeps(
    disk: Seq<u8>,
    base: Seq<u8>,
    m: Map<u64, Entry>,
    list: Seq<(u64, Arc<Frame>)>,
    n: int,
    d: Seq<u8>,
    slot: u64,
)
    requires
        lists_dirty(m, list),
        0 <= n <= list.len(),
        disk.len() <= base.len(),
        forall|i: int| 0 <= i < disk.len() ==> base[i] == disk[i],
        partly(base, list, n, d),
    ensures
        kept_around(disk, staged_of(m), d),
        kept_outside(disk, staged_of(m), slot, d),
{
    let staged = staged_of(m);
    assert forall|i: int|
        #![trigger d[i]]
        0 <= i < disk.len() && !covers(staged, i) implies d[i] == disk[i] by {
        assert forall|j: int| 0 <= j < n implies (#[trigger] list[j]).0 != i / PAGE_SIZE as int by {
            assert(m.contains_key(list[j].0));
            assert(staged.contains_key(list[j].0));
        }
    }
}

/// A write within a staged page that failed half-way keeps what lies outside them.
proof fn lemma_torn_keeps_around(before: Seq<u8>, d: Seq<u8>, staged: Map<u64, Seq<u8>>, id: u64, data: Seq<u8>, after: Seq<u8>)
    requires
        kept_around(before, staged, d),
        staged.contains_key(id),
        data.len() == PAGE_SIZE,
        torn(d, id * PAGE_SIZE, data, after),
    ensures
        kept_around(before, staged, after),
{
    assert forall|i: int| #![trigger after[i]] 0 <= i < before.len() && !covers(staged, i) implies
        after[i] == before[i] by {
        assert(d[i] == before[i]);
        assert(i / PAGE_SIZE as int != id);
    }
}

/// A write within page `id` that failed half-way keeps every other page.
proof fn lemma_torn_keeps(before: Seq<u8>, d: Seq<u8>, staged: Map<u64, Seq<u8>>, slot: u64, id: u64, data: Seq<u8>, after: Seq<u8>)
    requires
        kept_outside(before, staged, slot, d),
        staged.contains_key(id) || id == slot,
        data.len() == PAGE_SIZE,
        torn(d, id * PAGE_SIZE, data, after),
    ensures
        kept_outside(before, staged, slot, after),
{
    assert forall|i: int|
        #![trigger after[i]]
        0 <= i < before.len() && !covers(staged, i) && i / PAGE_SIZE as int != slot implies after[i]
        == before[i] by {
        assert(d[i] == before[i]);
        assert(i / PAGE_SIZE as int != id);
    }
}

/// A cache that agreed with a store agrees with it after a change outside its
/// clean pages.
proof fn lemma_cache_kept(m: Map<u64, Entry>, disk: Seq<u8>, slot: u64, d: Seq<u8>)
    requires
        cache_ok(m, disk),
        slot <= 1,
        kept_outside(disk, staged_of(m), slot, d),
    ensures
        cache_ok(m, d),
{
    assert forall|k: u64| #[trigger]
        m.contains_key(k) && k >= FIRST_DATA_PAGE implies sound(m[k].frame@, k) && (!m[k].dirty
        ==> backed(d, k as int) && m[k].frame@ == page_bytes(d, k as int)) by {
        if !m[k].dirty {
            assert forall|i: int| k * PAGE_SIZE <= i < k * PAGE_SIZE + PAGE_SIZE implies d[i]
                == disk[i] by {
                assert(i / PAGE_SIZE as int == k);
                assert(!covers(staged_of(m), i));
            }
            assert(page_bytes(d, k as int) =~= page_bytes(disk, k as int));
        }
    }
}

/// After the flush, and the meta write in `slot`, every cached data page is as
/// in the store.
proof fn lemma_flushed_cache(
    m: Map<u64, Entry>,
    disk: Seq<u8>,
    needed: int,
    d2: Seq<u8>,
    slot: u64,
    image: Seq<u8>,
    d3: Seq<u8>,
)
    requires
        cache_ok(m, d2),
        flushed(disk, needed, staged_of(m), d2),
        slot <= 1,
        image.len() == PAGE_SIZE,
        needed >= 8192,
        d3 == written(d2, slot * PAGE_SIZE, image),
    ensures
        cache_ok(all_clean(m), d3),
{
    let n = all_clean(m);
    assert forall|k: u64| #[trigger] n.contains_key(k) && k >= FIRST_DATA_PAGE implies sound(
        n[k].frame@,
        k,
    ) && backed(d3, k as int) && n[k].frame@ == page_bytes(d3, k as int) by {
        assert(m.contains_key(k));
        if m[k].dirty {
            assert(staged_of(m).contains_key(k));
        }
        assert(backed(d2, k as int));
        assert(page_bytes(d3, k as int) =~= page_bytes(d2, k as int));
    }
}

/// The calls that creating a database makes: room for both slots, the first meta, and that
/// made durable.
pub open spec fn create_calls() -> Seq<StoreOp> {
    seq![
        StoreOp::Truncate(8192),
        StoreOp::Write { at: 0, data: meta_image(initial_meta(), 0) },
        StoreOp::Sync,
    ]
}

/// Whether operations are reads.
pub open spec fn reads_only(ops: Seq<StoreOp>) -> bool {
    forall|i: int| 0 <= i < ops.len() ==> #[trigger] ops[i] is Read
}

/// Whether `ids` are the staged pages, each once.
pub open spec fn lists_staged(staged: Map<u64, Seq<u8>>, ids: Seq<u64>) -> bool {
    &&& ids.no_duplicates()
    &&& forall|k: u64| #[trigger] ids.contains(k) <==> staged.contains_key(k)
}

/// One write for each of these pages, of its staged image to its place.
pub open spec fn page_writes(staged: Map<u64, Seq<u8>>, ids: Seq<u64>) -> Seq<StoreOp> {
    Seq::new(
        ids.len(),
        |i: int| StoreOp::Write { at: (ids[i] * PAGE_SIZE) as u64, data: staged[ids[i]] },
    )
}

/// What makes room for the pages of `u`, where the store is too short for them.
pub open spec fn room_calls(u: PagerState) -> Seq<StoreOp> {
    if u.disk.len() < u.meta.page_count * PAGE_SIZE {
        seq![StoreOp::Truncate((u.meta.page_count * PAGE_SIZE) as u64)]
    } else {
        Seq::empty()
    }
}

/// The calls that a commit of the state `u` makes, its staged pages being `ids`: room if
/// it is needed, a write for each page, a sync, the new meta to the slot that is not in
/// use, and a sync.
pub open spec fn commit_calls(u: PagerState, ids: Seq<u64>) -> Seq<StoreOp> {
    room_calls(u) + page_writes(u.staged, ids) + seq![
        StoreOp::Sync,
        StoreOp::Write {
            at: (u.other_slot() * PAGE_SIZE) as u64,
            data: meta_image(u.next_meta(), u.other_slot()),
        },
        StoreOp::Sync,
    ]
}

/// Whether `b` is what a successful commit of `s` made of the store `a`: after reads, if
/// the free list had to be recovered, the calls of a commit and no others.
pub open spec fn commit_made<B: IoBackend>(a: B, s: PagerState, b: B) -> bool {
    exists|reads: Seq<StoreOp>, ids: Seq<u64>| #[trigger]
        reaches(a, reads + commit_calls(flushing(s), ids), b) && reads_only(reads) && (s.loaded
            ==> reads.len() == 0) && lists_staged(flushing(s).staged, ids)
}

/// Whether the calls up to the `n`th page of a commit lead from the store `a` to `b`.
#[verifier::opaque]
spec fn calls_so_far<B: IoBackend>(
    a: B,
    reads: Seq<StoreOp>,
    u: PagerState,
    ids: Seq<u64>,
    n: int,
    b: B,
) -> bool {
    reaches(a, reads + room_calls(u) + page_writes(u.staged, ids).take(n), b)
}

/// Making room, or finding room enough, comes before the first page.
proof fn lemma_calls_begin<B: IoBackend>(
    a: B,
    reads: Seq<StoreOp>,
    u: PagerState,
    ids: Seq<u64>,
    mid: B,
    size: u64,
    needed: u64,
    b: B,
)
    requires
        reaches(a, reads, mid),
        size == u.disk.len(),
        needed == u.meta.page_count * PAGE_SIZE,
        if size < needed {
            mid.does(StoreOp::Truncate(needed), &b, None)
        } else {
            b == mid
        },
    ensures
        calls_so_far(a, reads, u, ids, 0, b),
{
    reveal(calls_so_far);
    let next = reads + room_calls(u) + page_writes(u.staged, ids).take(0);
    if size < needed {
        lemma_reaches_push(a, reads, mid, StoreOp::Truncate(needed), b);
        assert(next =~= reads.push(StoreOp::Truncate(needed)));
    } else {
        assert(next =~= reads);
    }
}

/// Writing one more page.
proof fn lemma_calls_step<B: IoBackend>(
    a: B,
    reads: Seq<StoreOp>,
    u: PagerState,
    ids: Seq<u64>,
    n: int,
    mid: B,
    b: B,
)
    requires
        0 <= n < ids.len(),
        calls_so_far(a, reads, u, ids, n, mid),
        mid.does(page_writes(u.staged, ids)[n], &b, None),
    ensures
        calls_so_far(a, reads, u, ids, n + 1, b),
{
    reveal(calls_so_far);
    let made = reads + room_calls(u) + page_writes(u.staged, ids).take(n);
    let op = page_writes(u.staged, ids)[n];
    lemma_reaches_push(a, made, mid, op, b);
    assert(made.push(op) =~= reads + room_calls(u) + page_writes(u.staged, ids).take(n + 1));
}

/// The calls that end a commit.
proof fn lemma_calls_end<B: IoBackend>(
    a: B,
    reads: Seq<StoreOp>,
    u: PagerState,
    ids: Seq<u64>,
    b2: B,
    b3: B,
    b4: B,
    b: B,
)
    requires
        calls_so_far(a, reads, u, ids, ids.len() as int, b2),
        b2.does(StoreOp::Sync, &b3, None),
        b3.does(
            StoreOp::Write {
                at: (u.other_slot() * PAGE_SIZE) as u64,
                data: meta_image(u.next_meta(), u.other_slot()),
            },
            &b4,
            None,
        ),
        b4.does(StoreOp::Sync, &b, None),
    ensures
        reaches(a, reads + commit_calls(u, ids), b),
{
    reveal(calls_so_far);
    let writes = page_writes(u.staged, ids);
    let made = reads + room_calls(u) + writes.take(ids.len() as int);
    let put = StoreOp::Write {
        at: (u.other_slot() * PAGE_SIZE) as u64,
        data: meta_image(u.next_meta(), u.other_slot()),
    };
    lemma_reaches_push(a, made, b2, StoreOp::Sync, b3);
    lemma_reaches_push(a, made.push(StoreOp::Sync), b3, put, b4);
    lemma_reaches_push(a, made.push(StoreOp::Sync).push(put), b4, StoreOp::Sync, b);
    assert(writes.take(ids.len() as int) =~= writes);
    assert(made.push(StoreOp::Sync).push(put).push(StoreOp::Sync) =~= reads + commit_calls(u, ids));
}

/// The dirty pages of the cache are the staged pages.
proof fn lemma_dirty_lists(
    m: Map<u64, Entry>,
    staged: Map<u64, Seq<u8>>,
    dirty: Seq<(u64, Arc<Frame>)>,
    ids: Seq<u64>,
)
    requires
        lists_dirty(m, dirty),
        staged == staged_of(m),
        ids == Seq::new(dirty.len(), |j: int| dirty[j].0),
    ensures
        lists_staged(staged, ids),
{
    assert forall|k: u64| #[trigger] ids.contains(k) <==> staged.contains_key(k) by {
        if ids.contains(k) {
            let q = ids.index_of(k);
            assert(m.contains_key(dirty[q].0));
        }
        if staged.contains_key(k) {
            let q = choose|q: int| 0 <= q < dirty.len() && #[trigger] dirty[q].0 == k;
            assert(ids[q] == k);
        }
    }
}

/// What a commit that the store failed may leave, `u` being the state that was
/// flushed. Either the meta was not reached, and every byte outside the staged pages is
/// kept; or it was, and only after all the staged pages were in place and durable: then
/// what was written of it is all that differs from that.
pub open spec fn interrupted(u: PagerState, disk: Seq<u8>, durable: Seq<u8>) -> bool {
    ||| kept_around(u.disk, u.staged, disk) && unsettled(u.durable, u.disk, u.staged, durable)
    ||| exists|d: Seq<u8>| #[trigger]
        flushed(u.disk, u.meta.page_count * PAGE_SIZE, u.staged, d) && torn_meta(u, d, disk)
            && torn_meta(u, d, durable)
}

/// Whether `after` is `d` with the new meta of `u` written to its slot, perhaps in part.
pub open spec fn torn_meta(u: PagerState, d: Seq<u8>, after: Seq<u8>) -> bool {
    torn(d, u.other_slot() * PAGE_SIZE, meta_image(u.next_meta(), u.other_slot()), after)
}

/// What a commit may do. `s` is the state before, `t` the state after.
///
/// Success: the free set was written into a fresh chain, the staged pages went
/// to the store, then the new meta went to the other slot, and all of it is durable.
/// Failure: either the free list could not be recovered and nothing changed, or the
/// store failed, which leaves the changes staged and the store as [`interrupted`] says.
pub open spec fn committed(s: PagerState, fault_free: bool, r: Result<()>, t: PagerState) -> bool {
    match s.free_list() {
        Walked::Done(free, trunks) => {
            let u = s.with_free(free, trunks).rebuilt();
            let needed = u.meta.page_count * PAGE_SIZE;
            match r {
                Ok(_) => exists|d: Seq<u8>| #[trigger]
                    flushed(s.disk, needed, u.staged, d) && t == u.promoted(
                        written(
                            d,
                            u.other_slot() * PAGE_SIZE,
                            meta_image(u.next_meta(), u.other_slot()),
                        ),
                        trunks,
                    ),
                Err(e) => {
                    &&& e is Io
                    &&& !fault_free || !fits_memory(u)
                    &&& t == (PagerState { disk: t.disk, durable: t.durable, ..u }) || (!fault_free
                        && t == s)
                    &&& interrupted(u, t.disk, t.durable)
                    &&& kept_outside(s.disk, u.staged, u.other_slot(), t.disk)
                },
            }
        },
        _ => t == s && r is Err && loads(s.free_list(), fault_free, r),
    }
}

/// What is durable stays within bounds while only staged pages are written.
proof fn lemma_unsettled_step(
    d: Seq<u8>,
    disk: Seq<u8>,
    staged: Map<u64, Seq<u8>>,
    e: Seq<u8>,
    before: Seq<u8>,
    after: Seq<u8>,
    e2: Seq<u8>,
)
    requires
        unsettled(d, disk, staged, e),
        kept_around(disk, staged, before),
        kept_around(disk, staged, after),
        settling(e, before, after, e2),
    ensures
        unsettled(d, disk, staged, e2),
{
    assert forall|i: int|
        #![trigger e2[i]]
        0 <= i < d.len() && i < disk.len() && !covers(staged, i) implies e2[i] == d[i] || e2[i]
        == disk[i] by {
        assert(i < e.len() && i < e2.len());
        assert(before[i] == disk[i]);
        assert(after[i] == disk[i]);
        assert(e[i] == d[i] || e[i] == disk[i]);
    }
}

/// Of a write within a store that was durable, at most a part is durable.
proof fn lemma_settling_tears(d: Seq<u8>, at: int, data: Seq<u8>, e: Seq<u8>, after: Seq<u8>, e2: Seq<u8>)
    requires
        0 <= at,
        at + data.len() <= d.len(),
        torn(d, at, data, e),
        torn(d, at, data, after),
        exists|before: Seq<u8>| #[trigger] torn(d, at, data, before) && settling(e, before, after, e2),
    ensures
        torn(d, at, data, e2),
{
    let before = choose|before: Seq<u8>| #[trigger] torn(d, at, data, before) && settling(e, before, after, e2);
    assert(written(d, at, data).len() == d.len());
    assert forall|i: int| #![trigger e2[i]] 0 <= i < e2.len() implies e2[i] == resized(
        d,
        e2.len() as int,
    )[i] || e2[i] == written(d, at, data)[i] by {
        assert(e[i] == d[i] || e[i] == written(d, at, data)[i]);
        assert(before[i] == d[i] || before[i] == written(d, at, data)[i]);
        assert(after[i] == d[i] || after[i] == written(d, at, data)[i]);
    }
}

/// Whether everything that a commit of `s` flushes can be addressed in memory.
pub open spec fn fits_memory(s: PagerState) -> bool {
    &&& s.meta.page_count * PAGE_SIZE <= usize::MAX
    &&& forall|k: u64| #[trigger] s.staged.contains_key(k) ==> k * PAGE_SIZE + PAGE_SIZE
        <= usize::MAX
}

impl<B: IoBackend> Pager<B> {
    /// Read page `id` straight from a backend, verifying it.
    fn read_sound(backend: &mut B, id: PageId) -> (r: Result<Box<Frame>>)
        requires
            id.0 <= MAX_PAGES,
        ensures
            final(backend).contents() == old(backend).contents(),
            final(backend).durable() == old(backend).durable(),
            old(backend).fault_free() ==> final(backend).fault_free(),
            r is Ok ==> old(backend).does(
                StoreOp::Read { at: (id.0 * PAGE_SIZE) as u64, len: PAGE_SIZE as nat },
                &*final(backend),
                None,
            ),
            reads(old(backend).contents(), id.0, old(backend).fault_free(), image_of(r)),
    {
        let mut frame: Frame = [0u8;PAGE_SIZE];
        match backend.read_at(id.get() * 4096, &mut frame) {
            Ok(_) => {},
            Err(e) => {
                return Err(PagerError::Io(e));
            },
        }
        assert(frame@ == page_bytes(old(backend).contents(), id.0 as int));
        match page::verify(frame.as_slice(), id) {
            Ok(_) => Ok(Box::new(frame)),
            Err(e) => Err(e),
        }
    }

    /// Walk the committed free-list trunk chain, returning the free (allocatable)
    /// page ids it stores and the trunk page ids themselves.
    fn load_free_list(backend: &mut B, meta: &Meta) -> (r: Result<(Vec<u64>, Vec<u64>)>)
        requires
            meta.page_count <= MAX_PAGES,
            meta.freelist_head != Some(PageId(0)),
        ensures
            final(backend).contents() == old(backend).contents(),
            final(backend).durable() == old(backend).durable(),
            old(backend).fault_free() ==> final(backend).fault_free(),
            ({
                let w = walk(
                    old(backend).contents(),
                    meta.page_count,
                    opt_number(meta.freelist_head),
                    Seq::empty(),
                    Seq::empty(),
                );
                &&& loads(w, old(backend).fault_free(), r)
                &&& r matches Ok(v) ==> w == Walked::Done(v.0@, v.1@)
            }),
            r is Ok ==> exists|reads: Seq<StoreOp>|
                reads_only(reads) && #[trigger] reaches(*old(backend), reads, *final(backend)),
    {
        let ghost disk = backend.contents();
        let ghost mut reads: Seq<StoreOp> = Seq::empty();
        let mut free: Vec<u64> = Vec::new();
        let mut trunks: Vec<u64> = Vec::new();
        let mut seen: HashSet<u64> = HashSet::new();
        let mut head: Option<PageId> = meta.freelist_head;
        let ghost goal = walk(
            disk,
            meta.page_count,
            opt_number(meta.freelist_head),
            Seq::empty(),
            Seq::empty(),
        );
        while head.is_some()
            invariant
                backend.contents() == disk,
                reads_only(reads),
                reaches(*old(backend), reads, *backend),
                backend.durable() == old(backend).durable(),
                disk == old(backend).contents(),
                old(backend).fault_free() ==> backend.fault_free(),
                meta.page_count <= MAX_PAGES,
                head != Some(PageId(0)),
                goal == walk(disk, meta.page_count, opt_number(head), trunks@, free@),
                goal == walk(
                    disk,
                    meta.page_count,
                    opt_number(meta.freelist_head),
                    Seq::empty(),
                    Seq::empty(),
                ),
                trunks@.no_duplicates(),
                forall|i: int|
                    0 <= i < trunks@.len() ==> FIRST_DATA_PAGE <= #[trigger] trunks@[i]
                        < meta.page_count,
                forall|k: u64| seen@.contains(k) <==> trunks@.contains(k),
            decreases meta.page_count - trunks@.len(),
        {
            let trunk_id = head.unwrap();
            let id: u64 = trunk_id.get();
            if id < FIRST_DATA_PAGE || id >= meta.page_count {
                return Err(PagerError::Corruption(CorruptionKind::FreelistOutOfRange { id }));
            }
            if !seen.insert(id) {
                return Err(PagerError::Corruption(CorruptionKind::FreelistCycle { id }));
            }
            proof {
                lemma_distinct_bounded(trunks@, FIRST_DATA_PAGE, meta.page_count);
            }
            let ghost b0 = *backend;
            let frame = match Self::read_sound(backend, trunk_id) {
                Ok(frame) => frame,
                Err(e) => {
                    return Err(e);
                },
            };
            proof {
                let op = StoreOp::Read { at: (id * PAGE_SIZE) as u64, len: PAGE_SIZE as nat };
                lemma_reaches_push(*old(backend), reads, b0, op, *backend);
                reads = reads.push(op);
            }
            match page::page_type(&frame) {
                Ok(t) => {
                    if t != PageType::Freelist {
                        return Err(PagerError::Corruption(CorruptionKind::FreelistBadType { id }));
                    }
                },
                Err(e) => {
                    return Err(e);
                },
            }
            let count = freelist::count(&frame);
            if count > CAPACITY {
                return Err(PagerError::Corruption(CorruptionKind::FreelistBadCount { id }));
            }
            let ghost before_trunks = trunks@;
            let ghost before_free = free@;
            trunks.push(id);
            let mut i: u32 = 0;
            while i < count
                invariant
                    i <= count <= CAPACITY,
                    count == count_of(frame@),
                    free@ == before_free + trunk_ids(frame@).take(i as int),
                decreases count - i,
            {
                let entry = freelist::id_at(&frame, i);
                free.push(entry);
                i = i + 1;
                assert(trunk_ids(frame@).take(i as int) =~= trunk_ids(frame@).take(i - 1).push(
                    entry,
                ));
            }
            assert(trunk_ids(frame@).take(i as int) =~= trunk_ids(frame@));
            let next = freelist::next(&frame);
            proof {
                assert(!before_trunks.contains(id));
                assert forall|k: u64| seen@.contains(k) <==> trunks@.contains(k) by {
                    if before_trunks.contains(k) {
                        let q = before_trunks.index_of(k);
                        assert(trunks@[q] == k);
                    }
                    if k == id {
                        assert(trunks@[before_trunks.len() as int] == k);
                    }
                }
                lemma_distinct_bounded(trunks@, FIRST_DATA_PAGE, meta.page_count);
            }
            head = u64_to_opt(next);
        }
        Ok((free, trunks))
    }

    /// The allocation high-water mark.
    pub fn page_count(&self) -> (n: u64)
        ensures
            n == self.state().meta.page_count,
    {
        self.meta.page_count
    }

    /// The transaction id of the last successful commit.
    pub fn txn_id(&self) -> (id: u64)
        ensures
            id == self.state().meta.txn_id,
    {
        self.meta.txn_id
    }

    /// The current root of the system catalog, if set.
    pub fn catalog_root(&self) -> (root: Option<PageId>)
        ensures
            root == self.state().meta.catalog_root,
    {
        self.meta.catalog_root
    }

    /// Stage a new catalog root for the next commit.
    pub fn set_catalog_root(&mut self, root: Option<PageId>)
        ensures
            final(self).store() == old(self).store(),
            old(self).wf() ==> final(self).wf(),
            final(self).state() == (PagerState {
                meta: Meta { catalog_root: root, ..old(self).state().meta },
                ..old(self).state()
            }),
            sturdy(old(self).state()) ==> sturdy(final(self).state()),
    {
        self.meta.catalog_root = root;
    }

    fn in_range(&self, id: PageId) -> (r: Result<()>)
        ensures
            r == (if self.state().in_range(id.0) {
                Ok::<(), PagerError>(())
            } else {
                Err(
                    PagerError::PageOutOfRange {
                        id: id.0,
                        page_count: self.state().meta.page_count,
                    },
                )
            }),
    {
        if id.get() < FIRST_DATA_PAGE || id.get() >= self.meta.page_count {
            return Err(
                PagerError::PageOutOfRange { id: id.get(), page_count: self.meta.page_count },
            );
        }
        Ok(())
    }

    /// Fetch a frame from cache, or read+verify it from the backend.
    fn fetch(&mut self, id: PageId) -> (r: Result<Arc<Frame>>)
        requires
            old(self).wf(),
            id.0 >= FIRST_DATA_PAGE,
            id.0 <= MAX_PAGES,
        ensures
            final(self).wf(),
            final(self).state() == old(self).state(),
            old(self).fault_free() ==> final(self).fault_free(),
            old(self).state().staged.contains_key(id.0) ==> r is Ok && r->Ok_0@
                == old(self).state().staged[id.0],
            !old(self).state().staged.contains_key(id.0) ==> reads(
                old(self).state().disk,
                id.0,
                old(self).fault_free(),
                image_of(r),
            ),
    {
        let ghost m0 = self.cache@;
        if let Some(frame) = self.cache.get(id.get()) {
            proof {
                assert(m0.contains_key(id.0));
                assert(staged_of(self.cache@) =~= staged_of(m0));
            }
            return Ok(frame);
        }
        let boxed = match Self::read_sound(&mut self.backend, id) {
            Ok(frame) => frame,
            Err(e) => {
                return Err(e);
            },
        };
        let arc: Arc<Frame> = Arc::new(*boxed);
        let ghost m1 = self.cache@;
        self.cache.insert(id.get(), Arc::new(*boxed), false);
        proof {
            lemma_clean_insert(
                m1,
                id.0,
                Entry { frame: arc, dirty: false, tick: self.cache.now() },
                self.cache.budget(),
                self.cache@,
                self.backend.contents(),
            );
        }
        Ok(arc)
    }

    /// Read a data page (id >= 2), verifying its checksum and self-id.
    pub fn read_page(&mut self, id: PageId) -> (r: Result<Arc<Frame>>)
        requires
            old(self).wf(),
            old(self).state().meta.page_count <= MAX_PAGES || id.0 <= MAX_PAGES,
        ensures
            final(self).wf(),
            final(self).state() == old(self).state(),
            old(self).fault_free() ==> final(self).fault_free(),
            r is Ok ==> old(self).state().page(id.0) == Some(r->Ok_0@),
            old(self).fault_free() && old(self).state().page(id.0) is Some ==> r is Ok,
            !old(self).state().in_range(id.0) ==> r == Err::<Arc<Frame>, PagerError>(
                PagerError::PageOutOfRange {
                    id: id.0,
                    page_count: old(self).state().meta.page_count,
                },
            ),
            old(self).state().in_range(id.0) && old(self).state().staged.contains_key(id.0)
                ==> r is Ok,
            old(self).state().in_range(id.0) && !old(self).state().staged.contains_key(id.0)
                ==> reads(old(self).state().disk, id.0, old(self).fault_free(), image_of(r)),
    {
        match self.in_range(id) {
            Ok(_) => self.fetch(id),
            Err(e) => Err(e),
        }
    }

    /// Stage a full-page write of `payload` (with the given page type). The
    /// page must already be allocated (id < `page_count`).
    pub fn write_page(&mut self, id: PageId, page_type: PageType, payload: &[u8]) -> (r: Result<()>)
        requires
            old(self).wf(),
        ensures
            final(self).wf(),
            final(self).store() == old(self).store(),
            r == (if !old(self).state().in_range(id.0) {
                Err::<(), PagerError>(
                    PagerError::PageOutOfRange {
                        id: id.0,
                        page_count: old(self).state().meta.page_count,
                    },
                )
            } else if payload@.len() > PAGE_PAYLOAD_SIZE {
                Err(
                    PagerError::PayloadTooLarge {
                        len: payload@.len() as usize,
                        max: PAGE_PAYLOAD_SIZE,
                    },
                )
            } else {
                Ok(())
            }),
            r is Err ==> final(self).state() == old(self).state(),
            r is Ok ==> final(self).state() == old(self).state().put(
                id.0,
                page_image(page_type, id.0, payload@),
            ),
            sturdy(old(self).state()) ==> sturdy(final(self).state()),
    {
        match self.in_range(id) {
            Ok(_) => {},
            Err(e) => {
                return Err(e);
            },
        }
        let mut frame = page::zeroed();
        match page::set_payload(&mut frame, payload) {
            Ok(_) => {},
            Err(e) => {
                return Err(e);
            },
        }
        page::finalize(&mut frame, page_type, id);
        let ghost m = self.cache@;
        let ghost image = frame@;
        self.cache.insert(id.get(), Arc::new(*frame), true);
        proof {
            page::page_image_holds_the_payload(page_type, id.0, payload@);
            lemma_dirty_insert(
                m,
                id.0,
                Entry { frame: Arc::new(*frame), dirty: true, tick: self.cache.now() },
                self.cache.budget(),
                self.cache@,
                self.backend.contents(),
            );
            assert(self.state() =~= old(self).state().put(id.0, image));
        }
        Ok(())
    }

    /// Recover the free set from the durable trunk chain on first write. A
    /// corrupt trunk surfaces here (blocking the write) rather than at open.
    fn ensure_free_loaded(&mut self) -> (r: Result<()>)
        requires
            old(self).wf(),
            !old(self).state().loaded ==> old(self).state().meta.page_count <= MAX_PAGES,
        ensures
            final(self).wf(),
            old(self).fault_free() ==> final(self).fault_free(),
            loads(old(self).state().free_list(), old(self).fault_free(), r),
            r is Err ==> final(self).state() == old(self).state(),
            r is Ok ==> old(self).state().free_list() is Done && final(self).state() == old(
                self,
            ).state().with_free(
                old(self).state().free_list()->Done_0,
                old(self).state().free_list()->Done_1,
            ),
            old(self).state().loaded ==> final(self).store() == old(self).store(),
            r is Ok ==> exists|reads: Seq<StoreOp>|
                reads_only(reads) && (old(self).state().loaded ==> reads.len() == 0)
                    && #[trigger] reaches(old(self).store(), reads, final(self).store()),
    {
        if !self.free_loaded {
            let meta = self.meta;
            match Self::load_free_list(&mut self.backend, &meta) {
                Ok((free_set, trunks)) => {
                    self.free_set = free_set;
                    self.trunks = trunks;
                    self.free_loaded = true;
                    proof {
                        let reads = choose|reads: Seq<StoreOp>|
                            reads_only(reads) && #[trigger] reaches(
                                old(self).backend,
                                reads,
                                self.backend,
                            );
                        assert(reads_only(reads) && reaches(
                            old(self).store(),
                            reads,
                            self.store(),
                        ));
                    }
                },
                Err(e) => {
                    return Err(e);
                },
            }
        } else {
            proof {
                let none = Seq::<StoreOp>::empty();
                assert(reads_only(none) && reaches(old(self).store(), none, self.store()));
            }
        }
        Ok(())
    }

    /// The free page ids. An allocation takes the last of them first.
    pub fn free_pages(&mut self) -> (r: Result<Vec<u64>>)
        requires
            old(self).wf(),
            old(self).state().meta.page_count <= MAX_PAGES,
        ensures
            final(self).wf(),
            old(self).fault_free() ==> final(self).fault_free(),
            loads(old(self).state().free_list(), old(self).fault_free(), r),
            r is Err ==> final(self).state() == old(self).state(),
            r matches Ok(ids) ==> {
                &&& old(self).state().free_list() is Done
                &&& ids@ == old(self).state().free_list()->Done_0
                &&& final(self).state() == old(self).state().with_free(
                    old(self).state().free_list()->Done_0,
                    old(self).state().free_list()->Done_1,
                )
            },
    {
        match self.ensure_free_loaded() {
            Ok(_) => {},
            Err(e) => {
                return Err(e);
            },
        }
        let mut ids: Vec<u64> = Vec::new();
        let mut i: usize = 0;
        while i < self.free_set.len()
            invariant
                i <= self.free_set@.len(),
                ids@ == self.free_set@.take(i as int),
            decreases self.free_set@.len() - i,
        {
            ids.push(self.free_set[i]);
            i = i + 1;
            assert(ids@ =~= self.free_set@.take(i as int));
        }
        assert(ids@ =~= self.free_set@);
        Ok(ids)
    }

    /// Allocate a page id, reusing a free page when one is available, else
    /// extending the file's high-water mark.
    pub fn allocate(&mut self) -> (r: Result<PageId>)
        requires
            old(self).wf(),
            old(self).state().meta.page_count < u64::MAX,
            !old(self).state().loaded ==> old(self).state().meta.page_count <= MAX_PAGES,
        ensures
            final(self).wf(),
            old(self).fault_free() ==> final(self).fault_free(),
            loads(old(self).state().free_list(), old(self).fault_free(), r),
            r is Err ==> final(self).state() == old(self).state(),
            r matches Ok(id) ==> {
                let s = old(self).state().with_free(
                    old(self).state().free_list()->Done_0,
                    old(self).state().free_list()->Done_1,
                );
                &&& id.0 == s.next_id()
                &&& final(self).state() == s.allocated()
            },
            old(self).state().loaded ==> final(self).store() == old(self).store(),
            sturdy(old(self).state()) ==> sturdy(final(self).state()),
    {
        match self.ensure_free_loaded() {
            Ok(_) => {},
            Err(e) => {
                return Err(e);
            },
        }
        let ghost s = self.state();
        let id = match self.free_set.pop() {
            Some(id) => PageId::new(id),
            None => {
                let id = PageId::new(self.meta.page_count);
                self.meta.page_count = self.meta.page_count + 1;
                id
            },
        };
        match self.alloc_log.take() {
            Some(log) => {
                let mut log = log;
                log.push(id);
                self.alloc_log = Some(log);
            },
            None => {},
        }
        assert(self.state() =~= s.allocated());
        Ok(id)
    }

    /// Begin recording every page [`allocate`](Self::allocate) hands out, discarding
    /// any prior recording.
    pub fn begin_alloc_recording(&mut self)
        ensures
            final(self).store() == old(self).store(),
            old(self).wf() ==> final(self).wf(),
            final(self).state() == (PagerState {
                log: Some(Seq::<PageId>::empty()),
                ..old(self).state()
            }),
    {
        self.alloc_log = Some(Vec::new());
        assert(self.state() =~= PagerState { log: Some(Seq::empty()), ..old(self).state() });
    }

    /// Stop recording allocations and return the pages recorded since
    /// [`begin_alloc_recording`](Self::begin_alloc_recording).
    pub fn take_alloc_recording(&mut self) -> (pages: Vec<PageId>)
        ensures
            final(self).store() == old(self).store(),
            old(self).wf() ==> final(self).wf(),
            final(self).state() == (PagerState { log: None, ..old(self).state() }),
            pages@ == (match old(self).state().log {
                Some(l) => l,
                None => Seq::<PageId>::empty(),
            }),
    {
        match self.alloc_log.take() {
            Some(log) => log,
            None => Vec::new(),
        }
    }

    /// Return a page to the free set for later reuse. In-memory only; the change
    /// is serialized to the durable trunk chain at the next [`commit`](Self::commit).
    pub fn free(&mut self, id: PageId) -> (r: Result<()>)
        requires
            old(self).wf(),
            !old(self).state().loaded ==> old(self).state().meta.page_count <= MAX_PAGES,
        ensures
            final(self).wf(),
            old(self).fault_free() ==> final(self).fault_free(),
            r is Err ==> final(self).state() == old(self).state(),
            if !old(self).state().in_range(id.0) {
                r == Err::<(), PagerError>(
                    PagerError::PageOutOfRange {
                        id: id.0,
                        page_count: old(self).state().meta.page_count,
                    },
                )
            } else {
                loads(old(self).state().free_list(), old(self).fault_free(), r)
            },
            r is Ok ==> final(self).state() == old(self).state().with_free(
                old(self).state().free_list()->Done_0.push(id.0),
                old(self).state().free_list()->Done_1,
            ),
            old(self).state().loaded ==> final(self).store() == old(self).store(),
            sturdy(old(self).state()) ==> sturdy(final(self).state()),
    {
        match self.in_range(id) {
            Ok(_) => {},
            Err(e) => {
                return Err(e);
            },
        }
        match self.ensure_free_loaded() {
            Ok(_) => {},
            Err(e) => {
                return Err(e);
            },
        }
        self.free_set.push(id.get());
        assert(self.state() =~= old(self).state().with_free(
            old(self).state().free_list()->Done_0.push(id.0),
            old(self).state().free_list()->Done_1,
        ));
        Ok(())
    }

    /// Serialize the in-memory free set into a fresh trunk chain, staged dirty
    /// in the cache, and point the (in-memory) meta at it. Container pages are
    /// drawn from the free set itself, and the previous trunk pages are left
    /// untouched on disk (so the last committed free list survives a crash
    /// before the meta swap). Returns those now-superseded trunk pages for the
    /// caller to recycle after the swap.
    fn rebuild_free_list(&mut self) -> (dead: Vec<u64>)
        requires
            old(self).wf(),
        ensures
            final(self).wf(),
            final(self).store() == old(self).store(),
            final(self).state() == old(self).state().rebuilt(),
            dead@ == old(self).state().trunks,
    {
        let ghost s0 = self.state();
        let ghost start = Built {
            staged: s0.staged,
            stored: Seq::empty(),
            trunks: Seq::empty(),
            head: 0,
        };
        let mut dead_trunks: Vec<u64> = Vec::new();
        std::mem::swap(&mut dead_trunks, &mut self.trunks);
        let mut pool: Vec<u64> = Vec::new();
        std::mem::swap(&mut pool, &mut self.free_set);
        let mut new_trunks: Vec<u64> = Vec::new();
        let mut stored: Vec<u64> = Vec::new();
        let mut head: u64 = 0;
        // Each trunk container holds up to CAPACITY of the remaining free ids;
        // the container page itself is spent as structure, not stored as free.
        while pool.len() > 0
            invariant
                s0 == old(self).state(),
                start == (Built {
                    staged: s0.staged,
                    stored: Seq::empty(),
                    trunks: Seq::empty(),
                    head: 0,
                }),
                self.backend == old(self).backend,
                self.meta == old(self).meta,
                self.active_slot == old(self).active_slot,
                self.alloc_log == old(self).alloc_log,
                self.free_loaded == old(self).free_loaded,
                cache_ok(self.cache@, self.backend.contents()),
                build(s0.free, start) == build(
                    pool@,
                    Built {
                        staged: staged_of(self.cache@),
                        stored: stored@,
                        trunks: new_trunks@,
                        head,
                    },
                ),
            decreases pool@.len(),
        {
            let ghost pool0 = pool@;
            let ghost cur = Built {
                staged: staged_of(self.cache@),
                stored: stored@,
                trunks: new_trunks@,
                head,
            };
            let container = pool.pop().unwrap();
            let take: usize = if pool.len() < CAPACITY as usize {
                pool.len()
            } else {
                CAPACITY as usize
            };
            let cut: usize = pool.len() - take;
            let mut ids = pool.split_off(cut);
            let mut frame = page::zeroed();
            freelist::set_next(&mut frame, head);
            freelist::set_count(&mut frame, take as u32);
            let ghost base = frame@;
            let ghost idv = ids@;
            let mut i: usize = 0;
            while i < ids.len()
                invariant
                    i <= ids@.len() <= CAPACITY,
                    ids@ == idv,
                    frame@ == with_ids(base, idv.take(i as int)),
                decreases ids@.len() - i,
            {
                let id: u64 = ids[i];
                freelist::set_id_at(&mut frame, i as u32, id);
                i = i + 1;
                assert(idv.take(i as int).drop_last() =~= idv.take(i - 1));
                assert(frame@ =~= with_ids(base, idv.take(i as int)));
            }
            assert(idv.take(i as int) =~= idv);
            page::finalize(&mut frame, PageType::Freelist, PageId::new(container));
            let ghost m = self.cache@;
            self.cache.insert(container, Arc::new(*frame), true);
            proof {
                assert(idv =~= pool0.drop_last().skip(cut as int));
                assert(frame@ == trunk_image(container, head, idv));
                lemma_trunk_image_sound(container, head, idv);
                lemma_dirty_insert(
                    m,
                    container,
                    Entry { frame: Arc::new(*frame), dirty: true, tick: self.cache.now() },
                    self.cache.budget(),
                    self.cache@,
                    self.backend.contents(),
                );
            }
            stored.append(&mut ids);
            head = container;
            new_trunks.push(container);
            assert(pool@ =~= pool0.drop_last().take(cut as int));
            assert(stored@ =~= cur.stored + idv);
        }
        self.meta.freelist_head = u64_to_opt(head);
        self.meta.freelist_len = stored.len() as u64;
        self.free_set = stored;
        self.trunks = new_trunks;
        assert(self.state() =~= s0.rebuilt());
        dead_trunks
    }

    /// A commit that stopped at a failure of the store did what a failed commit may.
    proof fn lemma_interrupted(
        &self,
        before: Self,
        u: PagerState,
        disk: Seq<u8>,
        inactive: u64,
        r: Result<()>,
    )
        requires
            before.wf(),
            before.state().meta.txn_id < u64::MAX,
            before.state().free_list() is Done,
            u == before.state().with_free(
                before.state().free_list()->Done_0,
                before.state().free_list()->Done_1,
            ).rebuilt(),
            disk == u.disk,
            inactive == u.other_slot(),
            r is Err && r->Err_0 is Io,
            !before.fault_free() || !fits_memory(u),
            self.state() == (PagerState {
                disk: self.state().disk,
                durable: self.state().durable,
                ..u
            }),
            interrupted(u, self.state().disk, self.state().durable),
            kept_outside(disk, u.staged, inactive, self.state().disk),
        ensures
            committed(before.state(), before.fault_free(), r, self.state()),
            sturdy(before.state()) ==> sturdy(self.state()),
    {
        if sturdy(before.state()) {
            commits_keep_sturdy(before.state(), before.fault_free(), r, self.state());
        }
    }

    /// Flush staged changes durably and atomically: write dirty pages, sync,
    /// write the new meta to the inactive slot, sync, promote.
    pub fn commit(&mut self) -> (r: Result<()>)
        requires
            old(self).wf(),
            old(self).state().addressable(),
            old(self).state().meta.txn_id < u64::MAX,
        ensures
            final(self).wf(),
            old(self).fault_free() ==> final(self).fault_free(),
            committed(old(self).state(), old(self).fault_free(), r, final(self).state()),
            sturdy(old(self).state()) ==> sturdy(final(self).state()),
            r is Ok ==> commit_made(old(self).store(), old(self).state(), final(self).store()),
    {
        // Serialize the free set into a fresh (crash-safe) trunk chain, then
        // note what to flush and the meta to install.
        match self.ensure_free_loaded() {
            Ok(_) => {},
            Err(e) => {
                return Err(e);
            },
        }
        let ghost start = old(self).store();
        let ghost reads = choose|reads: Seq<StoreOp>|
            reads_only(reads) && (old(self).state().loaded ==> reads.len() == 0)
                && #[trigger] reaches(start, reads, self.store());
        let ghost s1 = self.state();
        let dead_trunks = self.rebuild_free_list();
        let ghost s2 = self.state();
        let ghost disk = self.backend.contents();
        let ghost dur = self.backend.durable();
        proof {
            lemma_build_keys(
                s1.free,
                Built { staged: s1.staged, stored: Seq::empty(), trunks: Seq::empty(), head: 0 },
            );
            assert forall|k: u64| #[trigger] s2.staged.contains_key(k) implies k < MAX_PAGES by {
                if s1.free.contains(k) {
                    let q = s1.free.index_of(k);
                    assert(s1.free[q] < MAX_PAGES);
                }
            }
        }
        let needed: u64 = self.meta.page_count * 4096;
        let dirty = self.cache.dirty_pages();
        let inactive: u64 = 1 - self.active_slot;
        let mut meta = self.meta;
        meta.txn_id = meta.txn_id + 1;

        // Data pages, sync, new meta to the inactive slot, sync (the durability
        // point).
        let size = match self.backend.len() {
            Ok(n) => n,
            Err(e) => {
                proof {
                    lemma_cache_kept(self.cache@, disk, inactive, disk);
                    self.lemma_interrupted(*old(self), s2, disk, inactive, Err(PagerError::Io(e)));
                }
                return Err(PagerError::Io(e));
            },
        };
        let ghost b0 = self.backend;
        if size < needed {
            match self.backend.truncate(needed) {
                Ok(_) => {},
                Err(e) => {
                    proof {
                        lemma_unsettled_step(dur, disk, s2.staged, dur, disk, disk, self.backend.durable());
                        self.lemma_interrupted(*old(self), s2, disk, inactive, Err(PagerError::Io(e)));
                    }
                    return Err(PagerError::Io(e));
                },
            }
        }
        let ghost base = self.backend.contents();
        let ghost m = self.cache@;
        proof {
            assert(base == (if disk.len() < needed {
                resized(disk, needed as int)
            } else {
                disk
            }));
            assert(forall|i: int| 0 <= i < disk.len() ==> base[i] == disk[i]);
            assert(unsettled(dur, disk, s2.staged, dur));
            if size < needed {
                lemma_unsettled_step(dur, disk, s2.staged, dur, disk, base, self.backend.durable());
            }
        }
        let ghost ids = Seq::new(dirty@.len(), |j: int| dirty@[j].0);
        proof {
            lemma_calls_begin(start, reads, s2, ids, b0, size, needed, self.backend);
            lemma_dirty_lists(m, s2.staged, dirty@, ids);
        }
        let mut i: usize = 0;
        while i < dirty.len()
            invariant
                i <= dirty@.len(),
                lists_dirty(m, dirty@),
                ids == Seq::new(dirty@.len(), |j: int| dirty@[j].0),
                calls_so_far(start, reads, s2, ids, i as int, self.backend),
                m == self.cache@,
                staged_of(m) == s2.staged,
                cache_ok(m, disk),
                inactive <= 1,
                s2 == old(self).state().with_free(
                    old(self).state().free_list()->Done_0,
                    old(self).state().free_list()->Done_1,
                ).rebuilt(),
                inactive == s2.other_slot(),
                s2.disk == disk,
                s2.durable == dur,
                unsettled(dur, disk, s2.staged, self.backend.durable()),
                disk.len() <= base.len(),
                forall|k: int| 0 <= k < disk.len() ==> base[k] == disk[k],
                forall|k: u64| #[trigger] s2.staged.contains_key(k) ==> k < MAX_PAGES,
                partly(base, dirty@, i as int, self.backend.contents()),
                old(self).fault_free() ==> self.fault_free(),
                old(self).state().free_list() is Done,
                self.active_slot <= 1,
                self.meta.format_version == 1,
                self.meta.page_size == 4096,
                self.meta.page_count >= FIRST_DATA_PAGE,
                self.meta.freelist_head != Some(PageId(0)),
                (PagerState { disk: s2.disk, durable: s2.durable, ..self.state() }) == s2,
                old(self).wf(),
                old(self).state().meta.txn_id < u64::MAX,
            decreases dirty@.len() - i,
        {
            let id: u64 = dirty[i].0;
            proof {
                assert(m.contains_key(dirty@[i as int].0));
                assert(s2.staged.contains_key(id));
                lemma_flush_step(base, dirty@, i as int, self.backend.contents());
                lemma_partly_keeps(
                    disk,
                    base,
                    m,
                    dirty@,
                    i as int,
                    self.backend.contents(),
                    inactive,
                );
            }
            let ghost b1 = self.backend;
            let ghost d = self.backend.contents();
            let ghost e0 = self.backend.durable();
            match self.backend.write_at(id * 4096, dirty[i].1.as_slice()) {
                Ok(_) => {},
                Err(e) => {
                    proof {
                        let after = self.backend.contents();
                        lemma_torn_keeps(
                            disk,
                            d,
                            staged_of(m),
                            inactive,
                            id,
                            dirty@[i as int].1@,
                            after,
                        );
                        lemma_cache_kept(m, disk, inactive, after);
                        lemma_torn_keeps_around(disk, d, staged_of(m), id, dirty@[i as int].1@, after);
                        lemma_unsettled_step(dur, disk, s2.staged, e0, d, after, self.backend.durable());
                        self.lemma_interrupted(*old(self), s2, disk, inactive, Err(PagerError::Io(e)));
                    }
                    return Err(PagerError::Io(e));
                },
            }
            proof {
                lemma_calls_step(start, reads, s2, ids, i as int, b1, self.backend);
                lemma_partly_keeps(
                    disk,
                    base,
                    m,
                    dirty@,
                    i + 1,
                    self.backend.contents(),
                    inactive,
                );
                lemma_unsettled_step(
                    dur,
                    disk,
                    s2.staged,
                    e0,
                    d,
                    self.backend.contents(),
                    self.backend.durable(),
                );
            }
            i = i + 1;
        }
        let ghost d2 = self.backend.contents();
        proof {
            lemma_flush_done(disk, needed as int, base, m, dirty@, d2);
            lemma_partly_keeps(disk, base, m, dirty@, i as int, d2, inactive);
            lemma_cache_kept(m, disk, inactive, d2);
        }
        let ghost e2 = self.backend.durable();
        let ghost b2 = self.backend;
        match self.backend.sync() {
            Ok(_) => {},
            Err(e) => {
                proof {
                    lemma_unsettled_step(dur, disk, s2.staged, e2, d2, d2, self.backend.durable());
                    self.lemma_interrupted(*old(self), s2, disk, inactive, Err(PagerError::Io(e)));
                }
                return Err(PagerError::Io(e));
            },
        }
        let mut frame = page::zeroed();
        meta.encode(&mut frame);
        page::finalize(&mut frame, PageType::Meta, PageId::new(inactive));
        let ghost b3 = self.backend;
        match self.backend.write_at(inactive * 4096, frame.as_slice()) {
            Ok(_) => {},
            Err(e) => {
                proof {
                    let after = self.backend.contents();
                    lemma_torn_keeps(disk, d2, staged_of(m), inactive, inactive, frame@, after);
                    lemma_cache_kept(m, disk, inactive, after);
                    assert(torn(d2, inactive * PAGE_SIZE, frame@, d2));
                    lemma_settling_tears(
                        d2,
                        inactive * PAGE_SIZE,
                        frame@,
                        d2,
                        after,
                        self.backend.durable(),
                    );
                    assert(torn_meta(s2, d2, after));
                    self.lemma_interrupted(*old(self), s2, disk, inactive, Err(PagerError::Io(e)));
                }
                return Err(PagerError::Io(e));
            },
        }
        let ghost d3 = self.backend.contents();
        let ghost e3 = self.backend.durable();
        let ghost b4 = self.backend;
        proof {
            assert(kept_outside(disk, staged_of(m), inactive, d3)) by {
                assert forall|k: int|
                    #![trigger d3[k]]
                    0 <= k < disk.len() && !covers(staged_of(m), k) && k / PAGE_SIZE as int
                        != inactive implies d3[k] == disk[k] by {
                    assert(d2[k] == disk[k]);
                }
            }
            lemma_cache_kept(m, disk, inactive, d3);
            assert(torn(d2, inactive * PAGE_SIZE, frame@, d2));
            assert(torn(d2, inactive * PAGE_SIZE, frame@, d3));
            lemma_settling_tears(d2, inactive * PAGE_SIZE, frame@, d2, d3, e3);
        }
        match self.backend.sync() {
            Ok(_) => {},
            Err(e) => {
                proof {
                    lemma_settling_tears(
                        d2,
                        inactive * PAGE_SIZE,
                        frame@,
                        e3,
                        d3,
                        self.backend.durable(),
                    );
                    assert(torn_meta(s2, d2, d3));
                    self.lemma_interrupted(*old(self), s2, disk, inactive, Err(PagerError::Io(e)));
                }
                return Err(PagerError::Io(e));
            },
        }

        // Promote: only now is the commit visible. The previous trunk pages are
        // now unreferenced by the durable meta, so they rejoin the free set.
        self.cache.clear_dirty();
        self.meta = meta;
        self.active_slot = inactive;
        let mut dead = dead_trunks;
        self.free_set.append(&mut dead);
        proof {
            lemma_flushed_cache(m, disk, needed as int, d2, inactive, frame@, d3);
            assert(staged_of(self.cache@) =~= Map::empty());
            assert(self.state() =~= s2.promoted(d3, s1.trunks));
            lemma_calls_end(start, reads, s2, ids, b2, b3, b4, self.backend);
            assert(s2 == flushing(old(self).state()));
            assert(reaches(
                start,
                reads + commit_calls(flushing(old(self).state()), ids),
                self.store(),
            ));
            let r0: Result<()> = Ok(());
            assert(committed(old(self).state(), old(self).fault_free(), r0, self.state()));
            if sturdy(old(self).state()) {
                commits_keep_sturdy(old(self).state(), old(self).fault_free(), r0, self.state());
            }
        }
        Ok(())
    }

    /// Walk the committed structures and prove their consistency (meta slots,
    /// free-list integrity, page-id ranges). Reflects the last committed state
    /// on disk; run after [`commit`](Self::commit).
    pub fn validate(&mut self) -> (r: Result<PagerStats>)
        requires
            old(self).wf(),
            old(self).state().meta.page_count <= MAX_PAGES,
        ensures
            final(self).wf(),
            final(self).state() == old(self).state(),
            old(self).fault_free() ==> final(self).fault_free(),
            match r {
                Ok(stats) => audit(old(self).state()) == Audit::Sound(stats),
                Err(PagerError::Io(_)) => !old(self).fault_free() || audit(
                    old(self).state(),
                ) is Unbacked,
                Err(e) => audit(old(self).state()) == Audit::Fault(e),
            },
    {
        let meta = self.meta;
        let ghost disk = self.backend.contents();

        // The active meta slot must read back valid from disk.
        let on_disk = match Self::read_meta(&mut self.backend, self.active_slot) {
            Ok(m) => m,
            Err(e) => {
                return Err(e);
            },
        };
        if on_disk.txn_id != meta.txn_id {
            return Err(
                PagerError::Corruption(CorruptionKind::BadMeta { slot: self.active_slot }),
            );
        }
        // Walk the free-list trunk chain.

        let mut seen: HashSet<u64> = HashSet::new();
        let mut head: Option<PageId> = meta.freelist_head;
        let mut stored_ids: u64 = 0;
        let mut trunks: u64 = 0;
        let ghost goal = check_chain(
            disk,
            meta.page_count,
            opt_number(meta.freelist_head),
            Set::empty(),
            0,
            0,
        );
        assert(seen@ =~= Set::empty());
        while head.is_some()
            invariant
                self.backend.contents() == disk,
                self.state() == old(self).state(),
                self.wf(),
                old(self).fault_free() ==> self.fault_free(),
                meta.page_count <= MAX_PAGES,
                meta == old(self).state().meta,
                disk == old(self).state().disk,
                head != Some(PageId(0)),
                goal == check_chain(
                    disk,
                    meta.page_count,
                    opt_number(head),
                    seen@,
                    stored_ids as nat,
                    trunks as nat,
                ),
                !(goal is Done) ==> audit(old(self).state()) == (match goal {
                    Checked::Flaw(kind) => Audit::Fault(PagerError::Corruption(kind)),
                    _ => Audit::Unbacked,
                }),
                seen@.finite(),
                seen@.len() == stored_ids + trunks,
                forall|k: u64| #[trigger]
                    seen@.contains(k) ==> FIRST_DATA_PAGE <= k < meta.page_count,
            decreases meta.page_count - trunks,
        {
            let trunk_id = head.unwrap();
            let id: u64 = trunk_id.get();
            if id < FIRST_DATA_PAGE || id >= meta.page_count {
                return Err(PagerError::Corruption(CorruptionKind::FreelistOutOfRange { id }));
            }
            proof {
                lemma_set_bounded(seen@, FIRST_DATA_PAGE, meta.page_count);
            }
            let ghost seen0 = seen@;
            if !seen.insert(id) {
                return Err(PagerError::Corruption(CorruptionKind::FreelistCycle { id }));
            }
            let ghost trunks0 = trunks;
            trunks = trunks + 1;
            let frame = match Self::read_sound(&mut self.backend, trunk_id) {
                Ok(frame) => frame,
                Err(e) => {
                    return Err(e);
                },
            };
            match page::page_type(&frame) {
                Ok(t) => {
                    if t != PageType::Freelist {
                        return Err(PagerError::Corruption(CorruptionKind::FreelistBadType { id }));
                    }
                },
                Err(e) => {
                    return Err(e);
                },
            }
            let count = freelist::count(&frame);
            if count > CAPACITY {
                return Err(PagerError::Corruption(CorruptionKind::FreelistBadCount { id }));
            }
            let ghost stored0 = stored_ids;
            let ghost checked = check_ids(frame@, meta.page_count, 0, seen@);
            let mut i: u32 = 0;
            while i < count
                invariant
                    i <= count <= CAPACITY,
                    count == count_of(frame@),
                    stored_ids == stored0 + i,
                    checked == check_ids(frame@, meta.page_count, i as nat, seen@),
                    checked is Err ==> goal == Checked::Flaw(checked->Err_0),
                    self.state() == old(self).state(),
                    self.wf(),
                    old(self).fault_free() ==> self.fault_free(),
                    !(goal is Done) ==> audit(old(self).state()) == (match goal {
                        Checked::Flaw(kind) => Audit::Fault(PagerError::Corruption(kind)),
                        _ => Audit::Unbacked,
                    }),
                    meta.page_count <= MAX_PAGES,
                    seen@.finite(),
                    seen@.len() == stored_ids + trunks,
                    forall|k: u64| #[trigger]
                        seen@.contains(k) ==> FIRST_DATA_PAGE <= k < meta.page_count,
                decreases count - i,
            {
                let entry = freelist::id_at(&frame, i);
                if entry < FIRST_DATA_PAGE || entry >= meta.page_count {
                    return Err(
                        PagerError::Corruption(CorruptionKind::FreelistOutOfRange { id: entry }),
                    );
                }
                proof {
                    lemma_set_bounded(seen@, FIRST_DATA_PAGE, meta.page_count);
                }
                if !seen.insert(entry) {
                    return Err(
                        PagerError::Corruption(CorruptionKind::FreelistDuplicate { id: entry }),
                    );
                }
                stored_ids = stored_ids + 1;
                i = i + 1;
            }
            let next = freelist::next(&frame);
            proof {
                lemma_set_bounded(seen@, FIRST_DATA_PAGE, meta.page_count);
            }
            head = u64_to_opt(next);
        }
        if stored_ids != meta.freelist_len {
            return Err(
                PagerError::Corruption(
                    CorruptionKind::FreelistLenMismatch {
                        counted: stored_ids,
                        recorded: meta.freelist_len,
                    },
                ),
            );
        }
        Ok(
            PagerStats {
                page_count: meta.page_count,
                free_ids: stored_ids,
                trunk_count: trunks,
                active_slot: self.active_slot,
                txn_id: meta.txn_id,
            },
        )
    }

    /// Consume the pager and return the backend (for reopening).
    pub fn into_backend(self) -> (backend: B)
        ensures
            backend == self.store(),
    {
        self.backend
    }

    /// The backend, for a caller that drives it directly (to arm a fault, say).
    /// As long as its bytes are left alone the pager's state is unchanged.
    pub fn backend_mut(&mut self) -> (backend: &mut B)
        ensures
            *backend == old(self).store(),
            final(self).store() == *final(backend),
            final(backend).contents() == old(self).state().disk && final(backend).durable()
                == old(self).state().durable ==> final(self).state() == old(
                self,
            ).state() && (old(self).wf() ==> final(self).wf()),
    {
        &mut self.backend
    }
}

/// The state of a database freshly created on a store that held `before`: its meta
/// stands in slot 0, and what the store holds is durable.
pub open spec fn fresh(before: Seq<u8>) -> PagerState {
    PagerState {
        disk: written(resized(before, 8192), 0, meta_image(initial_meta(), 0)),
        durable: written(resized(before, 8192), 0, meta_image(initial_meta(), 0)),
        staged: Map::empty(),
        meta: initial_meta(),
        slot: 0,
        free: Seq::empty(),
        trunks: Seq::empty(),
        loaded: true,
        log: None,
    }
}

/// The state of a database opened at `meta`, found in `slot` of `disk`, all of it
/// durable.
pub open spec fn reopened(disk: Seq<u8>, meta: Meta, slot: u64) -> PagerState {
    PagerState {
        disk,
        durable: disk,
        staged: Map::empty(),
        meta,
        slot,
        free: Seq::empty(),
        trunks: Seq::empty(),
        loaded: false,
        log: None,
    }
}

/// What opening `backend` may give: the recovered state if the store fails
/// nothing, and otherwise a state that one of its slots holds.
pub open spec fn opened<B: IoBackend>(backend: B, r: Result<Pager<B>>) -> bool {
    let disk = backend.contents();
    &&& backend.fault_free() ==> (match recover(disk) {
        Some((m, slot)) => r is Ok && r->Ok_0.state() == (PagerState {
            durable: backend.durable(),
            ..reopened(disk, m, slot)
        }) && r->Ok_0.fault_free(),
        None => r is Err && r->Err_0 == PagerError::Corruption(CorruptionKind::NoValidMeta),
    })
    &&& match r {
        Ok(p) => {
            &&& p.wf()
            &&& p.state().slot <= 1
            &&& slot_meta(disk, p.state().slot) == Ok::<Meta, PagerError>(p.state().meta)
            &&& p.state() == (PagerState {
                durable: backend.durable(),
                ..reopened(disk, p.state().meta, p.state().slot)
            })
            &&& moored(p.state())
            &&& slots_unstaged(p.state())
        },
        Err(e) => e is Io || e == PagerError::Corruption(CorruptionKind::NoValidMeta),
    }
}

} // verus!
