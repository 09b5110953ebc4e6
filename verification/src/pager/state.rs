//! The mathematical model of a pager: its state, what a page reads as, the walk
//! of the free list, the chain a commit builds, and what recovery finds.

use vstd::prelude::*;
use crate::bytes::{le_bytes, splice};
use super::error::{CorruptionKind, PagerError, Result};
use super::freelist::{count_of, id_of, next_of, CAPACITY};
use super::meta::{meta_bytes, meta_in, number_opt, opt_number, Meta};
use super::page::{
    finalized, page_flaw, sound, type_at, zero_page, PageId, PageType, FIRST_DATA_PAGE, HEADER_SIZE,
    PAGE_SIZE,
};

verus! {

/// Everything a pager's operations depend on and change, except what is merely
/// cached.
#[verifier::ext_equal]
pub struct PagerState {
    /// The bytes of the backing store.
    pub disk: Seq<u8>,
    /// The bytes that the store would hold after a crash.
    pub durable: Seq<u8>,
    /// The page images written since the last commit.
    pub staged: Map<u64, Seq<u8>>,
    /// The meta the next commit records (but for its transaction id).
    pub meta: Meta,
    /// The meta slot holding the committed state.
    pub slot: u64,
    /// The free page ids, the next one handed out last.
    pub free: Seq<u64>,
    /// The pages of the durable trunk chain.
    pub trunks: Seq<u64>,
    /// Whether `free` and `trunks` have been recovered from the store.
    pub loaded: bool,
    /// The pages handed out since recording began, if it did.
    pub log: Option<Seq<PageId>>,
}

/// The image of page `id` in the store.
pub open spec fn page_bytes(disk: Seq<u8>, id: int) -> Seq<u8> {
    disk.subrange(id * PAGE_SIZE, id * PAGE_SIZE + PAGE_SIZE)
}

/// Whether the store reaches to the end of page `id`.
pub open spec fn backed(disk: Seq<u8>, id: int) -> bool {
    0 <= id && id * PAGE_SIZE + PAGE_SIZE <= disk.len()
}

/// The largest number of pages whose bytes 64-bit offsets can address.
pub const MAX_PAGES: u64 = 0xf_ffff_ffff_ffff;

impl PagerState {
    /// Whether `id` is a data page below the high-water mark.
    pub open spec fn in_range(self, id: u64) -> bool {
        FIRST_DATA_PAGE <= id < self.meta.page_count
    }

    /// The image that reading page `id` gives, where it gives one.
    pub open spec fn page(self, id: u64) -> Option<Seq<u8>> {
        if !self.in_range(id) {
            None
        } else if self.staged.contains_key(id) {
            Some(self.staged[id])
        } else if backed(self.disk, id as int) && sound(page_bytes(self.disk, id as int), id) {
            Some(page_bytes(self.disk, id as int))
        } else {
            None
        }
    }

    /// This state with the free list recovered as `free` and `trunks`.
    pub open spec fn with_free(self, free: Seq<u64>, trunks: Seq<u64>) -> PagerState {
        PagerState { free, trunks, loaded: true, ..self }
    }

    /// What recovering the free list gives, if it has not been recovered yet.
    pub open spec fn free_list(self) -> Walked {
        if self.loaded {
            Walked::Done(self.free, self.trunks)
        } else {
            walk(
                self.disk,
                self.meta.page_count,
                opt_number(self.meta.freelist_head),
                Seq::empty(),
                Seq::empty(),
            )
        }
    }

    /// The page id an allocation hands out, the free list being recovered.
    pub open spec fn next_id(self) -> u64 {
        if self.free.len() > 0 {
            self.free.last()
        } else {
            self.meta.page_count
        }
    }

    /// The state after an allocation, the free list being recovered.
    pub open spec fn allocated(self) -> PagerState {
        let log = match self.log {
            Some(l) => Some(l.push(PageId(self.next_id()))),
            None => None,
        };
        if self.free.len() > 0 {
            PagerState { free: self.free.drop_last(), log, ..self }
        } else {
            PagerState {
                meta: Meta { page_count: (self.meta.page_count + 1) as u64, ..self.meta },
                log,
                ..self
            }
        }
    }

    /// The state after page `id` was given the image `image`.
    pub open spec fn put(self, id: u64, image: Seq<u8>) -> PagerState {
        PagerState { staged: self.staged.insert(id, image), ..self }
    }

    /// The state after a commit wrote the free set into a fresh trunk chain,
    /// and nothing else yet.
    pub open spec fn rebuilt(self) -> PagerState {
        let b = build(
            self.free,
            Built { staged: self.staged, stored: Seq::empty(), trunks: Seq::empty(), head: 0 },
        );
        PagerState {
            staged: b.staged,
            meta: Meta {
                freelist_head: number_opt(b.head),
                freelist_len: b.stored.len() as u64,
                ..self.meta
            },
            free: b.stored,
            trunks: b.trunks,
            ..self
        }
    }

    /// The meta a commit records.
    pub open spec fn next_meta(self) -> Meta {
        Meta { txn_id: (self.meta.txn_id + 1) as u64, ..self.meta }
    }

    /// The slot a commit records it in.
    pub open spec fn other_slot(self) -> u64 {
        (1 - self.slot) as u64
    }

    /// The state after a commit that left the bytes `disk`, all of them durable;
    /// `dead` are the trunk pages that it superseded.
    pub open spec fn promoted(self, disk: Seq<u8>, dead: Seq<u64>) -> PagerState {
        PagerState {
            disk,
            durable: disk,
            staged: Map::empty(),
            meta: self.next_meta(),
            slot: self.other_slot(),
            free: self.free + dead,
            ..self
        }
    }

    /// Whether every page that a commit may flush has an offset.
    pub open spec fn addressable(self) -> bool {
        &&& self.meta.page_count <= MAX_PAGES
        &&& forall|k: u64| #[trigger] self.staged.contains_key(k) ==> k < MAX_PAGES
        &&& match self.free_list() {
            Walked::Done(free, _) => forall|i: int| 0 <= i < free.len() ==> #[trigger] free[i] < MAX_PAGES,
            _ => true,
        }
    }
}

/// What walking the trunk chain finds.
pub enum Walked {
    /// The free ids and the trunk pages, in chain order.
    Done(Seq<u64>, Seq<u64>),
    /// A flaw of the chain.
    Flaw(CorruptionKind),
    /// A trunk page beyond the end of the store.
    Unbacked,
}

/// The ids that a trunk page stores.
pub open spec fn trunk_ids(page: Seq<u8>) -> Seq<u64> {
    Seq::new(count_of(page), |i: int| id_of(page, i) as u64)
}

/// The flaw, if any, that keeps `page` from being read as trunk page `id`.
pub open spec fn trunk_flaw(page: Seq<u8>, id: u64) -> Option<CorruptionKind> {
    match page_flaw(page, id) {
        Some(kind) => Some(kind),
        None => match type_at(page) {
            None => Some(CorruptionKind::UnknownPageType { byte: page[4] }),
            Some(t) => if t != PageType::Freelist {
                Some(CorruptionKind::FreelistBadType { id })
            } else if count_of(page) > CAPACITY {
                Some(CorruptionKind::FreelistBadCount { id })
            } else {
                None
            },
        },
    }
}

/// Walk the trunk chain from `head` (0 ends it); `trunks` and `free` are what
/// has been walked.
pub open spec fn walk(
    disk: Seq<u8>,
    page_count: u64,
    head: u64,
    trunks: Seq<u64>,
    free: Seq<u64>,
) -> Walked
    decreases page_count - trunks.len(),
{
    let page = page_bytes(disk, head as int);
    if head == 0 {
        Walked::Done(free, trunks)
    } else if head < FIRST_DATA_PAGE || head >= page_count {
        Walked::Flaw(CorruptionKind::FreelistOutOfRange { id: head })
    } else if trunks.contains(head) || trunks.len() >= page_count {
        Walked::Flaw(CorruptionKind::FreelistCycle { id: head })
    } else if !backed(disk, head as int) {
        Walked::Unbacked
    } else if trunk_flaw(page, head) is Some {
        Walked::Flaw(trunk_flaw(page, head)->0)
    } else {
        walk(disk, page_count, next_of(page) as u64, trunks.push(head), free + trunk_ids(page))
    }
}

/// What checking the trunk chain finds.
pub enum Checked {
    /// How many ids are stored, in how many trunks.
    Done(nat, nat),
    /// A flaw of the chain.
    Flaw(CorruptionKind),
    /// A trunk page beyond the end of the store.
    Unbacked,
}

/// Check the entries of a trunk page from the `i`-th on: each a data page that
/// has not been seen. Gives all pages seen by then.
pub open spec fn check_ids(
    page: Seq<u8>,
    page_count: u64,
    i: nat,
    seen: Set<u64>,
) -> std::result::Result<Set<u64>, CorruptionKind>
    decreases count_of(page) - i,
{
    let entry = id_of(page, i as int) as u64;
    if i >= count_of(page) {
        Ok(seen)
    } else if entry < FIRST_DATA_PAGE || entry >= page_count {
        Err(CorruptionKind::FreelistOutOfRange { id: entry })
    } else if seen.contains(entry) {
        Err(CorruptionKind::FreelistDuplicate { id: entry })
    } else {
        check_ids(page, page_count, i + 1, seen.insert(entry))
    }
}

/// Check the trunk chain from `head` (0 ends it): every trunk and every entry a
/// data page that occurs once.
pub open spec fn check_chain(
    disk: Seq<u8>,
    page_count: u64,
    head: u64,
    seen: Set<u64>,
    stored: nat,
    trunks: nat,
) -> Checked
    decreases page_count - trunks,
{
    let page = page_bytes(disk, head as int);
    if head == 0 {
        Checked::Done(stored, trunks)
    } else if head < FIRST_DATA_PAGE || head >= page_count {
        Checked::Flaw(CorruptionKind::FreelistOutOfRange { id: head })
    } else if seen.contains(head) || trunks >= page_count {
        Checked::Flaw(CorruptionKind::FreelistCycle { id: head })
    } else if !backed(disk, head as int) {
        Checked::Unbacked
    } else if trunk_flaw(page, head) is Some {
        Checked::Flaw(trunk_flaw(page, head)->0)
    } else {
        match check_ids(page, page_count, 0, seen.insert(head)) {
            Err(kind) => Checked::Flaw(kind),
            Ok(all) => check_chain(
                disk,
                page_count,
                next_of(page) as u64,
                all,
                stored + count_of(page),
                trunks + 1,
            ),
        }
    }
}

/// `page` with `ids` stored as its first trunk entries.
pub open spec fn with_ids(page: Seq<u8>, ids: Seq<u64>) -> Seq<u8>
    decreases ids.len(),
{
    if ids.len() == 0 {
        page
    } else {
        splice(
            with_ids(page, ids.drop_last()),
            28 + (ids.len() - 1) * 8,
            le_bytes(ids.last() as nat, 8),
        )
    }
}

/// The image of trunk page `id`, with `next` after it and storing `ids`.
pub open spec fn trunk_image(id: u64, next: u64, ids: Seq<u64>) -> Seq<u8> {
    finalized(
        with_ids(
            splice(
                splice(zero_page(), 16, le_bytes(next as nat, 8)),
                24,
                le_bytes(ids.len(), 4),
            ),
            ids,
        ),
        PageType::Freelist,
        id,
    )
}

/// A trunk chain under construction.
#[verifier::ext_equal]
pub struct Built {
    /// The staged images, the chain's among them.
    pub staged: Map<u64, Seq<u8>>,
    /// The ids stored so far.
    pub stored: Seq<u64>,
    /// The trunk pages used so far.
    pub trunks: Seq<u64>,
    /// The head of the chain so far, 0 if it is empty.
    pub head: u64,
}

/// How many ids the next trunk page takes of a pool of `n`, itself not counted.
pub open spec fn trunk_take(n: nat) -> nat {
    if n < CAPACITY as nat {
        n
    } else {
        CAPACITY as nat
    }
}

/// Spend `pool` on a chain: each trunk page is taken from the end of the pool
/// and stores as many of the ids before it as fit.
pub open spec fn build(pool: Seq<u64>, b: Built) -> Built
    decreases pool.len(),
{
    if pool.len() == 0 {
        b
    } else {
        let container = pool.last();
        let rest = pool.drop_last();
        let cut = rest.len() - trunk_take(rest.len());
        let ids = rest.skip(cut);
        build(
            rest.take(cut),
            Built {
                staged: b.staged.insert(container, trunk_image(container, b.head, ids)),
                stored: b.stored + ids,
                trunks: b.trunks.push(container),
                head: container,
            },
        )
    }
}

/// Whether byte `i` belongs to one of the pages of `staged`.
pub open spec fn covers(staged: Map<u64, Seq<u8>>, i: int) -> bool {
    i / PAGE_SIZE as int <= u64::MAX && staged.contains_key((i / PAGE_SIZE as int) as u64)
}

/// Whether `after` is `before`, at least `needed` bytes long, with the images
/// of `staged` in their places: no byte of another page differs, and what was
/// added is zero.
pub open spec fn flushed(
    before: Seq<u8>,
    needed: int,
    staged: Map<u64, Seq<u8>>,
    after: Seq<u8>,
) -> bool {
    &&& before.len() <= after.len()
    &&& needed <= after.len()
    &&& after.len() == before.len() || after.len() == needed || exists|k: u64| #[trigger]
        staged.contains_key(k) && after.len() == k * PAGE_SIZE + PAGE_SIZE
    &&& forall|k: u64| #[trigger]
        staged.contains_key(k) ==> backed(after, k as int) && page_bytes(after, k as int)
            == staged[k]
    &&& forall|i: int|
        #![trigger after[i]]
        0 <= i < after.len() && !covers(staged, i) ==> after[i] == if i < before.len() {
            before[i]
        } else {
            0u8
        }
}

/// Whether `after` keeps every byte of `before` outside the pages of `staged`
/// and outside page `slot`.
pub open spec fn kept_outside(
    before: Seq<u8>,
    staged: Map<u64, Seq<u8>>,
    slot: u64,
    after: Seq<u8>,
) -> bool {
    &&& before.len() <= after.len()
    &&& forall|i: int|
        #![trigger after[i]]
        0 <= i < before.len() && !covers(staged, i) && i / PAGE_SIZE as int != slot ==> after[i]
            == before[i]
}

/// Whether `after` keeps every byte of `before` outside the pages of `staged`.
pub open spec fn kept_around(before: Seq<u8>, staged: Map<u64, Seq<u8>>, after: Seq<u8>) -> bool {
    &&& before.len() <= after.len()
    &&& forall|i: int|
        #![trigger after[i]]
        0 <= i < before.len() && !covers(staged, i) ==> after[i] == before[i]
}

/// Whether `e` is what may be durable of a store after changes to the pages of
/// `staged` alone, its contents having been `disk` and `d` of them durable.
pub open spec fn unsettled(
    d: Seq<u8>,
    disk: Seq<u8>,
    staged: Map<u64, Seq<u8>>,
    e: Seq<u8>,
) -> bool {
    &&& e.len() >= d.len() || e.len() >= disk.len()
    &&& forall|i: int|
        #![trigger e[i]]
        0 <= i < d.len() && i < disk.len() && !covers(staged, i) ==> e[i] == d[i] || e[i]
            == disk[i]
}

/// The image of the meta page that records `m` in `slot`.
pub open spec fn meta_image(m: Meta, slot: u64) -> Seq<u8> {
    finalized(splice(zero_page(), HEADER_SIZE as int, meta_bytes(m)), PageType::Meta, slot)
}

/// The meta that `slot` of a store holds, or why it holds none.
pub open spec fn slot_meta(disk: Seq<u8>, slot: u64) -> Result<Meta> {
    let page = page_bytes(disk, slot as int);
    match page_flaw(page, slot) {
        Some(kind) => Err(PagerError::Corruption(kind)),
        None => match type_at(page) {
            None => Err(PagerError::Corruption(CorruptionKind::UnknownPageType { byte: page[4] })),
            Some(t) => if t != PageType::Meta {
                Err(PagerError::Corruption(CorruptionKind::BadMeta { slot }))
            } else {
                meta_in(page, slot)
            },
        },
    }
}

/// The committed state that opening a store finds, with its slot: the valid
/// meta of the highest transaction id, slot 0 on a tie.
pub open spec fn recover(disk: Seq<u8>) -> Option<(Meta, u64)> {
    if disk.len() < FIRST_DATA_PAGE * PAGE_SIZE {
        None
    } else {
        match (slot_meta(disk, 0), slot_meta(disk, 1)) {
            (Ok(a), Ok(b)) => if b.txn_id > a.txn_id {
                Some((b, 1))
            } else {
                Some((a, 0))
            },
            (Ok(a), Err(_)) => Some((a, 0)),
            (Err(_), Ok(b)) => Some((b, 1)),
            (Err(_), Err(_)) => None,
        }
    }
}

/// Whether the slot in use holds a valid meta of the committed transaction.
pub open spec fn moored(s: PagerState) -> bool {
    &&& s.slot <= 1
    &&& s.disk.len() >= FIRST_DATA_PAGE * PAGE_SIZE
    &&& slot_meta(s.disk, s.slot) is Ok
    &&& slot_meta(s.disk, s.slot)->Ok_0.txn_id == s.meta.txn_id
}

/// Whether no staged page is a meta slot.
pub open spec fn slots_unstaged(s: PagerState) -> bool {
    forall|k: u64| #[trigger] s.staged.contains_key(k) ==> k >= FIRST_DATA_PAGE
}

/// Whether the free list, where it can be recovered, lists data pages only, and
/// so do the pages that it is on.
pub open spec fn lists_data_pages(s: PagerState) -> bool {
    match s.free_list() {
        Walked::Done(free, trunks) => all_in_range(s, free) && all_in_range(s, trunks),
        _ => true,
    }
}

/// Whether each of `ids` is a data page below the high-water mark.
pub open spec fn all_in_range(s: PagerState, ids: Seq<u64>) -> bool {
    forall|i: int| 0 <= i < ids.len() ==> s.in_range(#[trigger] ids[i])
}

/// What a database has from its creation on, whatever is done to it and whatever
/// fails: its committed meta stands in its slot, and nothing but a commit's meta is
/// ever to be written to a slot.
pub open spec fn sturdy(s: PagerState) -> bool {
    &&& moored(s)
    &&& slots_unstaged(s)
    &&& lists_data_pages(s)
}

/// A summary of the pager's committed structure, returned by
/// `Pager::validate`.
#[derive(Debug, Clone, Copy, PartialEq, Eq, Structural)]
pub struct PagerStats {
    /// Allocation high-water mark (total pages accounted for).
    pub page_count: u64,
    /// Free page ids stored in trunks.
    pub free_ids: u64,
    /// Number of free-list trunk pages.
    pub trunk_count: u64,
    /// The active meta slot (0 or 1).
    pub active_slot: u64,
    /// The committed transaction id.
    pub txn_id: u64,
}

/// What auditing the committed structures finds.
pub enum Audit {
    /// They are consistent.
    Sound(PagerStats),
    /// They are not.
    Fault(PagerError),
    /// They lie beyond the end of the store.
    Unbacked,
}

/// Audit the committed structures: the active meta slot must read back with the
/// committed transaction id, and the free list must be a chain of as many ids
/// as the meta records, every page of it a data page that occurs once.
pub open spec fn audit(s: PagerState) -> Audit {
    if !backed(s.disk, s.slot as int) {
        Audit::Unbacked
    } else {
        match slot_meta(s.disk, s.slot) {
            Err(e) => Audit::Fault(e),
            Ok(on_disk) => if on_disk.txn_id != s.meta.txn_id {
                Audit::Fault(PagerError::Corruption(CorruptionKind::BadMeta { slot: s.slot }))
            } else {
                match check_chain(
                    s.disk,
                    s.meta.page_count,
                    opt_number(s.meta.freelist_head),
                    Set::empty(),
                    0,
                    0,
                ) {
                    Checked::Flaw(kind) => Audit::Fault(PagerError::Corruption(kind)),
                    Checked::Unbacked => Audit::Unbacked,
                    Checked::Done(stored, trunks) => if stored != s.meta.freelist_len {
                        Audit::Fault(
                            PagerError::Corruption(
                                CorruptionKind::FreelistLenMismatch {
                                    counted: stored as u64,
                                    recorded: s.meta.freelist_len,
                                },
                            ),
                        )
                    } else {
                        Audit::Sound(
                            PagerStats {
                                page_count: s.meta.page_count,
                                free_ids: stored as u64,
                                trunk_count: trunks as u64,
                                active_slot: s.slot,
                                txn_id: s.meta.txn_id,
                            },
                        )
                    },
                }
            },
        }
    }
}

} // verus!
