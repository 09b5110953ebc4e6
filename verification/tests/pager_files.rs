//! Whole files: allocation and reuse, crashes, damage and recovery.

use std::collections::{HashMap, HashSet};

use otf::common::{
    CategorizedError, ErrorCategory, FaultInjectingBackend, FaultPoint, IoBackend, IoResult,
    MemoryBackend, Rng, SeededRng,
};
use otf::pager::{PageId, PageType, Pager, PagerError, HEADER_SIZE, PAGE_SIZE};

type Faulty = FaultInjectingBackend<MemoryBackend>;

const V1: &[u8] = b"committed-v1";
const V2: &[u8] = b"uncommitted-v2";

/// Create a database, commit one data page (page 2 = `V1`) as txn 1, and return the
/// live pager. No fault is armed yet.
fn build_committed(backend: Faulty) -> Pager<Faulty> {
    let mut pager = Pager::create(backend).unwrap();
    let id = pager.allocate().unwrap();
    assert_eq!(id, PageId::new(2));
    pager.write_page(id, PageType::Data, V1).unwrap();
    pager.commit().unwrap();
    assert_eq!(pager.txn_id(), 1);
    pager
}

/// Stage a second transaction (append page 3 = `V2`), then attempt to commit it with a
/// fault armed at `point`/`occurrence`. The commit must fail; reopening must then land
/// on a consistent txn 1 or txn 2 with page 2 always intact.
fn crash_during_second_commit(point: FaultPoint, occurrence: u64) {
    let backend = FaultInjectingBackend::new(MemoryBackend::new());
    let mut pager = build_committed(backend);

    let id = pager.allocate().unwrap();
    assert_eq!(id, PageId::new(3));
    pager.write_page(id, PageType::Data, V2).unwrap();

    // Count occurrences from here so the fault targets the commit precisely.
    pager.backend_mut().reset_counters();
    pager.backend_mut().arm(point, occurrence);
    let result = pager.commit();
    assert!(
        result.is_err(),
        "{point:?}#{occurrence}: commit should have tripped the fault"
    );
    pager.backend_mut().disarm();
    let backend = pager.into_backend();

    // Reopen from the same bytes and prove the state is whole.
    let mut reopened = Pager::open(backend).unwrap();
    let stats = reopened.validate().unwrap();
    let txn = reopened.txn_id();
    assert!(
        txn == 1 || txn == 2,
        "{point:?}#{occurrence}: reopened at unexpected txn {txn}"
    );

    // Page 2 survives every crash, in every recovered state.
    let p2 = reopened.read_page(PageId::new(2)).unwrap();
    assert_eq!(
        &p2[HEADER_SIZE..HEADER_SIZE + V1.len()],
        V1,
        "{point:?}#{occurrence}: page 2 content lost"
    );

    if txn == 1 {
        // The second transaction is absent: page 3 is not part of the file.
        assert_eq!(stats.page_count, 3, "{point:?}#{occurrence}");
        assert!(
            reopened.read_page(PageId::new(3)).is_err(),
            "{point:?}#{occurrence}: page 3 visible at txn 1"
        );
    } else {
        // The second transaction is fully present.
        assert_eq!(stats.page_count, 4, "{point:?}#{occurrence}");
        let p3 = reopened.read_page(PageId::new(3)).unwrap();
        assert_eq!(
            &p3[HEADER_SIZE..HEADER_SIZE + V2.len()],
            V2,
            "{point:?}#{occurrence}: page 3 content torn"
        );
    }
}

#[test]
fn crash_on_data_sync_recovers_previous_commit() {
    // The data-page fsync fails before the meta is ever touched.
    crash_during_second_commit(FaultPoint::Sync, 1);
}

#[test]
fn crash_on_meta_write_recovers_previous_commit() {
    // Data is durable, but the new meta page write fails: must stay at txn 1.
    crash_during_second_commit(FaultPoint::Write, 2);
}

#[test]
fn crash_on_meta_sync_recovers_consistently() {
    // The meta page reached the inactive slot but its fsync failed: reopening may
    // adopt txn 2 (slot valid) or txn 1, but never a half-written meta.
    crash_during_second_commit(FaultPoint::Sync, 2);
}

/// Tag a page's payload with its own id, so any content drift is detectable.
fn tag_page(pager: &mut Pager<Faulty>, id: PageId) {
    pager
        .write_page(id, PageType::Data, &id.get().to_le_bytes())
        .unwrap();
}

fn assert_self_tagged(pager: &mut Pager<Faulty>, id: u64, ctx: &str) {
    let frame = pager.read_page(PageId::new(id)).unwrap();
    assert_eq!(
        &frame[HEADER_SIZE..HEADER_SIZE + 8],
        &id.to_le_bytes(),
        "{ctx}: live page {id} content torn"
    );
}

/// Build a committed state whose free-list spans two or more trunks, then crash a
/// later commit that rebuilds it. Reopening must land on a whole state — the prior
/// commit (free-list intact) or the new one (fully applied) — with `validate()` clean
/// either way, the committed-live pages never torn, and the recovered free-list never
/// handing back a still-live page.
fn crash_during_freelist_rebuild(point: FaultPoint, occurrence: u64) {
    let backend = FaultInjectingBackend::new(MemoryBackend::new());
    let mut pager = Pager::create(backend).unwrap();

    // Commit A: 700 live pages, then durably free the first 600 (committed), so the
    // last committed free-list needs >1 trunk (508-id capacity). The 100 survivors
    // (pages 602..=701) are the only committed-live pages.
    let mut ids: Vec<PageId> = Vec::new();
    for _ in 0..700 {
        let id = pager.allocate().unwrap();
        tag_page(&mut pager, id);
        ids.push(id);
    }
    pager.commit().unwrap();
    for &id in &ids[..600] {
        pager.free(id).unwrap();
    }
    pager.commit().unwrap();
    let stats_a = pager.validate().unwrap();
    assert!(
        stats_a.trunk_count >= 2,
        "{point:?}#{occurrence}: need a multi-trunk free-list, got {stats_a:?}"
    );
    let txn_a = pager.txn_id();
    let live_a: HashSet<u64> = ids[600..].iter().map(|id| id.get()).collect();

    // Stage commit B: allocate 40 pages from the already-committed free pool (drawn
    // from the 600 durably-free pages) and write them. This shrinks the pool and
    // forces the rebuild to write a fresh trunk chain from durably-free container
    // pages — never touching a page live in meta A.
    let mut b_new: Vec<PageId> = Vec::new();
    for _ in 0..40 {
        let id = pager.allocate().unwrap();
        tag_page(&mut pager, id);
        b_new.push(id);
    }

    // Arm the fault and attempt the rebuild commit.
    pager.backend_mut().reset_counters();
    pager.backend_mut().arm(point, occurrence);
    let crashed = pager.commit().is_err();
    pager.backend_mut().disarm();
    let backend = pager.into_backend();

    // Reopen from the on-disk bytes: the free-list must be structurally whole.
    let mut reopened = Pager::open(backend).unwrap();
    reopened.validate().unwrap();
    let txn = reopened.txn_id();
    let ctx = format!("{point:?}#{occurrence}");
    assert!(
        txn == txn_a || txn == txn_a + 1,
        "{ctx}: reopened at unexpected txn {txn}"
    );

    // The committed-live survivors are preserved under every outcome — the rebuild's
    // container reuse only ever touched durably-free pages.
    for &id in &live_a {
        assert_self_tagged(&mut reopened, id, &ctx);
    }

    let recovered_live: HashSet<u64> = if txn == txn_a {
        // Rolled back: a non-crashing commit would have advanced the txn. The newly
        // allocated pages are free again; only the survivors are live.
        assert!(crashed, "{ctx}: rolled back to A but commit returned Ok");
        live_a
    } else {
        // Advanced to B: the newly written pages are durable and read back.
        for &id in &b_new {
            assert_self_tagged(&mut reopened, id.get(), &ctx);
        }
        live_a
            .iter()
            .copied()
            .chain(b_new.iter().map(|id| id.get()))
            .collect()
    };

    // Whichever state recovered, the free-list is usable and never aliases a live
    // page: allocate a batch and confirm none collides with the live set.
    for _ in 0..40 {
        let id = reopened.allocate().unwrap();
        assert!(
            !recovered_live.contains(&id.get()),
            "{ctx}: alloc handed out still-live page {id:?}"
        );
        tag_page(&mut reopened, id);
    }
    reopened.commit().unwrap();
    reopened.validate().unwrap();
}

#[test]
fn crash_across_the_freelist_rebuild_writes_recovers_whole() {
    // Sweep a fault across every page write of the rebuild commit — the trunk pages,
    // the data pages, and the meta write. Occurrences past the last write simply don't
    // trip (commit succeeds); the helper handles both.
    for occurrence in 1..=48 {
        crash_during_freelist_rebuild(FaultPoint::Write, occurrence);
    }
}

#[test]
fn crash_at_each_sync_of_the_freelist_rebuild_recovers_whole() {
    // Sync #1 is the data/trunk durability point (recovery stays at A); sync #2 is the
    // meta durability point (recovery may adopt A or B).
    for occurrence in 1..=2 {
        crash_during_freelist_rebuild(FaultPoint::Sync, occurrence);
    }
}

// --- allocation and reuse ----------------------------------------------------

/// Encode a content tag into a page payload.
fn payload_for(tag: u64) -> [u8; 8] {
    tag.to_le_bytes()
}

/// Read the content tag back from a page frame.
fn tag_of(frame: &[u8]) -> u64 {
    let mut b = [0u8; 8];
    b.copy_from_slice(&frame[HEADER_SIZE..HEADER_SIZE + 8]);
    u64::from_le_bytes(b)
}

fn pick(rng: &mut SeededRng, ids: &[u64]) -> u64 {
    ids[(rng.next_u64() % ids.len() as u64) as usize]
}

fn verify_live(pager: &mut Pager<MemoryBackend>, live: &HashMap<u64, u64>, seed: u64) {
    for (&id, &tag) in live {
        let frame = pager.read_page(PageId::new(id)).unwrap();
        assert_eq!(
            tag_of(&frame[..]),
            tag,
            "seed {seed}: page {id} content drift"
        );
    }
    pager.validate().unwrap();
}

fn run(seed: u64, ops: usize) {
    let mut pager = Pager::create(MemoryBackend::new()).unwrap();
    let mut rng = SeededRng::new(seed);
    let mut live: HashMap<u64, u64> = HashMap::new();
    let mut next_tag = 1u64;

    for _ in 0..ops {
        match rng.next_u64() % 100 {
            // Allocate and initialize a fresh page.
            r if r < 55 || live.is_empty() => {
                let id = pager.allocate().unwrap();
                let tag = next_tag;
                next_tag += 1;
                pager
                    .write_page(id, PageType::Data, &payload_for(tag))
                    .unwrap();
                live.insert(id.get(), tag);
            }
            // Free a random live page.
            r if r < 78 => {
                let ids: Vec<u64> = live.keys().copied().collect();
                let victim = pick(&mut rng, &ids);
                pager.free(PageId::new(victim)).unwrap();
                live.remove(&victim);
            }
            // Overwrite a random live page.
            r if r < 90 => {
                let ids: Vec<u64> = live.keys().copied().collect();
                let target = pick(&mut rng, &ids);
                let tag = next_tag;
                next_tag += 1;
                pager
                    .write_page(PageId::new(target), PageType::Data, &payload_for(tag))
                    .unwrap();
                live.insert(target, tag);
            }
            // Commit, verify, and sometimes reopen.
            _ => {
                pager.commit().unwrap();
                verify_live(&mut pager, &live, seed);
                if rng.next_u64() % 2 == 0 {
                    let backend = pager.into_backend();
                    pager = Pager::open(backend).unwrap();
                    verify_live(&mut pager, &live, seed);
                }
            }
        }
    }

    pager.commit().unwrap();
    verify_live(&mut pager, &live, seed);
}

#[test]
fn randomized_alloc_free_read_write_stays_consistent() {
    for seed in [1u64, 7, 42, 1234, 99999] {
        run(seed, 3000);
    }
}

#[test]
fn freelist_reuses_pages_across_multiple_trunks() {
    let mut pager = Pager::create(MemoryBackend::new()).unwrap();

    // Allocate a thousand pages (well past one trunk's 508-id capacity).
    let mut ids = Vec::new();
    for _ in 0..1000 {
        let id = pager.allocate().unwrap();
        pager
            .write_page(id, PageType::Data, &payload_for(1))
            .unwrap();
        ids.push(id);
    }
    pager.commit().unwrap();
    let page_count_before = pager.validate().unwrap().page_count;

    // Free them all; the free list must span more than one trunk.
    for &id in &ids {
        pager.free(id).unwrap();
    }
    pager.commit().unwrap();
    let stats = pager.validate().unwrap();
    assert!(
        stats.trunk_count >= 2,
        "expected multiple trunks, got {stats:?}"
    );

    // Reallocating reuses the freed pages. A few of them are spent as trunk containers
    // (structural, drawn from the freed pool and recycled one commit later), so reuse
    // is complete up to that bounded trunk overhead — never an unbounded growth of the
    // file.
    let trunk_count = stats.trunk_count;
    let original: HashSet<u64> = ids.iter().map(|i| i.get()).collect();
    let mut fresh = 0u64;
    for _ in 0..1000 {
        let id = pager.allocate().unwrap();
        if !original.contains(&id.get()) {
            fresh += 1;
        }
    }
    pager.commit().unwrap();
    assert!(
        fresh <= trunk_count,
        "reuse should cover all but the {trunk_count} trunk pages, but {fresh} were fresh"
    );
    assert!(
        pager.validate().unwrap().page_count <= page_count_before + trunk_count,
        "the file must not grow beyond the trunk overhead"
    );

    // Steady state: after a warm-up (the high-water settles a couple of pages above
    // peak demand to cover the trunk overhead), repeated free/alloc cycles hold the
    // file size flat — the parked trunk pages cycle back through the free set each
    // commit, so there is no drift or leak.
    let cycle = |pager: &mut Pager<MemoryBackend>, round: u64| {
        let live: Vec<PageId> = (0..1000).map(|_| pager.allocate().unwrap()).collect();
        for &id in &live {
            pager
                .write_page(id, PageType::Data, &payload_for(round))
                .unwrap();
        }
        pager.commit().unwrap();
        for &id in &live {
            pager.free(id).unwrap();
        }
        pager.commit().unwrap();
    };
    for round in 0..3 {
        cycle(&mut pager, round);
    }
    let steady = pager.validate().unwrap().page_count;
    for round in 3..8 {
        cycle(&mut pager, round);
    }
    assert_eq!(
        pager.validate().unwrap().page_count,
        steady,
        "repeated free/alloc cycles must not grow the file past steady state"
    );
}

// --- damage ------------------------------------------------------------------

/// A page-sized buffer of pseudo-random bytes derived from `seed`.
fn junk_page(seed: u64) -> Vec<u8> {
    let mut rng = SeededRng::new(seed);
    let mut bytes = vec![0u8; PAGE_SIZE];
    for chunk in bytes.chunks_mut(8) {
        let n = chunk.len();
        chunk.copy_from_slice(&rng.next_u64().to_le_bytes()[..n]);
    }
    bytes
}

#[test]
fn corrupted_data_page_is_rejected_not_panicked() {
    for seed in [1u64, 2, 3, 1000, 424242] {
        let mut pager = Pager::create(MemoryBackend::new()).unwrap();
        let id = pager.allocate().unwrap();
        pager.write_page(id, PageType::Data, b"intact").unwrap();
        pager.commit().unwrap();
        let mut backend = pager.into_backend();

        // Overwrite page 2 with random bytes.
        backend
            .write_at(id.get() * PAGE_SIZE as u64, &junk_page(seed))
            .unwrap();

        let mut reopened = Pager::open(backend).unwrap();
        assert!(
            reopened.read_page(id).is_err(),
            "seed {seed}: corrupt page read did not error"
        );
    }
}

#[test]
fn both_meta_slots_corrupt_fails_to_open() {
    let mut pager = Pager::create(MemoryBackend::new()).unwrap();
    let id = pager.allocate().unwrap();
    pager.write_page(id, PageType::Data, b"intact").unwrap();
    pager.commit().unwrap();
    let mut backend = pager.into_backend();

    backend.write_at(0, &junk_page(11)).unwrap();
    backend.write_at(PAGE_SIZE as u64, &junk_page(22)).unwrap();

    assert!(
        Pager::open(backend).is_err(),
        "open should fail when no valid meta survives"
    );
}

#[test]
fn corrupt_active_meta_recovers_from_the_other_slot() {
    let mut pager = Pager::create(MemoryBackend::new()).unwrap();

    // txn 1 writes page 2 into the file and lands in meta slot 1.
    let p2 = pager.allocate().unwrap();
    pager.write_page(p2, PageType::Data, b"alpha").unwrap();
    pager.commit().unwrap();

    // txn 2 appends page 3 and lands in meta slot 0 (the active slot).
    let p3 = pager.allocate().unwrap();
    pager.write_page(p3, PageType::Data, b"beta").unwrap();
    pager.commit().unwrap();
    assert_eq!(pager.txn_id(), 2);

    let mut backend = pager.into_backend();

    // Destroy the active slot (slot 0). Recovery must fall back to slot 1.
    backend.write_at(0, &junk_page(7)).unwrap();

    let mut reopened = Pager::open(backend).unwrap();
    let stats = reopened.validate().unwrap();
    assert_eq!(
        reopened.txn_id(),
        1,
        "should recover the older valid commit"
    );
    assert_eq!(stats.active_slot, 1);
    assert_eq!(stats.page_count, 3, "txn 2's page 3 is excluded");

    // Page 2's committed content is still readable under the recovered meta.
    let frame = reopened.read_page(p2).unwrap();
    assert_eq!(&frame[HEADER_SIZE..HEADER_SIZE + 5], b"alpha");
    // Page 3 belongs only to the lost txn 2 and is out of range now.
    assert!(reopened.read_page(p3).is_err());
}

#[test]
fn pages_outside_the_file_are_refused() {
    let mut pager = Pager::create(MemoryBackend::new()).unwrap();
    let err = pager.read_page(PageId::new(9)).unwrap_err();
    assert!(matches!(err, PagerError::PageOutOfRange { id: 9, page_count: 2 }));
    assert_eq!(err.category(), ErrorCategory::NotFound);
    assert!(matches!(
        pager.write_page(PageId::new(1), PageType::Data, b""),
        Err(PagerError::PageOutOfRange { id: 1, page_count: 2 })
    ));
    assert!(matches!(
        pager.free(PageId::new(0)),
        Err(PagerError::PageOutOfRange { id: 0, page_count: 2 })
    ));
}

#[test]
fn recorded_allocations_are_handed_over_once() {
    let mut pager = Pager::create(MemoryBackend::new()).unwrap();
    pager.begin_alloc_recording();
    let a = pager.allocate().unwrap();
    let b = pager.allocate().unwrap();
    assert_eq!(pager.take_alloc_recording(), vec![a, b]);
    assert!(pager.take_alloc_recording().is_empty());
}

#[test]
fn the_catalog_root_survives_a_commit() {
    let mut pager = Pager::create(MemoryBackend::new()).unwrap();
    assert_eq!(pager.catalog_root(), None);
    let id = pager.allocate().unwrap();
    pager.write_page(id, PageType::Data, b"x").unwrap();
    pager.set_catalog_root(Some(id));
    pager.commit().unwrap();
    let reopened = Pager::open(pager.into_backend()).unwrap();
    assert_eq!(reopened.catalog_root(), Some(id));
}

/// A store in memory that notes what is asked of it, and what its last sync made durable.
struct Traced {
    live: MemoryBackend,
    synced: Vec<u8>,
    log: Vec<(&'static str, u64)>,
}

impl Traced {
    fn new() -> Self {
        Traced { live: MemoryBackend::new(), synced: Vec::new(), log: Vec::new() }
    }
}

impl IoBackend for Traced {
    fn read_at(&mut self, offset: u64, buf: &mut [u8]) -> IoResult<()> {
        self.live.read_at(offset, buf)
    }

    fn write_at(&mut self, offset: u64, data: &[u8]) -> IoResult<()> {
        self.log.push(("write", offset));
        self.live.write_at(offset, data)
    }

    fn sync(&mut self) -> IoResult<()> {
        self.log.push(("sync", 0));
        self.synced = vec![0; self.live.len()? as usize];
        self.live.read_at(0, &mut self.synced)
    }

    fn len(&self) -> IoResult<u64> {
        self.live.len()
    }

    fn truncate(&mut self, len: u64) -> IoResult<()> {
        self.log.push(("truncate", len));
        self.live.truncate(len)
    }
}

#[test]
fn a_commit_writes_pages_syncs_writes_the_meta_and_syncs() {
    let mut pager = Pager::create(Traced::new()).unwrap();
    assert_eq!(pager.backend_mut().log, vec![("truncate", 8192), ("write", 0), ("sync", 0)]);
    pager.backend_mut().log.clear();
    let id = pager.allocate().unwrap();
    pager.write_page(id, PageType::Data, V1).unwrap();
    assert!(pager.backend_mut().log.is_empty());
    pager.commit().unwrap();
    assert_eq!(
        pager.backend_mut().log,
        vec![("truncate", 12288), ("write", 8192), ("sync", 0), ("write", 4096), ("sync", 0)]
    );
}

#[test]
fn what_a_crash_leaves_is_the_last_commit() {
    let mut pager = Pager::create(Traced::new()).unwrap();
    let id = pager.allocate().unwrap();
    for (txn, payload) in [(1, V1), (2, V2)] {
        pager.write_page(id, PageType::Data, payload).unwrap();
        let durable = pager.backend_mut().synced.clone();
        let before = Pager::open(MemoryBackend::from_bytes(durable)).unwrap();
        assert_eq!(before.txn_id(), txn - 1);
        pager.commit().unwrap();
        let durable = pager.backend_mut().synced.clone();
        let mut after = Pager::open(MemoryBackend::from_bytes(durable)).unwrap();
        assert_eq!(after.txn_id(), txn);
        let page = after.read_page(id).unwrap();
        assert_eq!(&page[HEADER_SIZE..HEADER_SIZE + payload.len()], payload);
    }
}

#[test]
fn a_failed_commit_leaves_the_pager_where_it_was() {
    let mut pager = build_committed(FaultInjectingBackend::new(MemoryBackend::new()));
    let id = pager.allocate().unwrap();
    pager.write_page(id, PageType::Data, V2).unwrap();
    for (point, occurrence) in
        [(FaultPoint::Write, 1), (FaultPoint::Sync, 1), (FaultPoint::Write, 2), (FaultPoint::Sync, 2)]
    {
        pager.backend_mut().reset_counters();
        pager.backend_mut().arm(point, occurrence);
        assert!(pager.commit().is_err());
        assert_eq!(pager.txn_id(), 1);
        let page = pager.read_page(id).unwrap();
        assert_eq!(&page[HEADER_SIZE..HEADER_SIZE + V2.len()], V2);
    }
    pager.backend_mut().disarm();
    pager.commit().unwrap();
    assert_eq!(pager.txn_id(), 2);
}

#[test]
fn a_recording_spans_writes_frees_and_commits() {
    let mut pager = Pager::create(MemoryBackend::new()).unwrap();
    let first = pager.allocate().unwrap();
    pager.begin_alloc_recording();
    let a = pager.allocate().unwrap();
    pager.write_page(a, PageType::Data, V1).unwrap();
    pager.free(first).unwrap();
    let b = pager.allocate().unwrap();
    assert_eq!(b, first);
    pager.commit().unwrap();
    let c = pager.allocate().unwrap();
    assert_eq!(pager.take_alloc_recording(), vec![a, b, c]);
}

#[test]
fn a_commit_writes_each_staged_page_once_and_the_meta_last() {
    let mut pager = Pager::create(Traced::new()).unwrap();
    let a = pager.allocate().unwrap();
    let b = pager.allocate().unwrap();
    for payload in [V1, V2] {
        pager.write_page(a, PageType::Data, payload).unwrap();
        pager.write_page(b, PageType::Data, payload).unwrap();
    }

    // The store is too short for the new pages.
    pager.backend_mut().log.clear();
    pager.commit().unwrap();
    let mut log = pager.backend_mut().log.clone();
    log[1..3].sort();
    assert_eq!(
        log,
        vec![
            ("truncate", 16384),
            ("write", 8192),
            ("write", 12288),
            ("sync", 0),
            ("write", 4096),
            ("sync", 0)
        ]
    );

    // Now it is long enough, and the slots change places.
    pager.write_page(b, PageType::Data, V1).unwrap();
    pager.backend_mut().log.clear();
    pager.commit().unwrap();
    assert_eq!(
        pager.backend_mut().log,
        vec![("write", 12288), ("sync", 0), ("write", 0), ("sync", 0)]
    );

    // With nothing staged, the meta alone.
    pager.backend_mut().log.clear();
    pager.commit().unwrap();
    assert_eq!(pager.backend_mut().log, vec![("sync", 0), ("write", 4096), ("sync", 0)]);
}

#[test]
fn a_store_passes_its_audit_after_a_commit_that_failed() {
    for point in [FaultPoint::Write, FaultPoint::Sync] {
        for occurrence in 1..=4 {
            let mut pager = build_committed(FaultInjectingBackend::new(MemoryBackend::new()));
            let freed = pager.allocate().unwrap();
            pager.free(freed).unwrap();
            pager.commit().unwrap();
            // The committed free list is on a page of its own; the next one goes elsewhere.
            for _ in 0..3 {
                let id = pager.allocate().unwrap();
                pager.write_page(id, PageType::Data, V2).unwrap();
            }
            let dropped = pager.allocate().unwrap();
            pager.free(dropped).unwrap();
            pager.backend_mut().reset_counters();
            pager.backend_mut().arm(point, occurrence);
            let failed = pager.commit().is_err();
            let mut reopened = Pager::open(pager.into_backend()).unwrap();
            reopened.backend_mut().disarm();
            let stats = reopened.validate().unwrap();
            assert_eq!(stats.txn_id, reopened.txn_id());
            assert!(stats.txn_id == 3 || (failed && stats.txn_id == 2));
        }
    }
}
