//! The copy-on-write tree, held against `BTreeMap`, and its snapshots.

use std::collections::BTreeMap;

use otf::btree::grove::{pages_of, run as change, Op};
use otf::btree::survey::can_change;
use otf::btree::{check_entry, BTree, BTreeError, Corruption, Direction, Node};
use otf::common::{FaultInjectingBackend, FaultPoint, IoBackend, MemoryBackend, Rng, SeededRng};
use otf::pager::{PageId, PageType, Pager, HEADER_SIZE, PAGE_PAYLOAD_SIZE, PAGE_SIZE};

type Mem = Pager<MemoryBackend>;

/// A small key drawn from a tiny alphabet so collisions, overwrites, splits, and
/// merges all happen frequently.
fn gen_key(rng: &mut SeededRng) -> Vec<u8> {
    let r = rng.next_u64();
    let len = (r % 3) as usize + 1;
    let mut k = Vec::with_capacity(len);
    let mut x = r >> 2;
    for _ in 0..len {
        k.push(b'a' + (x % 7) as u8);
        x /= 7;
    }
    k
}

/// A value whose length varies widely, so leaves overflow at different fills and the
/// tree grows several levels deep.
fn gen_val(rng: &mut SeededRng) -> Vec<u8> {
    let r = rng.next_u64();
    let len = (r % 600) as usize;
    let byte = (r >> 16) as u8;
    vec![byte; len]
}

/// Free every superseded page (safe because this test pins no old snapshot).
fn reclaim(pager: &mut Mem, freed: &[PageId]) {
    for &id in freed {
        pager.free(id).unwrap();
    }
}

fn full_scan(pager: &mut Mem, root: PageId, dir: Direction) -> Vec<(Vec<u8>, Vec<u8>)> {
    BTree::new(pager)
        .range_dir(root, dir, None, None)
        .unwrap()
        .collect_all()
        .unwrap()
}

fn expected(model: &BTreeMap<Vec<u8>, Vec<u8>>) -> Vec<(Vec<u8>, Vec<u8>)> {
    model.iter().map(|(k, v)| (k.clone(), v.clone())).collect()
}

fn run(seed: u64, ops: usize) {
    let mut pager = Pager::create(MemoryBackend::new()).unwrap();
    let mut root = BTree::new(&mut pager).create().unwrap();
    let mut model: BTreeMap<Vec<u8>, Vec<u8>> = BTreeMap::new();
    let mut rng = SeededRng::new(seed);

    for step in 0..ops {
        match rng.next_u64() % 100 {
            // Insert / overwrite.
            r if r < 55 => {
                let k = gen_key(&mut rng);
                let v = gen_val(&mut rng);
                let edit = BTree::new(&mut pager).insert(root, &k, &v).unwrap();
                reclaim(&mut pager, &edit.freed);
                root = edit.new_root;
                model.insert(k, v);
            }
            // Delete (often a present key, sometimes absent).
            r if r < 85 => {
                let k = if !model.is_empty() && r % 2 == 0 {
                    let nth = (rng.next_u64() as usize) % model.len();
                    model.keys().nth(nth).unwrap().clone()
                } else {
                    gen_key(&mut rng)
                };
                let edit = BTree::new(&mut pager).delete(root, &k).unwrap();
                reclaim(&mut pager, &edit.freed);
                root = edit.new_root;
                model.remove(&k);
            }
            // Point lookups must match the model exactly.
            _ => {
                let k = gen_key(&mut rng);
                assert_eq!(
                    BTree::new(&mut pager).lookup(root, &k).unwrap().as_deref(),
                    model.get(&k).map(Vec::as_slice),
                    "seed {seed} step {step}: lookup mismatch for {k:?}"
                );
            }
        }

        // The tree is valid and counts agree after every mutation.
        let stats = BTree::new(&mut pager).validate(root).unwrap();
        assert_eq!(
            stats.entries,
            model.len() as u64,
            "seed {seed} step {step}: entry count drift"
        );

        // Occasionally cross-check ordered iteration and a bounded range.
        if step % 50 == 0 {
            let forward = full_scan(&mut pager, root, Direction::Forward);
            let want = expected(&model);
            assert_eq!(forward, want, "seed {seed} step {step}: forward scan");

            let backward = full_scan(&mut pager, root, Direction::Backward);
            let mut rev = want.clone();
            rev.reverse();
            assert_eq!(backward, rev, "seed {seed} step {step}: backward scan");

            let mut lo = gen_key(&mut rng);
            let mut hi = gen_key(&mut rng);
            if lo > hi {
                std::mem::swap(&mut lo, &mut hi);
            }
            let got = BTree::new(&mut pager)
                .range(root, Some(&lo), Some(&hi))
                .unwrap()
                .collect_all()
                .unwrap();
            let want: Vec<_> = model
                .range(lo.clone()..hi.clone())
                .map(|(k, v)| (k.clone(), v.clone()))
                .collect();
            assert_eq!(
                got, want,
                "seed {seed} step {step}: bounded range [{lo:?},{hi:?})"
            );
        }

        // Periodically make the tree durable and sometimes reopen the file.
        if step % 200 == 199 {
            pager.commit().unwrap();
            if rng.next_u64() % 2 == 0 {
                let backend = pager.into_backend();
                pager = Pager::open(backend).unwrap();
                // The committed root survives the round-trip unchanged.
                let scan = full_scan(&mut pager, root, Direction::Forward);
                assert_eq!(scan, expected(&model), "seed {seed} step {step}: scan after reopen");
            }
        }
    }
}

#[test]
fn matches_btreemap_under_random_ops() {
    for seed in [1u64, 2, 7, 42, 1234, 99999] {
        run(seed, 1500);
    }
}

#[test]
fn corrupt_node_bytes_decode_to_typed_errors() {
    for seed in [1u64, 9, 77, 5005, 808080] {
        // Build a small tree so there is at least one real node at page 2.
        let mut pager = Pager::create(MemoryBackend::new()).unwrap();
        let mut root = BTree::new(&mut pager).create().unwrap();
        for i in 0u8..20 {
            let edit = BTree::new(&mut pager).insert(root, &[i], b"v").unwrap();
            root = edit.new_root;
        }
        pager.commit().unwrap();
        let mut backend = pager.into_backend();

        // Scribble random bytes over the root page's payload: either the pager or the
        // node decoder must reject it.
        let mut rng = SeededRng::new(seed);
        let mut junk = vec![0u8; PAGE_PAYLOAD_SIZE];
        for b in junk.iter_mut() {
            *b = rng.next_u64() as u8;
        }
        backend
            .write_at(root.get() * PAGE_SIZE as u64 + HEADER_SIZE as u64, &junk)
            .unwrap();

        let mut reopened = Pager::open(backend).unwrap();
        // A read of the damaged root must fail cleanly, never panic.
        let result = BTree::new(&mut reopened).lookup(root, b"\x00");
        assert!(result.is_err(), "seed {seed}: corrupt node was accepted");
    }
}

#[test]
fn decoding_arbitrary_payloads_never_panics() {
    // Feed the stored payload straight from random bytes and ensure every tree read
    // returns a typed error rather than crashing.
    for seed in 0u64..64 {
        let mut pager = Pager::create(MemoryBackend::new()).unwrap();
        let id = pager.allocate().unwrap();
        let mut rng = SeededRng::new(seed.wrapping_mul(2654435761));
        let len = (rng.next_u64() as usize) % PAGE_PAYLOAD_SIZE;
        let mut payload = vec![0u8; len];
        for b in payload.iter_mut() {
            *b = rng.next_u64() as u8;
        }
        pager.write_page(id, PageType::Data, &payload).unwrap();

        // Whatever the bytes are, lookup/validate either succeed or error — the point
        // is they return, not panic.
        let _ = BTree::new(&mut pager).lookup(id, b"anything");
        let _ = BTree::new(&mut pager).validate(id);
    }
}

#[test]
fn oversized_entry_is_rejected() {
    let mut pager = Pager::create(MemoryBackend::new()).unwrap();
    let root = BTree::new(&mut pager).create().unwrap();

    let huge = vec![0u8; PAGE_PAYLOAD_SIZE]; // far larger than a node cell allows
    let err = BTree::new(&mut pager).insert(root, b"k", &huge).unwrap_err();
    assert!(matches!(err, BTreeError::EntryTooLarge { .. }));
}

#[test]
fn an_old_root_sees_no_later_writes() {
    let mut pager = Pager::create(MemoryBackend::new()).unwrap();
    let mut rng = SeededRng::new(20260609);

    // Build an initial tree of a few hundred entries (deep enough to be multi level),
    // freeing superseded pages as we go.
    let mut root = BTree::new(&mut pager).create().unwrap();
    let mut model: BTreeMap<Vec<u8>, Vec<u8>> = BTreeMap::new();
    for i in 0u32..400 {
        let k = format!("key-{:05}", (rng.next_u64() % 4000)).into_bytes();
        let v = vec![(i % 251) as u8; (rng.next_u64() % 300) as usize];
        let edit = BTree::new(&mut pager).insert(root, &k, &v).unwrap();
        reclaim(&mut pager, &edit.freed);
        root = edit.new_root;
        model.insert(k, v);
    }

    // Capture the snapshot: root id + the exact contents at this instant.
    let snap_root = root;
    let snap_model = model.clone();
    let snap_view = expected(&snap_model);
    assert!(
        BTree::new(&mut pager).validate(snap_root).unwrap().height >= 2,
        "tree too shallow to be interesting"
    );

    // Now mutate heavily WITHOUT freeing anything — the freed pages are exactly the
    // snapshot's nodes, which must stay readable.
    for _ in 0..1500 {
        match rng.next_u64() % 2 {
            0 => {
                let k = format!("key-{:05}", (rng.next_u64() % 4000)).into_bytes();
                let v = vec![0xAB; (rng.next_u64() % 400) as usize];
                let edit = BTree::new(&mut pager).insert(root, &k, &v).unwrap();
                root = edit.new_root;
                model.insert(k, v);
            }
            _ => {
                if model.is_empty() {
                    continue;
                }
                let nth = (rng.next_u64() as usize) % model.len();
                let k = model.keys().nth(nth).unwrap().clone();
                let edit = BTree::new(&mut pager).delete(root, &k).unwrap();
                root = edit.new_root;
                model.remove(&k);
            }
        }
    }

    // The live root reflects all the churn...
    assert_eq!(
        full_scan(&mut pager, root, Direction::Forward),
        expected(&model),
        "live root drifted from model"
    );
    // ...while the snapshot is byte-for-byte what it was at capture time.
    assert_eq!(
        full_scan(&mut pager, snap_root, Direction::Forward),
        snap_view,
        "snapshot saw later writes"
    );
    assert_eq!(
        BTree::new(&mut pager).validate(snap_root).unwrap().entries,
        snap_model.len() as u64
    );

    // Spot-check point lookups against the snapshot model too.
    for (k, v) in snap_model.iter().take(50) {
        assert_eq!(
            BTree::new(&mut pager).lookup(snap_root, k).unwrap().as_deref(),
            Some(v.as_slice())
        );
    }
}

#[test]
fn entries_are_measured_exactly() {
    // A cell may take 2034 bytes: two lengths, the key and the value.
    assert!(check_entry(b"kk", &vec![0u8; 2034 - 6]).is_ok());
    match check_entry(b"kk", &vec![0u8; 2034 - 5]) {
        Err(BTreeError::EntryTooLarge { entry, max }) => {
            assert_eq!((entry, max), (2035, 2034));
        }
        other => panic!("{other:?}"),
    }
}

#[test]
fn a_range_is_half_open_and_can_run_backwards() {
    let mut pager = Pager::create(MemoryBackend::new()).unwrap();
    let mut root = BTree::new(&mut pager).create().unwrap();
    for k in [b"a", b"b", b"c", b"d"] {
        root = BTree::new(&mut pager).insert(root, k, b"v").unwrap().new_root;
    }
    let keys = |items: Vec<(Vec<u8>, Vec<u8>)>| -> Vec<Vec<u8>> {
        items.into_iter().map(|(k, _)| k).collect()
    };
    let lo: &[u8] = b"b";
    let hi: &[u8] = b"d";
    let up = BTree::new(&mut pager).range(root, Some(lo), Some(hi)).unwrap();
    assert_eq!(keys(up.collect_all().unwrap()), vec![b"b".to_vec(), b"c".to_vec()]);
    let down = BTree::new(&mut pager)
        .range_dir(root, Direction::Backward, Some(lo), Some(hi))
        .unwrap();
    assert_eq!(keys(down.collect_all().unwrap()), vec![b"c".to_vec(), b"b".to_vec()]);
    let all = BTree::new(&mut pager).range(root, None, None).unwrap();
    assert_eq!(all.count().unwrap(), 4);
    let mut step = BTree::new(&mut pager).range(root, Some(hi), None).unwrap();
    assert_eq!(step.next_entry().unwrap(), Some((b"d".to_vec(), b"v".to_vec())));
    assert_eq!(step.next_entry().unwrap(), None);
    assert_eq!(step.next_entry().unwrap(), None);
}

#[test]
fn deleting_an_absent_key_changes_nothing() {
    let mut pager = Pager::create(MemoryBackend::new()).unwrap();
    let root = BTree::new(&mut pager).create().unwrap();
    let root = BTree::new(&mut pager).insert(root, b"a", b"1").unwrap().new_root;
    let edit = BTree::new(&mut pager).delete(root, b"zz").unwrap();
    assert_eq!(edit.new_root, root);
    assert!(edit.freed.is_empty());
}

#[test]
fn validation_names_a_misplaced_separator() {
    // A parent whose separator is not its right child's first key.
    let mut pager = Pager::create(MemoryBackend::new()).unwrap();
    let left = pager.allocate().unwrap();
    let right = pager.allocate().unwrap();
    let root = pager.allocate().unwrap();
    let big = vec![7u8; 1500];
    let leaf = |k: &[u8]| Node::Leaf { keys: vec![k.to_vec()], vals: vec![big.clone()] };
    pager.write_page(left, PageType::Data, &leaf(b"x").encode()).unwrap();
    pager.write_page(right, PageType::Data, &leaf(b"z").encode()).unwrap();
    let top = Node::Internal { keys: vec![b"m".to_vec()], children: vec![left, right] };
    pager.write_page(root, PageType::Data, &top.encode()).unwrap();
    assert!(matches!(
        BTree::new(&mut pager).validate(root),
        Err(BTreeError::Corruption(Corruption::SeparatorMismatch { page })) if page == root.get()
    ));
}

#[test]
fn validation_blames_the_parent_of_a_stray_entry() {
    // Both children of page 3 are page 2, whose entry lies below the separator.
    let mut pager = Pager::create(MemoryBackend::new()).unwrap();
    let leaf = pager.allocate().unwrap();
    let root = pager.allocate().unwrap();
    assert_eq!((leaf.get(), root.get()), (2, 3));
    let stray = [0, 0, 1, 0, 1, 0, 97, 1, 0, 49];
    pager.write_page(leaf, PageType::Data, &stray).unwrap();
    let top = [1, 0, 1, 0, 2, 0, 0, 0, 0, 0, 0, 0, 1, 0, 109, 2, 0, 0, 0, 0, 0, 0, 0];
    pager.write_page(root, PageType::Data, &top).unwrap();
    assert!(matches!(
        BTree::new(&mut pager).validate(root),
        Err(BTreeError::Corruption(Corruption::SeparatorMismatch { page: 3 }))
    ));
}

#[test]
fn an_insertion_takes_the_pages_it_needs_and_no_more() {
    let mut pager = Pager::create(MemoryBackend::new()).unwrap();
    let root = BTree::new(&mut pager).create().unwrap();
    assert_eq!(root.get(), 2);
    let edit = BTree::new(&mut pager).insert(root, b"a", b"1").unwrap();
    assert_eq!((edit.new_root.get(), edit.freed), (3, vec![root]));
    let edit = BTree::new(&mut pager).delete(edit.new_root, b"b").unwrap();
    assert_eq!((edit.new_root.get(), edit.freed), (3, vec![]));
    assert_eq!(pager.allocate().unwrap().get(), 4);
}

#[test]
fn an_insertion_frees_one_page_on_each_level() {
    let mut pager = Pager::create(MemoryBackend::new()).unwrap();
    let mut root = BTree::new(&mut pager).create().unwrap();
    let mut entries = 0;
    for i in 0..200u32 {
        let before = BTree::new(&mut pager).validate(root).unwrap();
        assert_eq!(before.entries, entries);
        let key = (i * 7919 % 200).to_be_bytes();
        let edit = BTree::new(&mut pager).insert(root, &key, &[9; 200]).unwrap();
        assert_eq!(edit.freed.len() as u64, before.height as u64);
        assert!(edit.freed.contains(&root));
        root = edit.new_root;
        entries += 1;
    }
    // A key that is there already adds no entry; one that goes takes one away.
    root = BTree::new(&mut pager).insert(root, &0u32.to_be_bytes(), b"new").unwrap().new_root;
    assert_eq!(BTree::new(&mut pager).validate(root).unwrap().entries, 200);
    root = BTree::new(&mut pager).delete(root, &0u32.to_be_bytes()).unwrap().new_root;
    assert_eq!(BTree::new(&mut pager).validate(root).unwrap().entries, 199);
}

/// A tree whose root is almost full of separators, the first of them one byte long, over
/// a first leaf that a removal leaves underfull and a second one of long keys.
fn brimming(pager: &mut Pager<MemoryBackend>) -> (PageId, Vec<Vec<u8>>) {
    let long = |first: u8, n: usize, last: u8| {
        let mut key = vec![first];
        key.resize(n - 1, b'x');
        key.push(last);
        key
    };
    let mut put = |node: Node| {
        let id = pager.allocate().unwrap();
        pager.write_page(id, PageType::Data, &node.encode()).unwrap();
        id
    };
    let mut stored = vec![b"a1".to_vec(), b"a2".to_vec()];
    let first = Node::Leaf { keys: stored.clone(), vals: vec![vec![1; 1000], vec![2; 900]] };
    let mut children = vec![put(first)];
    let bs: Vec<Vec<u8>> = (0..4).map(|i| long(b'b', 602, i)).collect();
    children.push(put(Node::Leaf { keys: bs.clone(), vals: vec![vec![3; 250]; 4] }));
    stored.extend(bs);
    let mut keys = vec![b"b".to_vec()];
    for i in 0..8u8 {
        let key = long(b'c', 490, i);
        children.push(put(Node::Leaf { keys: vec![key.clone()], vals: vec![vec![4]] }));
        stored.push(key.clone());
        keys.push(key);
    }
    let top = Node::Internal { keys, children };
    assert!(top.encode().len() > 4000 && top.encode().len() <= PAGE_PAYLOAD_SIZE);
    (put(top), stored)
}

#[test]
fn a_removal_that_lengthens_a_separator_parts_the_parent() {
    let mut pager = Pager::create(MemoryBackend::new()).unwrap();
    let (root, stored) = brimming(&mut pager);
    let before = BTree::new(&mut pager).validate(root).unwrap();
    assert_eq!((before.height, before.entries), (2, 14));
    let edit = BTree::new(&mut pager).delete(root, b"a1").unwrap();
    let after = BTree::new(&mut pager).validate(edit.new_root).unwrap();
    assert_eq!((after.height, after.entries), (3, 13));
    let mut tree = BTree::new(&mut pager);
    assert_eq!(tree.lookup(edit.new_root, b"a1").unwrap(), None);
    for key in &stored[1..] {
        assert!(tree.lookup(edit.new_root, key).unwrap().is_some());
        assert!(tree.lookup(root, key).unwrap().is_some());
    }
}

#[test]
fn an_internal_node_without_keys_fails_validation() {
    let mut pager = Pager::create(MemoryBackend::new()).unwrap();
    let left = pager.allocate().unwrap();
    let root = pager.allocate().unwrap();
    pager.write_page(left, PageType::Data, &Node::empty_leaf().encode()).unwrap();
    let top = Node::Internal { keys: vec![], children: vec![left] };
    pager.write_page(root, PageType::Data, &top.encode()).unwrap();
    assert!(matches!(
        BTree::new(&mut pager).validate(root),
        Err(BTreeError::Corruption(Corruption::EmptyInternal { page: 3 }))
    ));
}

#[test]
fn changes_to_several_trees_keep_each_in_its_place() {
    let mut pager = Pager::create(MemoryBackend::new()).unwrap();
    let roots: Vec<PageId> =
        (0..3).map(|_| BTree::new(&mut pager).create().unwrap()).collect();
    let put = |tree: usize, k: &[u8], v: &[u8]| Op {
        tree,
        key: k.to_vec(),
        value: Some(v.to_vec()),
    };
    let ops = vec![
        put(0, b"a", b"1"),
        put(2, b"a", b"2"),
        put(0, b"b", b"3"),
        Op { tree: 0, key: b"a".to_vec(), value: None },
        put(2, b"a", b"4"),
    ];
    let grown = change(&mut pager, &roots, &ops).unwrap();
    let one = |k: &[u8], v: &[u8]| vec![(k.to_vec(), v.to_vec())];
    assert_eq!(full_scan(&mut pager, grown.roots[0], Direction::Forward), one(b"b", b"3"));
    assert_eq!(full_scan(&mut pager, grown.roots[1], Direction::Forward), vec![]);
    assert_eq!(full_scan(&mut pager, grown.roots[2], Direction::Forward), one(b"a", b"4"));
    // The old trees are as they were, and every page is in one tree or listed.
    assert_eq!(full_scan(&mut pager, roots[0], Direction::Forward), vec![]);
    let mut all: Vec<PageId> = grown.freed.clone();
    for &r in &grown.roots {
        all.extend(pages_of(&mut pager, r).unwrap());
    }
    let mut ids: Vec<u64> = all.iter().map(|p| p.get()).collect();
    ids.sort();
    let count = pager.validate().unwrap().page_count;
    assert_eq!(ids, (2..count).collect::<Vec<u64>>());
}

#[test]
fn a_change_that_does_not_fit_stops_the_rest() {
    let mut pager = Pager::create(MemoryBackend::new()).unwrap();
    let root = BTree::new(&mut pager).create().unwrap();
    let ops = vec![Op { tree: 0, key: b"k".to_vec(), value: Some(vec![0; 4000]) }];
    assert!(matches!(
        change(&mut pager, &vec![root], &ops),
        Err(BTreeError::EntryTooLarge { entry: 4005, max: 2034 })
    ));
}

#[test]
fn a_crash_during_a_later_commit_spares_the_committed_tree() {
    use_faults(FaultPoint::Sync, 1);
    for occurrence in 1..=3 {
        use_faults(FaultPoint::Write, occurrence);
    }
}

/// Commit a tree, change it, crash the second commit, and open the store again.
fn use_faults(point: FaultPoint, occurrence: u64) {
    let backend = FaultInjectingBackend::new(MemoryBackend::new());
    let mut pager = Pager::create(backend).unwrap();
    let mut root = BTree::new(&mut pager).create().unwrap();
    for i in 0u8..60 {
        root = BTree::new(&mut pager).insert(root, &[i], &[i; 200]).unwrap().new_root;
    }
    pager.set_catalog_root(Some(root));
    pager.commit().unwrap();
    let mut newer = root;
    for i in 0u8..60 {
        newer = BTree::new(&mut pager).delete(newer, &[i]).unwrap().new_root;
    }
    pager.set_catalog_root(Some(newer));
    pager.backend_mut().reset_counters();
    pager.backend_mut().arm(point, occurrence);
    assert!(pager.commit().is_err());
    pager.backend_mut().disarm();
    let mut reopened = Pager::open(pager.into_backend()).unwrap();
    assert_eq!(reopened.catalog_root(), Some(root));
    let stats = BTree::new(&mut reopened).validate(root).unwrap();
    assert_eq!(stats.entries, 60);
    for i in 0u8..60 {
        let found = BTree::new(&mut reopened).lookup(root, &[i]).unwrap();
        assert_eq!(found, Some(vec![i; 200]));
    }
}

#[test]
fn a_store_stays_alive_through_its_life() {
    let mut rng = SeededRng::new(41);
    let mut pager = Pager::create(FaultInjectingBackend::new(MemoryBackend::new())).unwrap();
    let mut roots =
        vec![BTree::new(&mut pager).create().unwrap(), BTree::new(&mut pager).create().unwrap()];
    let mut models = vec![BTreeMap::new(), BTreeMap::new()];
    let mut idle: Vec<PageId> = Vec::new();
    let mut kept = (roots.clone(), models.clone());
    for round in 0..40u64 {
        for id in idle.drain(..) {
            pager.free(id).unwrap();
        }
        let mut ops = Vec::new();
        for _ in 0..12 {
            let tree = (rng.next_u64() % 2) as usize;
            let key = vec![(rng.next_u64() % 40) as u8];
            let stay = rng.next_u64() % 3 != 0;
            let value = if stay { Some(vec![round as u8; 150]) } else { None };
            match &value {
                Some(v) => models[tree].insert(key.clone(), v.clone()),
                None => models[tree].remove(&key),
            };
            ops.push(Op { tree, key, value });
        }
        let grown = change(&mut pager, &roots, &ops).unwrap();
        roots = grown.roots;
        pager.set_catalog_root(Some(roots[0]));
        pager.backend_mut().reset_counters();
        if round % 3 == 1 {
            pager.backend_mut().arm(FaultPoint::Sync, 1 + round % 2);
            assert!(pager.commit().is_err());
            pager.backend_mut().disarm();
            pager = Pager::open(pager.into_backend()).unwrap();
            if pager.catalog_root() == Some(kept.0[0]) {
                roots = kept.0.clone();
                models = kept.1.clone();
            } else {
                assert_eq!(pager.catalog_root(), Some(roots[0]));
            }
        } else {
            pager.commit().unwrap();
            idle = grown.freed;
        }
        kept = (roots.clone(), models.clone());
        pager.validate().unwrap();
        for (root, model) in roots.iter().zip(&models) {
            let stats = BTree::new(&mut pager).validate(*root).unwrap();
            assert_eq!(stats.entries, model.len() as u64);
            for (key, value) in model {
                let found = BTree::new(&mut pager).lookup(*root, key).unwrap();
                assert_eq!(found.as_ref(), Some(value));
            }
        }
    }
}

#[test]
fn a_rejected_change_gives_its_pages_back() {
    let mut pager = Pager::create(MemoryBackend::new()).unwrap();
    let mut root = BTree::new(&mut pager).create().unwrap();
    for i in 0u8..50 {
        root = BTree::new(&mut pager).insert(root, &[i], &[i; 100]).unwrap().new_root;
    }
    pager.begin_alloc_recording();
    let mut newer = root;
    for i in 50u8..90 {
        newer = BTree::new(&mut pager).insert(newer, &[i], &[i; 100]).unwrap().new_root;
    }
    let mut taken = pager.take_alloc_recording();
    let fresh: Vec<PageId> = pages_of(&mut pager, newer)
        .unwrap()
        .into_iter()
        .filter(|id| taken.contains(id))
        .collect();
    assert!(fresh.contains(&newer));
    let before = taken.len();
    taken.sort();
    taken.dedup();
    assert_eq!(taken.len(), before);
    reclaim(&mut pager, &taken);
    // The earlier tree is untouched by the pages' next use.
    let old = pages_of(&mut pager, root).unwrap();
    for _ in 0..taken.len() {
        let id = pager.allocate().unwrap();
        assert!(taken.contains(&id) && !old.contains(&id));
        pager.write_page(id, PageType::Data, &[0xEE; 16]).unwrap();
    }
    for i in 0u8..50 {
        let found = BTree::new(&mut pager).lookup(root, &[i]).unwrap();
        assert_eq!(found, Some(vec![i; 100]));
    }
}

/// Page 2 is a leaf with `a`, page 3 no node at all, and page 4 the root over them.
fn half_damaged() -> (Mem, PageId) {
    let mut pager = Pager::create(MemoryBackend::new()).unwrap();
    let left = pager.allocate().unwrap();
    let right = pager.allocate().unwrap();
    let root = pager.allocate().unwrap();
    let leaf = Node::Leaf { keys: vec![b"a".to_vec()], vals: vec![b"1".to_vec()] };
    pager.write_page(left, PageType::Data, &leaf.encode()).unwrap();
    pager.write_page(right, PageType::Data, &[9, 0, 0, 0]).unwrap();
    let top = Node::Internal { keys: vec![b"m".to_vec()], children: vec![left, right] };
    pager.write_page(root, PageType::Data, &top.encode()).unwrap();
    (pager, root)
}

#[test]
fn a_change_that_comes_to_a_damaged_page_reports_it_and_changes_nothing() {
    let (mut pager, root) = half_damaged();
    let told = BTree::new(&mut pager).lookup(root, b"x").unwrap_err();
    assert!(matches!(told, BTreeError::Corruption(Corruption::UnknownNodeKind { page: 3, .. })));
    let put = BTree::new(&mut pager).insert(root, b"x", b"2").unwrap_err();
    assert_eq!(format!("{put:?}"), format!("{told:?}"));
    let cut = BTree::new(&mut pager).delete(root, b"x").unwrap_err();
    assert_eq!(format!("{cut:?}"), format!("{told:?}"));
    assert_eq!(BTree::new(&mut pager).lookup(root, b"a").unwrap(), Some(b"1".to_vec()));
    // No page was taken.
    assert_eq!(pager.allocate().unwrap().get(), 5);
}

#[test]
fn trees_are_surveyed_before_they_are_changed() {
    let mut pager = Pager::create(MemoryBackend::new()).unwrap();
    let mut a = BTree::new(&mut pager).create().unwrap();
    let b = BTree::new(&mut pager).create().unwrap();
    let mut freed = Vec::new();
    for i in 0..40u8 {
        let edit = BTree::new(&mut pager).insert(a, &[i], &[i; 900]).unwrap();
        a = edit.new_root;
        freed.extend(edit.freed);
    }
    assert!(can_change(&mut pager, &vec![a, b]).unwrap());
    assert!(can_change(&mut pager, &vec![]).unwrap());
    // A tree shares all its pages with itself.
    assert!(!can_change(&mut pager, &vec![a, b, a]).unwrap());
    // What was superseded is no page of these trees, and may be free.
    for id in freed {
        pager.free(id).unwrap();
    }
    assert!(can_change(&mut pager, &vec![a, b]).unwrap());
    // A page of a tree may not.
    pager.free(b).unwrap();
    assert!(can_change(&mut pager, &vec![a]).unwrap());
    assert!(!can_change(&mut pager, &vec![a, b]).unwrap());
}

#[test]
fn a_survey_finds_damage_cycles_and_oversize_cells() {
    let (mut pager, root) = half_damaged();
    assert!(matches!(
        can_change(&mut pager, &vec![root]),
        Err(BTreeError::Corruption(Corruption::UnknownNodeKind { page: 3, .. }))
    ));

    // A page that is below itself.
    let mut pager = Pager::create(MemoryBackend::new()).unwrap();
    let root = pager.allocate().unwrap();
    let top = Node::Internal { keys: vec![b"m".to_vec()], children: vec![root, root] };
    pager.write_page(root, PageType::Data, &top.encode()).unwrap();
    assert!(!can_change(&mut pager, &vec![root]).unwrap());

    // A cell that takes up more than its share of a page reads, and passes the check.
    let mut pager = Pager::create(MemoryBackend::new()).unwrap();
    let root = pager.allocate().unwrap();
    let wide = Node::Leaf { keys: vec![b"a".to_vec()], vals: vec![vec![7u8; 3000]] };
    pager.write_page(root, PageType::Data, &wide.encode()).unwrap();
    assert_eq!(BTree::new(&mut pager).validate(root).unwrap().entries, 1);
    assert!(!can_change(&mut pager, &vec![root]).unwrap());
}
