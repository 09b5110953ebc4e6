//! A byte-budgeted page cache with LRU eviction.
//!
//! Dirty frames are pinned until the next commit flushes them, so eviction only
//! reclaims clean entries; if every entry is dirty the cache may temporarily
//! exceed its budget.

use vstd::prelude::*;
use vstd::std_specs::iter::IteratorSpec;
use std::collections::HashMap;
use std::sync::Arc;
use super::page::{Frame, PAGE_SIZE};

verus! {

broadcast use vstd::std_specs::hash::group_hash_axioms;

/// A cached page.
pub struct Entry {
    /// The page image.
    pub frame: Arc<Frame>,
    /// Whether the image is staged and not yet flushed.
    pub dirty: bool,
    /// When the entry was last used.
    pub tick: u64,
}

/// Page frames by page id, within a byte budget.
pub struct PageCache {
    entries: HashMap<u64, Entry>,
    budget_bytes: usize,
    tick: u64,
}

/// Whether `len` pages take more than `budget` bytes.
pub open spec fn over_budget(len: nat, budget: usize) -> bool {
    let bytes = if len * PAGE_SIZE > usize::MAX {
        usize::MAX as int
    } else {
        (len * PAGE_SIZE) as int
    };
    bytes > budget
}

/// Whether `n` is what eviction to `budget` leaves of `m`: the dirty entries
/// stay, the least recently used clean ones go first, and no more go than the
/// budget asks for.
pub open spec fn evicted(m: Map<u64, Entry>, budget: usize, n: Map<u64, Entry>) -> bool {
    &&& n.submap_of(m)
    &&& n.dom().finite()
    &&& forall|k: u64| #[trigger] m.contains_key(k) && m[k].dirty ==> n.contains_key(k)
    &&& over_budget(n.len(), budget) ==> forall|k: u64| #[trigger]
        n.contains_key(k) ==> n[k].dirty
    &&& forall|k: u64, j: u64|
        #![trigger m.contains_key(k), n.contains_key(j)]
        m.contains_key(k) && !n.contains_key(k) && n.contains_key(j) && !n[j].dirty ==> m[k].tick
            <= n[j].tick
    &&& n != m ==> over_budget(n.len() + 1, budget)
}

/// Whether each entry of `m` was last used at a time of its own, none later than `now`.
pub open spec fn well_timed(m: Map<u64, Entry>, now: u64) -> bool {
    &&& forall|k: u64| #[trigger] m.contains_key(k) ==> m[k].tick <= now
    &&& forall|k: u64, j: u64| #[trigger]
        m.contains_key(k) && #[trigger] m.contains_key(j) && k != j ==> m[k].tick != m[j].tick
}

/// Of a well timed cache, eviction takes clean entries in the order of their last use: one
/// that goes was used before every clean one that stays, and what was used last, if it is
/// the one just touched, goes only when no other clean entry is left.
pub proof fn evictions_follow_use(m: Map<u64, Entry>, now: u64, budget: usize, n: Map<u64, Entry>)
    requires
        well_timed(m, now),
        evicted(m, budget, n),
    ensures
        well_timed(n, now),
        forall|k: u64, j: u64|
            #![trigger m.contains_key(k), n.contains_key(j)]
            m.contains_key(k) && !n.contains_key(k) && n.contains_key(j) && !n[j].dirty
                ==> m[k].tick < n[j].tick,
        forall|k: u64|
            #![trigger m.contains_key(k)]
            m.contains_key(k) && m[k].tick == now && !n.contains_key(k) ==> (forall|j: u64|
                #[trigger]
                n.contains_key(j) ==> n[j].dirty),
{
    assert forall|k: u64, j: u64|
        #![trigger m.contains_key(k), n.contains_key(j)]
        m.contains_key(k) && !n.contains_key(k) && n.contains_key(j)
            && !n[j].dirty implies m[k].tick < n[j].tick by {
        assert(m.dom().contains(j));
        assert(n[j] == m[j]);
    }
    assert forall|k: u64, j: u64| #[trigger]
        n.contains_key(k) && #[trigger] n.contains_key(j) && k != j implies n[k].tick
        != n[j].tick by {
        assert(m.contains_key(k) && m.contains_key(j));
    }
    assert forall|k: u64| #[trigger] n.contains_key(k) implies n[k].tick <= now by {
        assert(m.contains_key(k));
    }
    assert forall|k: u64|
        #![trigger m.contains_key(k)]
        m.contains_key(k) && m[k].tick == now && !n.contains_key(k) implies (forall|j: u64|
        #[trigger]
        n.contains_key(j) ==> n[j].dirty) by {
        assert forall|j: u64| #[trigger] n.contains_key(j) implies n[j].dirty by {
            assert(m.contains_key(j));
        }
    }
}

/// `m` with every entry marked clean.
pub open spec fn all_clean(m: Map<u64, Entry>) -> Map<u64, Entry> {
    Map::new(
        |k: u64| m.contains_key(k),
        |k: u64| Entry { frame: m[k].frame, dirty: false, tick: m[k].tick },
    )
}

/// Whether `v` lists each dirty entry of `m` once, and nothing else.
pub open spec fn lists_dirty(m: Map<u64, Entry>, v: Seq<(u64, Arc<Frame>)>) -> bool {
    &&& forall|i: int|
        0 <= i < v.len() ==> m.contains_key((#[trigger] v[i]).0) && m[v[i].0].dirty
            && m[v[i].0].frame == v[i].1
    &&& forall|i: int, j: int| 0 <= i < j < v.len() ==> (#[trigger] v[i]).0 != (#[trigger] v[j]).0
    &&& forall|k: u64| #[trigger]
        m.contains_key(k) && m[k].dirty ==> exists|i: int| 0 <= i < v.len() && v[i].0 == k
}

impl View for PageCache {
    type V = Map<u64, Entry>;

    closed spec fn view(&self) -> Map<u64, Entry> {
        self.entries@
    }
}

impl PageCache {
    /// The byte budget.
    pub closed spec fn budget(&self) -> usize {
        self.budget_bytes
    }

    /// The use counter. It starts over from zero after its greatest value.
    pub closed spec fn now(&self) -> u64 {
        self.tick
    }

    /// The invariant of a cache whose use counter has not started over: the entries were
    /// last used at different times, none of them to come.
    pub open spec fn wf(&self) -> bool {
        well_timed(self@, self.now())
    }

    /// An empty cache with a budget of `budget_bytes`.
    pub fn new(budget_bytes: usize) -> (cache: Self)
        ensures
            cache@ == Map::<u64, Entry>::empty(),
            cache.budget() == budget_bytes,
            cache.now() == 0,
            cache.wf(),
    {
        PageCache { entries: HashMap::new(), budget_bytes, tick: 0 }
    }

    fn bump(&mut self) -> (tick: u64)
        ensures
            tick == old(self).now().wrapping_add(1),
            final(self).now() == tick,
            final(self)@ == old(self)@,
            final(self).budget() == old(self).budget(),
    {
        self.tick = self.tick.wrapping_add(1);
        self.tick
    }

    /// Fetch a cached frame, marking it most-recently-used.
    pub fn get(&mut self, id: u64) -> (r: Option<Arc<Frame>>)
        ensures
            final(self).budget() == old(self).budget(),
            final(self).now() == old(self).now().wrapping_add(1),
            match r {
                Some(frame) => {
                    &&& old(self)@.contains_key(id)
                    &&& frame == old(self)@[id].frame
                    &&& final(self)@ == old(self)@.insert(
                        id,
                        Entry {
                            frame: old(self)@[id].frame,
                            dirty: old(self)@[id].dirty,
                            tick: old(self).now().wrapping_add(1),
                        },
                    )
                },
                None => !old(self)@.contains_key(id) && final(self)@ == old(self)@,
            },
            old(self).wf() && old(self).now() < u64::MAX ==> final(self).wf(),
    {
        let tick = self.bump();
        match self.entries.remove(&id) {
            None => {
                assert(self.entries@ =~= old(self)@);
                None
            },
            Some(entry) => {
                let frame: Arc<Frame> = Arc::new(*entry.frame);
                self.entries.insert(id, Entry { frame: entry.frame, dirty: entry.dirty, tick });
                assert(self.entries@ =~= old(self)@.insert(id, self.entries@[id]));
                Some(frame)
            },
        }
    }

    /// Insert or replace a frame. A `dirty` insert pins the entry until the
    /// next commit; re-inserting never clears an existing dirty flag.
    pub fn insert(&mut self, id: u64, frame: Arc<Frame>, dirty: bool)
        ensures
            final(self).budget() == old(self).budget(),
            final(self).now() == old(self).now().wrapping_add(1),
            evicted(
                old(self)@.insert(
                    id,
                    Entry {
                        frame,
                        dirty: dirty || (old(self)@.contains_key(id) && old(self)@[id].dirty),
                        tick: old(self).now().wrapping_add(1),
                    },
                ),
                old(self).budget(),
                final(self)@,
            ),
            old(self).wf() && old(self).now() < u64::MAX ==> final(self).wf(),
    {
        let tick = self.bump();
        let was_dirty = match self.entries.get(&id) {
            Some(entry) => entry.dirty,
            None => false,
        };
        self.entries.insert(id, Entry { frame, dirty: dirty || was_dirty, tick });
        let ghost m = self@;
        self.evict_to_budget();
        proof {
            if old(self).wf() && old(self).now() < u64::MAX {
                evictions_follow_use(m, tick, self.budget(), self@);
            }
        }
    }

    /// The least recently used clean entry, if any.
    fn lru_clean(&self) -> (r: Option<u64>)
        ensures
            match r {
                Some(id) => {
                    &&& self@.contains_key(id)
                    &&& !self@[id].dirty
                    &&& forall|k: u64| #[trigger]
                        self@.contains_key(k) && !self@[k].dirty ==> self@[id].tick <= self@[k].tick
                },
                None => forall|k: u64| #[trigger] self@.contains_key(k) ==> self@[k].dirty,
            },
    {
        let mut best: Option<(u64, u64)> = None;
        for (id, e) in it: self.entries.iter()
            invariant
                it.seq() == self.entries.iter().remaining(),
                match best {
                    Some((b, t)) => {
                        &&& self@.contains_key(b)
                        &&& !self@[b].dirty
                        &&& self@[b].tick == t
                        &&& forall|i: int|
                            0 <= i < it.index() && !(#[trigger] it.seq()[i]).1.dirty ==> t
                                <= it.seq()[i].1.tick
                    },
                    None => forall|i: int|
                        0 <= i < it.index() ==> (#[trigger] it.seq()[i]).1.dirty,
                },
        {
            assert(self.entries@.contains_key(*it.seq()[it.index()].0));
            if !e.dirty {
                match best {
                    None => {
                        best = Some((*id, e.tick));
                    },
                    Some((_, t)) => {
                        if e.tick < t {
                            best = Some((*id, e.tick));
                        }
                    },
                }
            }
        }
        proof {
            let s = self.entries.iter().remaining();
            assert forall|k: u64| #[trigger] self@.contains_key(k) implies exists|i: int|
                0 <= i < s.len() && #[trigger] s[i] == (&k, &self@[k]) by {
                assert(s.contains((&k, &self.entries@[k])));
            }
        }
        match best {
            Some((b, _)) => Some(b),
            None => None,
        }
    }

    fn evict_to_budget(&mut self)
        ensures
            final(self).budget() == old(self).budget(),
            final(self).now() == old(self).now(),
            evicted(old(self)@, old(self).budget(), final(self)@),
    {
        let ghost m = self@;
        loop
            invariant
                self.budget() == old(self).budget(),
                self.now() == old(self).now(),
                m == old(self)@,
                self@.submap_of(m),
                self@.dom().finite(),
                forall|k: u64| #[trigger] m.contains_key(k) && m[k].dirty ==> self@.contains_key(k),
                forall|k: u64, j: u64|
                    #![trigger m.contains_key(k), self@.contains_key(j)]
                    m.contains_key(k) && !self@.contains_key(k) && self@.contains_key(j)
                        && !self@[j].dirty ==> m[k].tick <= self@[j].tick,
                self@ != m ==> over_budget(self@.len() + 1, self.budget()),
            ensures
                over_budget(self@.len(), self.budget()) ==> forall|k: u64| #[trigger]
                    self@.contains_key(k) ==> self@[k].dirty,
            decreases self@.len(),
        {
            let len = self.entries.len();
            let over = self.budget_bytes < usize::MAX && len > self.budget_bytes / PAGE_SIZE;
            assert(over == over_budget(self@.len(), self.budget()));
            if !over {
                break;
            }
            match self.lru_clean() {
                Some(id) => {
                    let ghost before = self@;
                    self.entries.remove(&id);
                    assert(self@ == before.remove(id));
                    assert(self@.len() + 1 == before.len());
                },
                None => {
                    break;
                },
            }
        }
    }

    /// All currently-dirty frames, for the commit flush. Does not clear flags.
    pub fn dirty_pages(&self) -> (pages: Vec<(u64, Arc<Frame>)>)
        ensures
            lists_dirty(self@, pages@),
    {
        let mut pages: Vec<(u64, Arc<Frame>)> = Vec::new();
        let ghost mut at: Seq<int> = Seq::empty();
        let ghost s = self.entries.iter().remaining();
        let map_iter = self.entries.iter();
        assert(s.no_duplicates());
        for (id, e) in it: map_iter
            invariant
                it.seq() == s,
                s == self.entries.iter().remaining(),
                s.no_duplicates(),
                at.len() == pages@.len(),
                forall|i: int|
                    0 <= i < pages@.len() ==> 0 <= #[trigger] at[i] < it.index() && *s[at[i]].0
                        == pages@[i].0 && s[at[i]].1.dirty && s[at[i]].1.frame == pages@[i].1,
                forall|i: int, j: int| 0 <= i < j < at.len() ==> at[i] < at[j],
                forall|i: int|
                    0 <= i < it.index() && (#[trigger] s[i]).1.dirty ==> exists|p: int|
                        0 <= p < pages@.len() && #[trigger] pages@[p].0 == *s[i].0,
        {
            if e.dirty {
                let ghost before = pages@;
                pages.push((*id, Arc::new(*e.frame)));
                proof {
                    at = at.push(it.index() as int);
                    assert forall|i: int|
                        0 <= i < it.index() + 1 && (#[trigger] s[i]).1.dirty implies exists|p: int|
                        0 <= p < pages@.len() && #[trigger] pages@[p].0 == *s[i].0 by {
                        if i < it.index() {
                            let p = choose|p: int|
                                0 <= p < before.len() && #[trigger] before[p].0 == *s[i].0;
                            assert(pages@[p].0 == *s[i].0);
                        } else {
                            assert(pages@[before.len() as int].0 == *s[i].0);
                        }
                    }
                }
            }
        }
        proof {
            let m = self.entries@;
            assert forall|i: int| 0 <= i < pages@.len() implies m.contains_key(
                (#[trigger] pages@[i]).0,
            ) && m[pages@[i].0].dirty && m[pages@[i].0].frame == pages@[i].1 by {
                assert(m.contains_key(*s[at[i]].0));
            }
            assert forall|i: int, j: int| 0 <= i < j < pages@.len() implies (#[trigger] pages@[i]).0
                != (#[trigger] pages@[j]).0 by {
                let a = s[at[i]];
                let b = s[at[j]];
                assert(m.contains_key(*a.0) && m.contains_key(*b.0));
                if pages@[i].0 == pages@[j].0 {
                    assert(a == b);
                }
            }
            assert forall|k: u64| #[trigger] m.contains_key(k) && m[k].dirty implies exists|i: int|
                0 <= i < pages@.len() && pages@[i].0 == k by {
                assert(s.contains((&k, &m[k])));
                let q = s.index_of((&k, &m[k]));
                assert(s[q].1.dirty);
            }
        }
        pages
    }

    /// Mark every entry clean (after a successful commit flush).
    pub fn clear_dirty(&mut self)
        ensures
            final(self).budget() == old(self).budget(),
            final(self).now() == old(self).now(),
            final(self)@ == all_clean(old(self)@),
            old(self).wf() ==> final(self).wf(),
    {
        let ghost m = self@;
        let dirty = self.dirty_pages();
        let mut i: usize = 0;
        while i < dirty.len()
            invariant
                i <= dirty@.len(),
                m == old(self)@,
                lists_dirty(m, dirty@),
                self.budget() == old(self).budget(),
                self.now() == old(self).now(),
                self@.dom() =~= m.dom(),
                forall|k: u64| #[trigger]
                    m.contains_key(k) ==> self@[k].frame == m[k].frame && self@[k].tick
                        == m[k].tick,
                forall|p: int| 0 <= p < i ==> !self@[(#[trigger] dirty@[p]).0].dirty,
                forall|k: u64| #[trigger] m.contains_key(k) && !m[k].dirty ==> !self@[k].dirty,
            decreases dirty@.len() - i,
        {
            let id: u64 = dirty[i].0;
            assert(m.contains_key(dirty@[i as int].0));
            let ghost before = self@;
            if let Some(entry) = self.entries.remove(&id) {
                self.entries.insert(
                    id,
                    Entry { frame: entry.frame, dirty: false, tick: entry.tick },
                );
            }
            assert(self@ =~= before.insert(
                id,
                Entry { frame: before[id].frame, dirty: false, tick: before[id].tick },
            ));
            i = i + 1;
        }
        assert(self@ =~= all_clean(m));
    }

    /// How many pages are cached.
    pub fn len(&self) -> (n: usize)
        ensures
            n == self@.len(),
    {
        self.entries.len()
    }

    /// Whether page `id` is cached.
    pub fn contains(&self, id: u64) -> (r: bool)
        ensures
            r == self@.contains_key(id),
    {
        self.entries.contains_key(&id)
    }
}

} // verus!
