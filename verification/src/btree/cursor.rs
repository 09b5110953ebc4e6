//! A lazy range cursor over a B+tree snapshot.
//!
//! Copy-on-write trees keep no leaf sibling pointers (they would have to be copied
//! on every edit), so iteration walks a root-to-leaf path held on a stack. The
//! cursor reads the tree at a fixed root, giving a stable view for its whole life.

use vstd::prelude::*;
use crate::bytes::to_vec;
use crate::common::io::IoBackend;
use crate::order::{
    find_lower, find_upper, is_before, lemma_lower_bound, lemma_upper_bound, lower_bound, strings,
    upper_bound,
};
use crate::pager::state::PagerState;
use crate::pager::{PageId, Pager};
use super::check::{kids_count, lemma_counts_grow, node_count};
use super::error::Result;
use super::model::{below, is_tree, kid_ids, lemma_read_node_ok, rooted, tree_at, Bound, Tree};
use super::node::{encodable, Node};
use super::range::{
    ahead, fails_by, in_reach, lemma_load_positive, lemma_met_all_push, lemma_rest_push,
    lemma_reverse_add, load_of, met, met_all, met_from, met_leaf, met_upto, next_of, path_ok,
    place_ok, rest_of, start_of, stopper, stuck_first, yielded, Direction, Met, Next, Place,
};
use super::store::read_node;
use super::tree::{bound_of, ready, BTree};

verus! {

/// A key/value pair yielded by a [`Cursor`].
pub type Item = (Vec<u8>, Vec<u8>);

/// One level of the descent path.
pub struct Frame {
    /// The node.
    pub node: Node,
    /// Internal: the child index this frame descends through. Leaf: the next entry
    /// index a forward step would yield (a backward step yields `idx - 1`).
    pub idx: usize,
}

/// A descent path, with the trees that its nodes are the roots of.
pub struct Path {
    /// The levels, from the root down.
    pub frames: Vec<Frame>,
    /// The trees that the nodes are the roots of.
    pub trees: Ghost<Seq<Tree>>,
}

impl Path {
    /// The places of the levels.
    pub open spec fn places(self) -> Seq<Place> {
        Seq::new(
            self.frames@.len(),
            |i: int| Place { tree: self.trees@[i], at: self.frames@[i].idx as int },
        )
    }

    /// Whether the path is one in the pages of `s`.
    pub open spec fn holds(self, s: PagerState) -> bool {
        &&& self.trees@.len() == self.frames@.len()
        &&& path_ok(s, self.places())
        &&& forall|j: int|
            0 <= j < self.frames@.len() ==> (#[trigger] self.frames@[j]).node@
                == self.trees@[j].node() && encodable(self.frames@[j].node@)
    }

    /// Whether the lowest level is a leaf.
    pub open spec fn ends_in_leaf(self) -> bool {
        self.frames@.len() > 0 ==> self.trees@.last() is Leaf
    }

    /// Whether all levels are internal.
    spec fn all_inner(self) -> bool {
        forall|j: int| 0 <= j < self.trees@.len() ==> (#[trigger] self.trees@[j]) is Inner
    }

    fn clear(&mut self)
        ensures
            final(self).frames@.len() == 0,
            final(self).trees@.len() == 0,
            forall|s: PagerState| #[trigger] final(self).holds(s),
            final(self).places() == Seq::<Place>::empty(),
            final(self).ends_in_leaf(),
    {
        self.frames = Vec::new();
        self.trees = Ghost(Seq::empty());
        assert(self.places() =~= Seq::empty());
    }

    fn push(&mut self, node: Node, idx: usize, Ghost(t): Ghost<Tree>, Ghost(s): Ghost<PagerState>)
        requires
            old(self).holds(s),
            old(self).all_inner(),
            node@ == t.node(),
            encodable(node@),
            place_ok(s, (Place { tree: t, at: idx as int })),
        ensures
            final(self).holds(s),
            final(self).places() == old(self).places().push(Place { tree: t, at: idx as int }),
            final(self).trees@ == old(self).trees@.push(t),
    {
        let ghost before = self.places();
        let ghost trees = self.trees@;
        self.frames.push(Frame { node, idx });
        self.trees = Ghost(trees.push(t));
        proof {
            let p = Place { tree: t, at: idx as int };
            let places = self.places();
            assert(places =~= before.push(p));
            assert forall|j: int| 0 <= j < places.len() implies place_ok(s, #[trigger] places[j]) by {
                if j < before.len() {
                    assert(places[j] == before[j]);
                }
            }
            assert forall|j: int| 0 <= j < places.len() - 1 implies (#[trigger] places[j]).tree is Inner by {
                assert(places[j] == before[j]);
                assert(trees[j] is Inner);
            }
        }
    }

    fn pop(&mut self, Ghost(s): Ghost<PagerState>)
        requires
            old(self).holds(s),
            old(self).frames@.len() > 0,
        ensures
            final(self).holds(s),
            final(self).places() == old(self).places().drop_last(),
            final(self).trees@ == old(self).trees@.drop_last(),
            final(self).all_inner(),
    {
        let ghost before = self.places();
        let ghost trees = self.trees@;
        self.frames.pop();
        self.trees = Ghost(trees.drop_last());
        proof {
            let places = self.places();
            assert(places =~= before.drop_last());
            assert forall|j: int| 0 <= j < places.len() implies place_ok(s, #[trigger] places[j]) by {
                assert(places[j] == before[j]);
            }
            assert forall|j: int| 0 <= j < places.len() - 1 implies (#[trigger] places[j]).tree is Inner by {
                assert(places[j] == before[j]);
            }
            assert forall|j: int| 0 <= j < self.trees@.len() implies (#[trigger] self.trees@[j]) is Inner by {
                assert(before[j].tree is Inner);
            }
        }
    }

    fn move_last(&mut self, idx: usize, Ghost(s): Ghost<PagerState>)
        requires
            old(self).holds(s),
            old(self).frames@.len() > 0,
            place_ok(s, (Place { tree: old(self).trees@.last(), at: idx as int })),
        ensures
            final(self).holds(s),
            final(self).places() == old(self).places().drop_last().push(
                Place { tree: old(self).trees@.last(), at: idx as int },
            ),
            final(self).trees@ == old(self).trees@,
    {
        let ghost before = self.places();
        let n: usize = self.frames.len();
        let node = self.frames[n - 1].node.copy();
        let ghost trees = self.trees@;
        let ghost old_frames = self.frames@;
        self.frames.set(n - 1, Frame { node, idx });
        proof {
            let p = Place { tree: trees.last(), at: idx as int };
            let places = self.places();
            assert(places =~= before.drop_last().push(p));
            assert forall|j: int| 0 <= j < places.len() implies place_ok(s, #[trigger] places[j]) by {
                if j < n - 1 {
                    assert(places[j] == before[j]);
                }
            }
            assert forall|j: int| 0 <= j < places.len() - 1 implies (#[trigger] places[j]).tree is Inner by {
                assert(places[j] == before[j]);
            }
            assert forall|j: int| 0 <= j < self.frames@.len() implies (#[trigger] self.frames@[j]).node@
                == self.trees@[j].node() && encodable(self.frames@[j].node@) by {
                assert(old_frames[j].node@ == trees[j].node());
            }
        }
    }
}

/// What a descent by this bound comes to.
spec fn sought(t: Tree, dir: Direction, b: Bound) -> Seq<Met> {
    match (dir, b) {
        (Direction::Forward, None) => met(t),
        (Direction::Backward, None) => met(t).reverse(),
        (Direction::Forward, Some(k)) => met_from(t, k),
        (Direction::Backward, Some(k)) => met_upto(t, k).reverse(),
    }
}

/// The child that a descent goes into.
spec fn entered(n: int, keys: Seq<Seq<u8>>, dir: Direction, b: Bound) -> int {
    match (dir, b) {
        (_, Some(k)) => upper_bound(keys, k),
        (Direction::Forward, None) => 0,
        (Direction::Backward, None) => n - 1,
    }
}

/// The place in a leaf that a descent comes to.
spec fn landed(n: int, keys: Seq<Seq<u8>>, dir: Direction, b: Bound) -> int {
    match (dir, b) {
        (_, Some(k)) => lower_bound(keys, k),
        (Direction::Forward, None) => 0,
        (Direction::Backward, None) => n,
    }
}

proof fn lemma_enter(t: Tree, dir: Direction, b: Bound, i: int, path: Seq<Place>)
    requires
        t is Inner,
        0 <= i < t.subtrees().len(),
        i == entered(t.subtrees().len() as int, t.keys(), dir, b),
    ensures
        ({
            let p = Place { tree: t, at: i };
            &&& sought(t, dir, b) + rest_of(path, dir) == sought(t.subtrees()[i], dir, b) + rest_of(
                path.push(p),
                dir,
            )
            &&& load_of(path.push(p), dir) + node_count(t.subtrees()[i]) <= load_of(path, dir)
                + node_count(t)
        }),
{
    let kids = t.subtrees();
    let p = Place { tree: t, at: i };
    lemma_rest_push(path, p, dir);
    lemma_met_all_push(kids, i);
    lemma_counts_grow(kids, (i + 1) as nat, kids.len());
    assert(kids_count(kids, (i + 1) as nat) == kids_count(kids, i as nat) + node_count(kids[i]));
    let r = rest_of(path, dir);
    let x = sought(kids[i], dir, b);
    assert(sought(t, dir, b) =~= x + ahead(p, dir)) by {
        assert(kids.skip(0) =~= kids);
        assert(kids.take(kids.len() as int) =~= kids);
        if dir == Direction::Backward {
            lemma_reverse_add(met_all(kids.take(i)), met(kids[i]));
            if let Some(k) = b {
                lemma_reverse_add(met_all(kids.take(i)), met_upto(kids[i], k));
            }
        }
    }
    assert((x + ahead(p, dir)) + r =~= x + (ahead(p, dir) + r));
}

proof fn lemma_land(t: Tree, dir: Direction, b: Bound, i: int, path: Seq<Place>)
    requires
        t is Leaf,
        i == landed(t.keys().len() as int, t.keys(), dir, b),
    ensures
        ({
            let p = Place { tree: t, at: i };
            &&& sought(t, dir, b) + rest_of(path, dir) == rest_of(path.push(p), dir)
            &&& load_of(path.push(p), dir) == load_of(path, dir) + node_count(t)
        }),
{
    let p = Place { tree: t, at: i };
    lemma_rest_push(path, p, dir);
    let all = met_leaf(t->Leaf_keys, t->Leaf_vals);
    assert(all.skip(0) =~= all);
    assert(all.take(all.len() as int) =~= all);
}

fn pick_child(keys: &Vec<Vec<u8>>, n: usize, dir: Direction, bound: &Option<Vec<u8>>) -> (i: usize)
    requires
        n == keys@.len() + 1,
        crate::order::ascending(strings(keys@)),
    ensures
        i < n,
        i == entered(n as int, strings(keys@), dir, bound_of(*bound)),
{
    match bound {
        Some(b) => {
            proof {
                lemma_upper_bound(strings(keys@), b@);
            }
            find_upper(keys, b.as_slice())
        },
        None => match dir {
            Direction::Forward => 0,
            Direction::Backward => n - 1,
        },
    }
}

fn pick_entry(keys: &Vec<Vec<u8>>, dir: Direction, bound: &Option<Vec<u8>>) -> (i: usize)
    requires
        crate::order::ascending(strings(keys@)),
    ensures
        i <= keys@.len(),
        i == landed(keys@.len() as int, strings(keys@), dir, bound_of(*bound)),
{
    match bound {
        Some(b) => {
            proof {
                lemma_lower_bound(strings(keys@), b@);
            }
            find_lower(keys, b.as_slice())
        },
        None => match dir {
            Direction::Forward => 0,
            Direction::Backward => keys.len(),
        },
    }
}

/// Descend from `id` to the leaf where a walk over its tree starts, by the bound if
/// there is one.
fn descend<B: IoBackend>(
    pager: &mut Pager<B>,
    path: &mut Path,
    id: PageId,
    dir: Direction,
    bound: &Option<Vec<u8>>,
    Ghost(t): Ghost<Tree>,
) -> (r: Result<()>)
    requires
        ready(*old(pager)),
        old(path).holds(old(pager).state()),
        old(path).all_inner(),
        rooted(old(pager).state(), id.0, t),
    ensures
        final(pager).wf(),
        final(pager).state() == old(pager).state(),
        old(pager).fault_free() ==> final(pager).fault_free(),
        match r {
            Ok(_) => {
                &&& final(path).holds(final(pager).state())
                &&& final(path).frames@.len() > 0
                &&& final(path).ends_in_leaf()
                &&& rest_of(final(path).places(), dir) == sought(t, dir, bound_of(*bound))
                    + rest_of(old(path).places(), dir)
                &&& load_of(final(path).places(), dir) <= load_of(old(path).places(), dir)
                    + node_count(t)
            },
            Err(e) => fails_by(
                stuck_first(sought(t, dir, bound_of(*bound)) + rest_of(old(path).places(), dir)),
                old(pager).fault_free(),
                e,
            ),
        },
{
    let ghost s = pager.state();
    let ghost b = bound_of(*bound);
    let ghost goal = sought(t, dir, b) + rest_of(path.places(), dir);
    let ghost limit = load_of(path.places(), dir) + node_count(t);
    let ghost mut cur = t;
    let mut at = id;
    loop
        invariant
            ready(*pager),
            pager.state() == s,
            s == old(pager).state(),
            old(pager).fault_free() ==> pager.fault_free(),
            path.holds(s),
            path.all_inner(),
            rooted(s, at.0, cur),
            b == bound_of(*bound),
            goal == sought(t, dir, b) + rest_of(old(path).places(), dir),
            limit == load_of(old(path).places(), dir) + node_count(t),
            goal == sought(cur, dir, b) + rest_of(path.places(), dir),
            load_of(path.places(), dir) + node_count(cur) <= limit,
        decreases cur,
    {
        let node = match read_node(pager, at) {
            Ok(node) => node,
            Err(e) => {
                proof {
                    if let Tree::Bad { why, .. } = cur {
                        assert(sought(cur, dir, b) =~= seq![Met::Stuck(why)]);
                        assert(goal[0] == Met::Stuck(why));
                    }
                }
                return Err(e);
            },
        };
        proof {
            pager.wf_state();
            lemma_read_node_ok(s, at.0);
            assert(node@ == cur.node());
        }
        match &node {
            Node::Internal { keys, children } => {
                let i = pick_child(keys, children.len(), dir, bound);
                let next = children[i];
                proof {
                    let kids = cur.subtrees();
                    assert(kid_ids(kids) == children@);
                    assert(kids.len() == kid_ids(kids).len());
                    assert(kid_ids(kids)[i as int] == next);
                    lemma_enter(cur, dir, b, i as int, path.places());
                }
                let ghost here = cur;
                proof {
                    cur = cur.subtrees()[i as int];
                }
                path.push(node, i, Ghost(here), Ghost(s));
                at = next;
            },
            Node::Leaf { keys, vals } => {
                let i = pick_entry(keys, dir, bound);
                proof {
                    lemma_land(cur, dir, b, i as int, path.places());
                }
                path.push(node, i, Ghost(cur), Ghost(s));
                return Ok(());
            },
        }
    }
}

/// A lazy, bounded iterator over `[lo, hi)` of a tree.
///
/// Advance it with [`next_entry`](Cursor::next_entry), which returns `Ok(None)` at
/// the end. Both bounds are optional; `lo` is inclusive and `hi` is exclusive. An
/// error ends the walk.
pub struct Cursor<'p, B: IoBackend> {
    /// The page store.
    pub pager: &'p mut Pager<B>,
    /// The direction of the walk.
    pub dir: Direction,
    /// The lower bound of the range.
    pub lo: Option<Vec<u8>>,
    /// The upper bound of the range.
    pub hi: Option<Vec<u8>>,
    /// Where the walk stands.
    pub path: Path,
}

/// The bound that an optional slice stands for.
pub open spec fn slice_bound(b: Option<&[u8]>) -> Bound {
    match b {
        Some(v) => Some(v@),
        None => None,
    }
}

fn own_bound(b: Option<&[u8]>) -> (r: Option<Vec<u8>>)
    ensures
        bound_of(r) == slice_bound(b),
{
    match b {
        Some(v) => Some(to_vec(v)),
        None => None,
    }
}

impl<'p, B: IoBackend> Cursor<'p, B> {
    /// The pager's state.
    pub open spec fn state(&self) -> PagerState {
        self.pager.state()
    }

    /// The direction of the walk.
    pub open spec fn direction(&self) -> Direction {
        self.dir
    }

    /// The lower bound of the range.
    pub open spec fn lower(&self) -> Bound {
        bound_of(self.lo)
    }

    /// The upper bound of the range.
    pub open spec fn upper(&self) -> Bound {
        bound_of(self.hi)
    }

    /// What the walk still has before it.
    pub open spec fn rest(&self) -> Seq<Met> {
        rest_of(self.path.places(), self.dir)
    }

    /// Whether the path is one in the pager's pages.
    pub open spec fn wf(&self) -> bool {
        &&& ready(*self.pager)
        &&& self.path.holds(self.pager.state())
        &&& self.path.ends_in_leaf()
    }

    /// What stays as it is while a cursor walks.
    pub open spec fn same_walk(&self, before: &Self) -> bool {
        &&& self.direction() == before.direction()
        &&& self.lower() == before.lower()
        &&& self.upper() == before.upper()
        &&& self.state() == before.state()
        &&& before.pager.fault_free() ==> self.pager.fault_free()
    }

    /// Start a walk over `[lo, hi)` of the tree at `root`.
    pub fn open(
        pager: &'p mut Pager<B>,
        root: PageId,
        dir: Direction,
        lo: Option<&[u8]>,
        hi: Option<&[u8]>,
    ) -> (r: Result<Cursor<'p, B>>)
        requires
            ready(*old(pager)),
            is_tree(old(pager).state(), root.0),
        ensures
            match r {
                Ok(c) => {
                    &&& c.wf()
                    &&& c.direction() == dir
                    &&& c.lower() == slice_bound(lo)
                    &&& c.upper() == slice_bound(hi)
                    &&& c.state() == old(pager).state()
                    &&& *final(c.pager) == *final(pager)
                    &&& old(pager).fault_free() ==> c.pager.fault_free()
                    &&& c.rest() == start_of(
                        tree_at(old(pager).state(), root.0),
                        dir,
                        slice_bound(lo),
                        slice_bound(hi),
                    )
                },
                Err(e) => {
                    &&& final(pager).wf()
                    &&& final(pager).state() == old(pager).state()
                    &&& old(pager).fault_free() ==> final(pager).fault_free()
                    &&& fails_by(
                        stuck_first(
                            start_of(
                                tree_at(old(pager).state(), root.0),
                                dir,
                                slice_bound(lo),
                                slice_bound(hi),
                            ),
                        ),
                        old(pager).fault_free(),
                        e,
                    )
                },
            },
    {
        let lower = own_bound(lo);
        let upper = own_bound(hi);
        let mut path = Path { frames: Vec::new(), trees: Ghost(Seq::empty()) };
        let ghost t = tree_at(pager.state(), root.0);
        proof {
            assert(path.places() =~= Seq::empty());
        }
        // Both directions seek to the first entry at or above the start bound: a
        // forward walk steps forward from there, a backward one steps back into the
        // range.
        let r = match dir {
            Direction::Forward => descend(pager, &mut path, root, dir, &lower, Ghost(t)),
            Direction::Backward => descend(pager, &mut path, root, dir, &upper, Ghost(t)),
        };
        proof {
            let want = start_of(t, dir, slice_bound(lo), slice_bound(hi));
            assert(want + Seq::empty() =~= want);
        }
        match r {
            Ok(_) => Ok(Cursor { pager, dir, lo: lower, hi: upper, path }),
            Err(e) => Err(e),
        }
    }

    /// Move the path, whose levels are all internal, to the next leaf in the
    /// direction of the walk. Returns `false` if there is none.
    fn cross(&mut self) -> (r: Result<bool>)
        requires
            ready(*old(self).pager),
            old(self).path.holds(old(self).pager.state()),
            old(self).path.all_inner(),
        ensures
            ready(*final(self).pager),
            final(self).pager.state() == old(self).pager.state(),
            final(self).dir == old(self).dir,
            final(self).lo == old(self).lo,
            final(self).hi == old(self).hi,
            *final(final(self).pager) == *final(old(self).pager),
            old(self).pager.fault_free() ==> final(self).pager.fault_free(),
            match r {
                Ok(found) => {
                    &&& final(self).path.holds(final(self).pager.state())
                    &&& final(self).path.ends_in_leaf()
                    &&& final(self).rest() == old(self).rest()
                    &&& found == (final(self).path.frames@.len() > 0)
                    &&& load_of(final(self).path.places(), old(self).dir) <= load_of(
                        old(self).path.places(),
                        old(self).dir,
                    )
                },
                Err(e) => fails_by(
                    stuck_first(old(self).rest()),
                    old(self).pager.fault_free(),
                    e,
                ),
            },
    {
        let ghost s = self.pager.state();
        let ghost dir = self.dir;
        let ghost goal = self.rest();
        let ghost limit = load_of(self.path.places(), dir);
        while self.path.frames.len() > 0
            invariant
                ready(*self.pager),
                self.pager.state() == s,
                s == old(self).pager.state(),
                dir == self.dir,
                self.dir == old(self).dir,
                self.lo == old(self).lo,
                self.hi == old(self).hi,
                *final(self.pager) == *final(old(self).pager),
                old(self).pager.fault_free() ==> self.pager.fault_free(),
                self.path.holds(s),
                self.path.all_inner(),
                goal == old(self).rest(),
                goal == rest_of(self.path.places(), dir),
                load_of(self.path.places(), dir) <= limit,
                limit == load_of(old(self).path.places(), dir),
            decreases self.path.frames@.len(),
        {
            let n: usize = self.path.frames.len();
            let i = self.path.frames[n - 1].idx;
            let ghost places = self.path.places();
            let ghost top = places.last();
            let ghost below = places.drop_last();
            let ghost kids = top.tree.subtrees();
            proof {
                assert(places[n - 1] == top);
                assert(place_ok(s, places[n - 1]));
                assert(self.path.trees@[n - 1] is Inner);
                assert(self.path.trees@.last() == top.tree);
                assert(self.path.frames@[n - 1].node@ == top.tree.node());
                assert(kids.len() == kid_ids(kids).len());
                lemma_load_positive(s, places, dir);
                lemma_load_positive(s, below, dir);
            }
            let step: Option<(usize, PageId)> = match &self.path.frames[n - 1].node {
                Node::Internal { children, .. } => match self.dir {
                    Direction::Forward => if i + 1 < children.len() {
                        Some((i + 1, children[i + 1]))
                    } else {
                        None
                    },
                    Direction::Backward => if i > 0 {
                        Some((i - 1, children[i - 1]))
                    } else {
                        None
                    },
                },
                Node::Leaf { .. } => None,
            };
            match step {
                Some((j, child)) => {
                    let ghost kid = kids[j as int];
                    let ghost p = Place { tree: top.tree, at: j as int };
                    proof {
                        assert(kid_ids(kids)[j as int] == child);
                        assert(rooted(s, child.0, kid));
                        lemma_rest_push(below, p, dir);
                        assert(goal == ahead(top, dir) + rest_of(below, dir));
                        lemma_met_all_push(kids, j as int);
                        lemma_counts_grow(kids, (j + 1) as nat, kids.len());
                        if dir == Direction::Backward {
                            lemma_reverse_add(met_all(kids.take(j as int)), met(kid));
                        }
                        assert(ahead(top, dir) =~= sought(kid, dir, None) + ahead(p, dir));
                        assert(goal =~= sought(kid, dir, None) + (ahead(p, dir) + rest_of(below, dir)));
                    }
                    self.path.move_last(j, Ghost(s));
                    let none: Option<Vec<u8>> = None;
                    let way = self.dir;
                    return match descend(
                        self.pager,
                        &mut self.path,
                        child,
                        way,
                        &none,
                        Ghost(kid),
                    ) {
                        Ok(_) => Ok(true),
                        Err(e) => Err(e),
                    };
                },
                None => {
                    proof {
                        if dir == Direction::Forward {
                            assert(kids.skip(i + 1) =~= Seq::empty());
                        } else {
                            assert(kids.take(i as int) =~= Seq::empty());
                        }
                        assert(ahead(top, dir) =~= Seq::empty());
                        assert(goal =~= rest_of(below, dir));
                        lemma_counts_grow(kids, 0, kids.len());
                    }
                    self.path.pop(Ghost(s));
                },
            }
        }
        assert(self.path.places() =~= Seq::empty());
        Ok(false)
    }

    /// The next entry of the leaf that the path ends in, with the place behind it; or
    /// nothing where the leaf is exhausted.
    fn leaf_step(&self, Ghost(s): Ghost<PagerState>) -> (r: Option<(Item, usize)>)
        requires
            self.path.holds(s),
            self.path.ends_in_leaf(),
            self.path.frames@.len() > 0,
        ensures
            ({
                let places = self.path.places();
                match r {
                    Some((item, next)) => {
                        let p = Place { tree: self.path.trees@.last(), at: next as int };
                        &&& place_ok(s, p)
                        &&& self.rest().len() > 0
                        &&& self.rest()[0] == Met::Entry(item.0@, item.1@)
                        &&& rest_of(places.drop_last().push(p), self.dir)
                            == self.rest().drop_first()
                    },
                    None => {
                        &&& rest_of(places.drop_last(), self.dir) == self.rest()
                        &&& load_of(places, self.dir) == 1 + load_of(places.drop_last(), self.dir)
                    },
                }
            }),
    {
        let n: usize = self.path.frames.len();
        let i = self.path.frames[n - 1].idx;
        let ghost dir = self.dir;
        let ghost places = self.path.places();
        let ghost top = places.last();
        let ghost lower = places.drop_last();
        let ghost goal = self.rest();
        let ghost all = met_leaf(top.tree->Leaf_keys, top.tree->Leaf_vals);
        proof {
            assert(places[n - 1] == top);
            assert(place_ok(s, places[n - 1]));
            assert(self.path.trees@.last() == top.tree);
            assert(self.path.frames@[n - 1].node@ == top.tree.node());
            assert(goal == ahead(top, dir) + rest_of(lower, dir));
        }
        match &self.path.frames[n - 1].node {
            Node::Leaf { keys, vals } => {
                let step: Option<(usize, usize)> = match self.dir {
                    Direction::Forward => if i < keys.len() {
                        Some((i, i + 1))
                    } else {
                        None
                    },
                    Direction::Backward => if i > 0 {
                        Some((i - 1, i - 1))
                    } else {
                        None
                    },
                };
                match step {
                    Some((at, next)) => {
                        let item: Item = (
                            to_vec(keys[at].as_slice()),
                            to_vec(vals[at].as_slice()),
                        );
                        proof {
                            let p = Place { tree: top.tree, at: next as int };
                            assert(all[at as int] == Met::Entry(item.0@, item.1@));
                            lemma_rest_push(lower, p, dir);
                            assert(ahead(top, dir) =~= seq![all[at as int]] + ahead(p, dir));
                            assert(goal[0] == all[at as int]);
                            assert(goal.drop_first() =~= ahead(p, dir) + rest_of(lower, dir));
                        }
                        Some((item, next))
                    },
                    None => {
                        assert(ahead(top, dir) =~= Seq::empty());
                        assert(goal =~= rest_of(lower, dir));
                        None
                    },
                }
            },
            Node::Internal { .. } => None,
        }
    }

    /// Whether a key is beyond the bound that the walk ends at.
    fn is_beyond(&self, key: &Vec<u8>) -> (r: bool)
        ensures
            r == !in_reach(key@, self.direction(), self.lower(), self.upper()),
    {
        match self.dir {
            Direction::Forward => match &self.hi {
                Some(hi) => !is_before(key.as_slice(), hi.as_slice()),
                None => false,
            },
            Direction::Backward => match &self.lo {
                Some(lo) => is_before(key.as_slice(), lo.as_slice()),
                None => false,
            },
        }
    }

    /// Yield the next pair, or `Ok(None)` when the range is exhausted. Fallible (a
    /// page read may fail); an error ends the walk.
    pub fn next_entry(&mut self) -> (r: Result<Option<Item>>)
        requires
            old(self).wf(),
        ensures
            final(self).wf(),
            final(self).same_walk(old(self)),
            *final(final(self).pager) == *final(old(self).pager),
            match r {
                Ok(Some(item)) => {
                    &&& next_of(
                        old(self).rest(),
                        old(self).direction(),
                        old(self).lower(),
                        old(self).upper(),
                    ) == Next::Got(item.0@, item.1@)
                    &&& final(self).rest() == old(self).rest().drop_first()
                },
                Ok(None) => {
                    &&& next_of(
                        old(self).rest(),
                        old(self).direction(),
                        old(self).lower(),
                        old(self).upper(),
                    ) == Next::End
                    &&& final(self).rest() == Seq::<Met>::empty()
                },
                Err(e) => {
                    &&& fails_by(
                        stuck_first(old(self).rest()),
                        old(self).pager.fault_free(),
                        e,
                    )
                    &&& final(self).rest() == Seq::<Met>::empty()
                },
            },
    {
        let ghost s = self.pager.state();
        let ghost dir = self.dir;
        let ghost goal = self.rest();
        while self.path.frames.len() > 0
            invariant
                ready(*self.pager),
                self.pager.state() == s,
                s == old(self).pager.state(),
                dir == self.dir,
                self.dir == old(self).dir,
                self.lo == old(self).lo,
                self.hi == old(self).hi,
                *final(self.pager) == *final(old(self).pager),
                old(self).pager.fault_free() ==> self.pager.fault_free(),
                self.path.holds(s),
                self.path.ends_in_leaf(),
                goal == old(self).rest(),
                goal == rest_of(self.path.places(), dir),
            decreases load_of(self.path.places(), dir),
        {
            let ghost places = self.path.places();
            proof {
                lemma_load_positive(s, places, dir);
            }
            match self.leaf_step(Ghost(s)) {
                Some((item, next)) => {
                    if self.is_beyond(&item.0) {
                        self.path.clear();
                        return Ok(None);
                    }
                    self.path.move_last(next, Ghost(s));
                    return Ok(Some(item));
                },
                None => {
                    self.path.pop(Ghost(s));
                    match self.cross() {
                        Ok(_) => {
                            proof {
                                lemma_load_positive(s, self.path.places(), dir);
                            }
                        },
                        Err(e) => {
                            self.path.clear();
                            return Err(e);
                        },
                    }
                },
            }
        }
        assert(self.path.places() =~= Seq::empty());
        Ok(None)
    }

    /// Collect the remaining pairs into a vector.
    pub fn collect_all(self) -> (r: Result<Vec<Item>>)
        requires
            self.wf(),
        ensures
            final(self.pager).wf(),
            final(self.pager).state() == old(self.pager).state(),
            old(self.pager).fault_free() ==> final(self.pager).fault_free(),
            match r {
                Ok(items) => {
                    &&& item_views(items@) == yielded(
                        self.rest(),
                        self.direction(),
                        self.lower(),
                        self.upper(),
                    )
                    &&& stopper(self.rest(), self.direction(), self.lower(), self.upper()) is None
                },
                Err(e) => fails_by(
                    stopper(self.rest(), self.direction(), self.lower(), self.upper()),
                    old(self.pager).fault_free(),
                    e,
                ),
            },
    {
        let ghost dir = self.dir;
        let ghost lo = self.lower();
        let ghost hi = self.upper();
        let ghost all = yielded(self.rest(), dir, lo, hi);
        let ghost stop = stopper(self.rest(), dir, lo, hi);
        let mut cursor = self;
        let mut out: Vec<Item> = Vec::new();
        assert(item_views(out@) + all =~= all);
        loop
            invariant
                cursor.wf(),
                cursor.same_walk(&self),
                *final(cursor.pager) == *final(self.pager),
                dir == self.direction(),
                lo == self.lower(),
                hi == self.upper(),
                all == yielded(self.rest(), dir, lo, hi),
                stop == stopper(self.rest(), dir, lo, hi),
                item_views(out@) + yielded(cursor.rest(), dir, lo, hi) == all,
                stopper(cursor.rest(), dir, lo, hi) == stop,
            decreases cursor.rest().len(),
        {
            let ghost before = item_views(out@);
            let ghost rest = cursor.rest();
            match cursor.next_entry() {
                Err(e) => {
                    return Err(e);
                },
                Ok(found) => match found {
                    None => {
                        assert(before + Seq::empty() =~= before);
                        return Ok(out);
                    },
                    Some(item) => {
                        out.push(item);
                        assert(item_views(out@) =~= before.push((item.0@, item.1@)));
                        assert(before + (seq![(item.0@, item.1@)] + yielded(
                            rest.drop_first(),
                            dir,
                            lo,
                            hi,
                        )) =~= item_views(out@) + yielded(rest.drop_first(), dir, lo, hi));
                    },
                },
            }
        }
    }

    /// Count the remaining entries in the range, holding only one at a time, for
    /// callers that need a count but not the rows.
    pub fn count(self) -> (r: Result<u64>)
        requires
            self.wf(),
            self.rest().len() <= u64::MAX,
        ensures
            final(self.pager).wf(),
            final(self.pager).state() == old(self.pager).state(),
            old(self.pager).fault_free() ==> final(self.pager).fault_free(),
            match r {
                Ok(n) => {
                    &&& n == yielded(
                        self.rest(),
                        self.direction(),
                        self.lower(),
                        self.upper(),
                    ).len()
                    &&& stopper(self.rest(), self.direction(), self.lower(), self.upper()) is None
                },
                Err(e) => fails_by(
                    stopper(self.rest(), self.direction(), self.lower(), self.upper()),
                    old(self.pager).fault_free(),
                    e,
                ),
            },
    {
        let ghost dir = self.dir;
        let ghost lo = self.lower();
        let ghost hi = self.upper();
        let ghost all = yielded(self.rest(), dir, lo, hi);
        let ghost stop = stopper(self.rest(), dir, lo, hi);
        let mut cursor = self;
        let mut n: u64 = 0;
        loop
            invariant
                cursor.wf(),
                cursor.same_walk(&self),
                *final(cursor.pager) == *final(self.pager),
                dir == self.direction(),
                lo == self.lower(),
                hi == self.upper(),
                all == yielded(self.rest(), dir, lo, hi),
                stop == stopper(self.rest(), dir, lo, hi),
                n + yielded(cursor.rest(), dir, lo, hi).len() == all.len(),
                n + cursor.rest().len() <= u64::MAX,
                stopper(cursor.rest(), dir, lo, hi) == stop,
            decreases cursor.rest().len(),
        {
            match cursor.next_entry() {
                Err(e) => {
                    return Err(e);
                },
                Ok(found) => match found {
                    None => {
                        return Ok(n);
                    },
                    Some(_) => {
                        n = n + 1;
                    },
                },
            }
        }
    }
}

/// What pairs hold.
pub open spec fn item_views(items: Seq<Item>) -> Seq<(Seq<u8>, Seq<u8>)> {
    Seq::new(items.len(), |i: int| (items[i].0@, items[i].1@))
}

impl<'p, B: IoBackend> BTree<'p, B> {
    /// A cursor over `[lo, hi)` of the tree at `root`, in ascending key order. The
    /// tree is given up for it.
    pub fn range(self, root: PageId, lo: Option<&[u8]>, hi: Option<&[u8]>) -> (r: Result<
        Cursor<'p, B>,
    >)
        requires
            ready(*self.pager),
            is_tree(self.state(), root.0),
        ensures
            range_opens(*old(self.pager), *final(self.pager), root, Direction::Forward, lo, hi, r),
            r matches Ok(c) ==> *final(c.pager) == *final(self.pager),
    {
        self.range_dir(root, Direction::Forward, lo, hi)
    }

    /// A cursor over `[lo, hi)` of the tree at `root`, in this direction. The tree is
    /// given up for it.
    pub fn range_dir(
        self,
        root: PageId,
        dir: Direction,
        lo: Option<&[u8]>,
        hi: Option<&[u8]>,
    ) -> (r: Result<Cursor<'p, B>>)
        requires
            ready(*self.pager),
            is_tree(self.state(), root.0),
        ensures
            range_opens(*old(self.pager), *final(self.pager), root, dir, lo, hi, r),
            r matches Ok(c) ==> *final(c.pager) == *final(self.pager),
    {
        Cursor::open(self.pager, root, dir, lo, hi)
    }
}

/// What opening a cursor comes to.
pub open spec fn range_opens<B: IoBackend>(
    pager: Pager<B>,
    after: Pager<B>,
    root: PageId,
    dir: Direction,
    lo: Option<&[u8]>,
    hi: Option<&[u8]>,
    r: Result<Cursor<'_, B>>,
) -> bool {
    let start = start_of(
        tree_at(pager.state(), root.0),
        dir,
        slice_bound(lo),
        slice_bound(hi),
    );
    match r {
        Ok(c) => {
            &&& c.wf()
            &&& c.direction() == dir
            &&& c.lower() == slice_bound(lo)
            &&& c.upper() == slice_bound(hi)
            &&& c.state() == pager.state()
            &&& pager.fault_free() ==> c.pager.fault_free()
            &&& c.rest() == start
        },
        Err(e) => {
            &&& after.wf()
            &&& after.state() == pager.state()
            &&& pager.fault_free() ==> after.fault_free()
            &&& fails_by(stuck_first(start), pager.fault_free(), e)
        },
    }
}

} // verus!
