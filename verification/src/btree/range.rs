//! What a walk over a tree meets, and in what order.

use vstd::prelude::*;
use crate::order::{lower_bound, upper_bound};
use crate::pager::state::PagerState;
use crate::pager::PagerError;
use super::check::{kids_count, lemma_counts_grow};
use super::error::BTreeError;
use super::model::{above, below, embeds, Bound, NodeRead, Tree};

verus! {

/// Iteration direction.
#[derive(Debug, Clone, Copy, PartialEq, Eq, Structural)]
pub enum Direction {
    /// Ascending key order.
    Forward,
    /// Descending key order.
    Backward,
}

/// What a walk meets: an entry, or a page that does not read as a node.
pub enum Met {
    /// An entry, by its key and value.
    Entry(Seq<u8>, Seq<u8>),
    /// A page that stops the walk, by what reading it gives.
    Stuck(NodeRead),
}

/// The entries of a leaf.
pub open spec fn met_leaf(keys: Seq<Seq<u8>>, vals: Seq<Seq<u8>>) -> Seq<Met> {
    Seq::new(keys.len(), |i: int| Met::Entry(keys[i], vals[i]))
}

/// What a walk over a whole tree meets, from left to right.
pub open spec fn met(t: Tree) -> Seq<Met>
    decreases t,
{
    match t {
        Tree::Leaf { keys, vals, .. } => met_leaf(keys, vals),
        Tree::Inner { kids, .. } => met_all(kids),
        Tree::Bad { why, .. } => seq![Met::Stuck(why)],
    }
}

/// What a walk over trees meets, one after the other.
pub open spec fn met_all(kids: Seq<Tree>) -> Seq<Met>
    decreases kids,
{
    if kids.len() == 0 {
        Seq::empty()
    } else {
        met(kids[0]) + met_all(kids.drop_first())
    }
}

/// What a walk meets from the place of `b` on: where a search for `b` comes to, and
/// everything to its right.
pub open spec fn met_from(t: Tree, b: Seq<u8>) -> Seq<Met>
    decreases t,
{
    match t {
        Tree::Leaf { keys, vals, .. } => met_leaf(keys, vals).skip(lower_bound(keys, b)),
        Tree::Inner { keys, kids, .. } => {
            let i = upper_bound(keys, b);
            if 0 <= i < kids.len() {
                met_from(kids[i], b) + met_all(kids.skip(i + 1))
            } else {
                Seq::empty()
            }
        },
        Tree::Bad { why, .. } => seq![Met::Stuck(why)],
    }
}

/// What a walk meets up to the place of `b`: everything to the left of where a
/// search for `b` comes to.
pub open spec fn met_upto(t: Tree, b: Seq<u8>) -> Seq<Met>
    decreases t,
{
    match t {
        Tree::Leaf { keys, vals, .. } => met_leaf(keys, vals).take(lower_bound(keys, b)),
        Tree::Inner { keys, kids, .. } => {
            let i = upper_bound(keys, b);
            if 0 <= i < kids.len() {
                met_all(kids.take(i)) + met_upto(kids[i], b)
            } else {
                Seq::empty()
            }
        },
        Tree::Bad { why, .. } => seq![Met::Stuck(why)],
    }
}

/// What a walk in this direction over `[lo, hi)` starts with: a forward one at `lo`,
/// a backward one at `hi`.
pub open spec fn start_of(t: Tree, dir: Direction, lo: Bound, hi: Bound) -> Seq<Met> {
    match dir {
        Direction::Forward => match lo {
            Some(b) => met_from(t, b),
            None => met(t),
        },
        Direction::Backward => match hi {
            Some(b) => met_upto(t, b).reverse(),
            None => met(t).reverse(),
        },
    }
}

/// What the next step of a walk comes to.
pub enum Next {
    /// The range is exhausted.
    End,
    /// An entry.
    Got(Seq<u8>, Seq<u8>),
    /// A page that does not read as a node.
    Stuck(NodeRead),
}

/// Whether a key is not beyond the bound that a walk ends at.
pub open spec fn in_reach(k: Seq<u8>, dir: Direction, lo: Bound, hi: Bound) -> bool {
    match dir {
        Direction::Forward => below(k, hi),
        Direction::Backward => above(lo, k),
    }
}

/// What the next step comes to, `rest` being what the walk still has before it.
pub open spec fn next_of(rest: Seq<Met>, dir: Direction, lo: Bound, hi: Bound) -> Next {
    if rest.len() == 0 {
        Next::End
    } else {
        match rest[0] {
            Met::Entry(k, v) => if in_reach(k, dir, lo, hi) {
                Next::Got(k, v)
            } else {
                Next::End
            },
            Met::Stuck(n) => Next::Stuck(n),
        }
    }
}

/// The entries that a walk yields.
pub open spec fn yielded(rest: Seq<Met>, dir: Direction, lo: Bound, hi: Bound) -> Seq<
    (Seq<u8>, Seq<u8>),
>
    decreases rest.len(),
{
    match next_of(rest, dir, lo, hi) {
        Next::Got(k, v) => seq![(k, v)] + yielded(rest.drop_first(), dir, lo, hi),
        _ => Seq::empty(),
    }
}

/// The page that stops a walk, if one does.
pub open spec fn stopper(rest: Seq<Met>, dir: Direction, lo: Bound, hi: Bound) -> Option<NodeRead>
    decreases rest.len(),
{
    match next_of(rest, dir, lo, hi) {
        Next::Got(k, v) => stopper(rest.drop_first(), dir, lo, hi),
        Next::Stuck(n) => Some(n),
        Next::End => None,
    }
}

/// Whether an error is that of a page that does not read, or an I/O error of a
/// backend that can have one.
pub open spec fn fails_by(n: Option<NodeRead>, fault_free: bool, e: BTreeError) -> bool {
    match e {
        BTreeError::Pager(PagerError::Io(_)) => !fault_free || n == Some(NodeRead::Unbacked),
        _ => n == Some(NodeRead::Fault(e)),
    }
}

/// The page that a walk meets first, if it meets one that does not read.
pub open spec fn stuck_first(rest: Seq<Met>) -> Option<NodeRead> {
    if rest.len() > 0 {
        match rest[0] {
            Met::Stuck(n) => Some(n),
            _ => None,
        }
    } else {
        None
    }
}

// --- the path of a walk ------------------------------------------------------

/// One level of a path: a tree, and a place in its root node.
pub struct Place {
    pub tree: Tree,
    pub at: int,
}

/// Whether a place is one in the pages of `s`: a child of an internal node, or
/// between the entries of a leaf.
pub open spec fn place_ok(s: PagerState, p: Place) -> bool {
    embeds(s, p.tree) && match p.tree {
        Tree::Leaf { keys, vals, .. } => 0 <= p.at <= keys.len() && vals.len() == keys.len(),
        Tree::Inner { kids, .. } => 0 <= p.at < kids.len(),
        Tree::Bad { .. } => false,
    }
}

/// What one level of a path has before it.
pub open spec fn ahead(p: Place, dir: Direction) -> Seq<Met> {
    match (p.tree, dir) {
        (Tree::Leaf { keys, vals, .. }, Direction::Forward) => met_leaf(keys, vals).skip(p.at),
        (Tree::Leaf { keys, vals, .. }, Direction::Backward) => met_leaf(keys, vals).take(
            p.at,
        ).reverse(),
        (Tree::Inner { kids, .. }, Direction::Forward) => met_all(kids.skip(p.at + 1)),
        (Tree::Inner { kids, .. }, Direction::Backward) => met_all(kids.take(p.at)).reverse(),
        _ => Seq::empty(),
    }
}

/// What a path has before it: its lowest level first.
pub open spec fn rest_of(path: Seq<Place>, dir: Direction) -> Seq<Met>
    decreases path.len(),
{
    if path.len() == 0 {
        Seq::empty()
    } else {
        ahead(path.last(), dir) + rest_of(path.drop_last(), dir)
    }
}

/// How many nodes one level of a path still leads to.
pub open spec fn load(p: Place, dir: Direction) -> int {
    match (p.tree, dir) {
        (Tree::Inner { kids, .. }, Direction::Forward) => 1 + kids_count(kids, kids.len())
            - kids_count(kids, (p.at + 1) as nat),
        (Tree::Inner { kids, .. }, Direction::Backward) => 1int + kids_count(kids, p.at as nat),
        _ => 1,
    }
}

/// How many nodes a path still leads to.
pub open spec fn load_of(path: Seq<Place>, dir: Direction) -> int
    decreases path.len(),
{
    if path.len() == 0 {
        0
    } else {
        load(path.last(), dir) + load_of(path.drop_last(), dir)
    }
}

/// Whether a path is one in the pages of `s`, all but its lowest level internal.
pub open spec fn path_ok(s: PagerState, path: Seq<Place>) -> bool {
    &&& forall|j: int| 0 <= j < path.len() ==> place_ok(s, #[trigger] path[j])
    &&& forall|j: int| 0 <= j < path.len() - 1 ==> (#[trigger] path[j]).tree is Inner
}

pub proof fn lemma_met_all_push(kids: Seq<Tree>, i: int)
    requires
        0 <= i < kids.len(),
    ensures
        met_all(kids.skip(i)) == met(kids[i]) + met_all(kids.skip(i + 1)),
        met_all(kids.take(i + 1)) == met_all(kids.take(i)) + met(kids[i]),
    decreases kids.len(),
{
    assert(kids.skip(i).drop_first() =~= kids.skip(i + 1));
    if i == 0 {
        assert(kids.take(1).drop_first() =~= Seq::empty());
        assert(kids.take(0) =~= Seq::empty());
        reveal_with_fuel(met_all, 2);
        assert(kids.take(1)[0] == kids[0]);
        assert(met(kids[0]) + Seq::<Met>::empty() =~= Seq::<Met>::empty() + met(kids[0]));
    } else {
        let rest = kids.drop_first();
        lemma_met_all_push(rest, i - 1);
        assert(kids.take(i + 1).drop_first() =~= rest.take(i));
        assert(kids.take(i).drop_first() =~= rest.take(i - 1));
        assert(met(kids[0]) + (met_all(rest.take(i - 1)) + met(rest[i - 1])) =~= (met(kids[0])
            + met_all(rest.take(i - 1))) + met(rest[i - 1]));
    }
}

pub proof fn lemma_reverse_add<T>(a: Seq<T>, b: Seq<T>)
    ensures
        (a + b).reverse() == b.reverse() + a.reverse(),
{
    assert((a + b).reverse() =~= b.reverse() + a.reverse());
}

pub proof fn lemma_rest_push(path: Seq<Place>, p: Place, dir: Direction)
    ensures
        rest_of(path.push(p), dir) == ahead(p, dir) + rest_of(path, dir),
        load_of(path.push(p), dir) == load(p, dir) + load_of(path, dir),
{
    assert(path.push(p).drop_last() =~= path);
}

pub proof fn lemma_load_positive(s: PagerState, path: Seq<Place>, dir: Direction)
    requires
        forall|j: int| 0 <= j < path.len() ==> place_ok(s, #[trigger] path[j]),
    ensures
        load_of(path, dir) >= path.len(),
    decreases path.len(),
{
    if path.len() > 0 {
        lemma_load_positive(s, path.drop_last(), dir);
        let p = path.last();
        assert(place_ok(s, path[path.len() - 1]));
        if let Tree::Inner { kids, .. } = p.tree {
            lemma_counts_grow(kids, (p.at + 1) as nat, kids.len());
        }
    }
}

} // verus!
