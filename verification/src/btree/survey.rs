//! Finding out whether trees can be changed: that what their roots span are B+trees with
//! no page in common, none of them free.
//!
//! The walk takes nothing for granted of the pages it comes to: it is given a budget of
//! as many nodes as there are pages, and runs out of it where the pages form no tree.

use vstd::prelude::*;
use std::collections::HashSet;
use crate::common::io::IoBackend;
use crate::order::strings;
use crate::pager::pager::lemma_distinct_bounded;
use crate::pager::state::{PagerState, MAX_PAGES};
use crate::pager::{PageId, Pager, FIRST_DATA_PAGE};
use super::check::{check, entry_count, kids_count, kids_entries, lemma_counts_grow, node_count};
use super::error::{BTreeError, Result};
use super::grove::{planted, trees_at};
use super::grow::lemma_held;
use super::insert::has_btree;
use super::model::{
    apart, cells_fit, embeds, entry_fits, key_fits, kid_ids, lemma_apart,
    lemma_read_node_ok, node_read, rooted, tree_at, tree_is_unique, NodeRead, Tree,
};
use super::node::{Node, NodeV, MAX_CELL};
use super::sound::{cells_ok, checked_trees_are_btrees, images_sound};
use super::store::{read_node, spare, usable};
use super::tree::{ready, validate_in};

verus! {

broadcast use vstd::std_specs::hash::group_hash_axioms;

/// The pages of a tree, each before those below it.
pub open spec fn page_list(t: Tree) -> Seq<u64>
    decreases t, 0nat,
{
    match t {
        Tree::Inner { id, kids, .. } => seq![id] + kids_pages(kids, kids.len()),
        _ => seq![t.id()],
    }
}

/// The pages of the first `n` subtrees.
pub open spec fn kids_pages(kids: Seq<Tree>, n: nat) -> Seq<u64>
    decreases kids, n,
{
    if n == 0 || n > kids.len() {
        Seq::empty()
    } else {
        kids_pages(kids, (n - 1) as nat) + page_list(kids[n - 1])
    }
}

proof fn lemma_pages(t: Tree)
    ensures
        page_list(t).len() == node_count(t),
        forall|p: u64| #[trigger] page_list(t).contains(p) <==> t.owns(p),
    decreases t, 0nat,
{
    match t {
        Tree::Inner { id, kids, .. } => {
            let below = kids_pages(kids, kids.len());
            lemma_kids_pages(kids, kids.len());
            assert forall|p: u64| #[trigger] page_list(t).contains(p) <==> t.owns(p) by {
                let all = page_list(t);
                if all.contains(p) {
                    let q = all.index_of(p);
                    if q > 0 {
                        assert(below[q - 1] == p);
                        assert(below.contains(p));
                    }
                }
                if p == id {
                    assert(all[0] == p);
                }
                if below.contains(p) {
                    assert(all[below.index_of(p) + 1] == p);
                }
            }
        },
        _ => {
            assert(page_list(t)[0] == t.id());
        },
    }
}

proof fn lemma_kids_pages(kids: Seq<Tree>, n: nat)
    requires
        n <= kids.len(),
    ensures
        kids_pages(kids, n).len() == kids_count(kids, n),
        forall|p: u64| #[trigger]
            kids_pages(kids, n).contains(p) <==> exists|i: int|
                0 <= i < n && (#[trigger] kids[i]).owns(p),
    decreases kids, n,
{
    if n > 0 {
        let k = (n - 1) as nat;
        let (first, last) = (kids_pages(kids, k), page_list(kids[n - 1]));
        lemma_kids_pages(kids, k);
        lemma_pages(kids[n - 1]);
        assert forall|p: u64| #[trigger] kids_pages(kids, n).contains(p) <==> exists|i: int|
            0 <= i < n && (#[trigger] kids[i]).owns(p) by {
            let all = first + last;
            if all.contains(p) {
                let q = all.index_of(p);
                if q < first.len() {
                    assert(first[q] == p);
                    assert(first.contains(p));
                } else {
                    assert(last[q - first.len()] == p);
                    assert(last.contains(p));
                    assert(kids[n - 1].owns(p));
                }
            }
            if exists|i: int| 0 <= i < n && (#[trigger] kids[i]).owns(p) {
                let i = choose|i: int| 0 <= i < n && (#[trigger] kids[i]).owns(p);
                if i < k {
                    assert(first.contains(p));
                    assert(all[first.index_of(p)] == p);
                } else {
                    assert(last.contains(p));
                    assert(all[first.len() + last.index_of(p)] == p);
                }
            }
        }
    }
}

/// The pages of different trees that are apart are all different.
proof fn lemma_distinct_pages(t: Tree)
    requires
        t.distinct(),
    ensures
        page_list(t).no_duplicates(),
    decreases t, 0nat,
{
    if let Tree::Inner { id, kids, .. } = t {
        let below = kids_pages(kids, kids.len());
        lemma_apart_pages(kids, kids.len());
        lemma_kids_pages(kids, kids.len());
        let all = page_list(t);
        assert forall|i: int, j: int| 0 <= i < j < all.len() implies all[i] != all[j] by {
            assert(all[j] == below[j - 1]);
            if i == 0 {
                assert(below.contains(all[j]));
            } else {
                assert(all[i] == below[i - 1]);
            }
        }
    }
}

proof fn lemma_apart_pages(kids: Seq<Tree>, n: nat)
    requires
        n <= kids.len(),
        apart(kids),
        forall|i: int| 0 <= i < kids.len() ==> (#[trigger] kids[i]).distinct(),
    ensures
        kids_pages(kids, n).no_duplicates(),
    decreases kids, n,
{
    if n > 0 {
        let k = (n - 1) as nat;
        let (first, last) = (kids_pages(kids, k), page_list(kids[n - 1]));
        lemma_apart_pages(kids, k);
        lemma_distinct_pages(kids[n - 1]);
        lemma_kids_pages(kids, k);
        lemma_pages(kids[n - 1]);
        let all = first + last;
        assert forall|i: int, j: int| 0 <= i < j < all.len() implies all[i] != all[j] by {
            if i < first.len() && j >= first.len() {
                assert(first[i] == all[i] && last[j - first.len()] == all[j]);
                assert(first.contains(all[i]) && last.contains(all[j]));
                let q = choose|q: int| 0 <= q < k && (#[trigger] kids[q]).owns(all[i]);
                lemma_apart(kids, q, n - 1, all[i]);
            } else if j < first.len() {
                assert(first[i] == all[i] && first[j] == all[j]);
            } else {
                assert(last[i - first.len()] == all[i] && last[j - first.len()] == all[j]);
            }
        }
    }
}

/// Trees whose pages are all different are apart.
proof fn lemma_pages_apart(kids: Seq<Tree>)
    requires
        kids_pages(kids, kids.len()).no_duplicates(),
    ensures
        apart(kids),
{
    reveal(apart);
    assert forall|i: int, j: int, p: u64|
        0 <= i < kids.len() && 0 <= j < kids.len() && i != j
            && #[trigger] kids[i].owns(p) implies !#[trigger] kids[j].owns(p) by {
        if kids[j].owns(p) {
            if i < j {
                lemma_shared_page(kids, kids.len(), i, j, p);
            } else {
                lemma_shared_page(kids, kids.len(), j, i, p);
            }
        }
    }
}

proof fn lemma_shared_page(kids: Seq<Tree>, n: nat, i: int, j: int, p: u64)
    requires
        0 <= i < j < n <= kids.len(),
        kids[i].owns(p),
        kids[j].owns(p),
    ensures
        !kids_pages(kids, n).no_duplicates(),
    decreases n,
{
    let k = (n - 1) as nat;
    let (first, last) = (kids_pages(kids, k), page_list(kids[n - 1]));
    let all = first + last;
    if j < k {
        lemma_shared_page(kids, k, i, j, p);
        let (a, b) = choose|a: int, b: int|
            0 <= a < first.len() && 0 <= b < first.len() && a != b && first[a] == first[b];
        assert(all[a] == all[b]);
    } else {
        lemma_kids_pages(kids, k);
        lemma_pages(kids[n - 1]);
        assert(first.contains(p) && last.contains(p));
        let (a, b) = (first.index_of(p), last.index_of(p));
        assert(all[a] == p && all[first.len() + b] == p);
    }
}

/// A node takes up at least a byte for each entry.
proof fn lemma_count_bounded(n: NodeV, k: nat)
    ensures
        k <= n.cells(k),
    decreases k,
{
    if k > 0 {
        lemma_count_bounded(n, (k - 1) as nat);
    }
}

/// No tree holds more entries than its pages have bytes.
proof fn lemma_entries_bounded(s: PagerState, t: Tree)
    requires
        embeds(s, t),
        images_sound(s),
    ensures
        entry_count(t) <= 4096 * node_count(t),
    decreases t, 1nat, 0nat,
{
    match t {
        Tree::Leaf { id, .. } => {
            lemma_read_node_ok(s, id);
            lemma_count_bounded(t.node(), t.node().count());
        },
        Tree::Inner { kids, .. } => {
            lemma_kids_entries_bounded(s, t, kids.len());
        },
        _ => {},
    }
}

proof fn lemma_kids_entries_bounded(s: PagerState, t: Tree, n: nat)
    requires
        embeds(s, t),
        images_sound(s),
        t is Inner,
        n <= t.subtrees().len(),
    ensures
        kids_entries(t.subtrees(), n) <= 4096 * kids_count(t.subtrees(), n),
    decreases t, 0nat, n,
{
    if n > 0 {
        lemma_kids_entries_bounded(s, t, (n - 1) as nat);
        lemma_entries_bounded(s, t.subtrees()[n - 1]);
    }
}

proof fn lemma_cell_unfit(keys: Seq<Seq<u8>>, vals: Seq<Seq<u8>>, i: int)
    requires
        0 <= i < keys.len(),
        !entry_fits(keys[i], vals[i]),
    ensures
        !cells_fit(NodeV::Leaf { keys, vals }),
{
    let n = NodeV::Leaf { keys, vals };
    if cells_fit(n) {
        assert(entry_fits(n->Leaf_keys[i], n->vals[i]));
    }
}

/// Whether all cells of a node are within the limit.
fn cells_within(node: &Node) -> (r: bool)
    requires
        node@.fits_together(),
    ensures
        r == cells_fit(node@),
{
    match node {
        Node::Leaf { keys, vals } => {
            let mut i: usize = 0;
            while i < keys.len()
                invariant
                    i <= keys@.len(),
                    keys@.len() == vals@.len(),
                    node@ == (NodeV::Leaf { keys: strings(keys@), vals: strings(vals@) }),
                    forall|j: int|
                        0 <= j < i ==> entry_fits(
                            #[trigger] strings(keys@)[j],
                            strings(vals@)[j],
                        ),
                decreases keys@.len() - i,
            {
                let key: usize = keys[i].len();
                let val: usize = vals[i].len();
                assert(strings(keys@)[i as int] == keys@[i as int]@);
                assert(strings(vals@)[i as int] == vals@[i as int]@);
                if key > MAX_CELL || val > MAX_CELL || 4 + key + val > MAX_CELL || 10 + key
                    > MAX_CELL {
                    proof {
                        lemma_cell_unfit(strings(keys@), strings(vals@), i as int);
                    }
                    return false;
                }
                i = i + 1;
            }
            true
        },
        Node::Internal { keys, .. } => {
            let mut i: usize = 0;
            while i < keys.len()
                invariant
                    i <= keys@.len(),
                    node@ is Internal,
                    node@.keys() == strings(keys@),
                    forall|j: int| 0 <= j < i ==> key_fits(#[trigger] strings(keys@)[j]),
                decreases keys@.len() - i,
            {
                let key: usize = keys[i].len();
                assert(strings(keys@)[i as int] == keys@[i as int]@);
                if key > MAX_CELL || 10 + key > MAX_CELL {
                    assert(!key_fits(strings(keys@)[i as int]));
                    return false;
                }
                i = i + 1;
            }
            true
        },
    }
}

/// Whether what `id` spans can be walked within a budget, all of its pages reading and
/// holding what they may.
pub open spec fn walkable(s: PagerState, id: u64, budget: usize) -> bool {
    exists|t: Tree| #[trigger] rooted(s, id, t) && cells_ok(t) && node_count(t) <= budget
}

/// Walk over what `id` spans, listing its pages, for at most `budget` nodes.
fn walk_pages<B: IoBackend>(
    pager: &mut Pager<B>,
    id: PageId,
    budget: &mut usize,
    pages: &mut Vec<u64>,
) -> (r: Result<Option<Ghost<Tree>>>)
    requires
        ready(*old(pager)),
    ensures
        final(pager).wf(),
        final(pager).state() == old(pager).state(),
        old(pager).fault_free() ==> final(pager).fault_free(),
        match r {
            Ok(Some(t)) => {
                &&& rooted(old(pager).state(), id.0, t@)
                &&& cells_ok(t@)
                &&& node_count(t@) + *final(budget) == *old(budget)
                &&& final(pages)@ == old(pages)@ + page_list(t@)
            },
            Ok(None) => !walkable(old(pager).state(), id.0, *old(budget)),
            Err(_) => !old(pager).fault_free() || !walkable(
                old(pager).state(),
                id.0,
                *old(budget),
            ),
        },
    decreases *old(budget),
{
    let ghost s = pager.state();
    let ghost all0 = pages@;
    if *budget == 0 {
        return Ok(None);
    }
    *budget = *budget - 1;
    let ghost left = *budget;
    let node = match read_node(pager, id) {
        Ok(node) => node,
        Err(e) => {
            return Err(e);
        },
    };
    proof {
        pager.wf_state();
        lemma_read_node_ok(s, id.0);
    }
    pages.push(id.get());
    let fits = cells_within(&node);
    if !fits {
        return Ok(None);
    }
    match node {
        Node::Leaf { keys, vals } => {
            let ghost t = Tree::Leaf { id: id.0, keys: strings(keys@), vals: strings(vals@) };
            proof {
                assert(t.node() == node@);
                assert(pages@ =~= all0 + page_list(t));
            }
            Ok(Some(Ghost(t)))
        },
        Node::Internal { keys, children } => {
            let ghost mut kids: Seq<Tree> = Seq::empty();
            let mut i: usize = 0;
            while i < children.len()
                invariant
                    i <= children@.len(),
                    ready(*pager),
                    pager.state() == s,
                    s == old(pager).state(),
                    old(pager).fault_free() ==> pager.fault_free(),
                    node_read(s, id.0) == NodeRead::Node(
                        NodeV::Internal { keys: strings(keys@), children: children@ },
                    ),
                    cells_fit(NodeV::Internal { keys: strings(keys@), children: children@ }),
                    left + 1 == *old(budget),
                    kids.len() == i,
                    forall|j: int|
                        0 <= j < i ==> rooted(s, children@[j].0, #[trigger] kids[j]) && cells_ok(
                            kids[j],
                        ),
                    kids_count(kids, i as nat) + *budget == left,
                    pages@ == all0.push(id.0) + kids_pages(kids, i as nat),
                decreases children@.len() - i,
            {
                let ghost here = *budget;
                let sub = walk_pages(pager, children[i], budget, pages);
                match sub {
                    Ok(Some(kid)) => {
                        proof {
                            let more = kids.push(kid@);
                            lemma_prefix_pages(kids, more, i as nat);
                            assert(kids_count(more, (i + 1) as nat) == kids_count(more, i as nat)
                                + node_count(kid@));
                            assert(pages@ =~= all0.push(id.0) + kids_pages(more, (i + 1) as nat));
                            kids = more;
                        }
                    },
                    _ => {
                        proof {
                            if walkable(s, id.0, *old(budget)) {
                                lemma_unwalkable(s, id.0, *old(budget), kids, here);
                            }
                        }
                        return match sub {
                            Err(e) => Err(e),
                            _ => Ok(None),
                        };
                    },
                }
                i = i + 1;
            }
            let ghost t = Tree::Inner { id: id.0, keys: strings(keys@), kids };
            proof {
                assert(kid_ids(kids) =~= children@);
                assert(pages@ =~= all0 + page_list(t));
            }
            Ok(Some(Ghost(t)))
        },
    }
}

proof fn lemma_prefix_pages(kids: Seq<Tree>, more: Seq<Tree>, n: nat)
    requires
        n <= kids.len() <= more.len(),
        forall|i: int| 0 <= i < n ==> kids[i] == more[i],
    ensures
        kids_pages(kids, n) == kids_pages(more, n),
        kids_count(kids, n) == kids_count(more, n),
    decreases n,
{
    if n > 0 {
        lemma_prefix_pages(kids, more, (n - 1) as nat);
    }
}

/// A node can be walked within a budget only if the next of its subtrees can be, within
/// what those before it leave.
proof fn lemma_unwalkable(s: PagerState, id: u64, budget: usize, kids: Seq<Tree>, here: usize)
    requires
        walkable(s, id, budget),
        node_read(s, id) matches NodeRead::Node(NodeV::Internal { children, .. }) && kids.len()
            < children.len() && forall|j: int|
            0 <= j < kids.len() ==> rooted(s, children[j].0, #[trigger] kids[j]),
        kids_count(kids, kids.len()) + here + 1 == budget,
    ensures
        walkable(s, node_read(s, id)->Node_0->children[kids.len() as int].0, here),
{
    let t = choose|t: Tree| #[trigger] rooted(s, id, t) && cells_ok(t) && node_count(t) <= budget;
    let n = kids.len();
    let all = t.subtrees();
    let children = node_read(s, id)->Node_0->children;
    assert(kid_ids(all) == children);
    assert(all.len() == kid_ids(all).len());
    assert forall|j: int| 0 <= j < n implies kids[j] == all[j] by {
        assert(kid_ids(all)[j] == children[j]);
        assert(rooted(s, children[j].0, kids[j]));
        tree_is_unique(s, kids[j], all[j]);
    }
    lemma_prefix_pages(kids, all, n);
    lemma_counts_grow(all, n + 1, all.len());
    assert(kids_count(all, n + 1) == kids_count(all, n) + node_count(all[n as int]));
    assert(kid_ids(all)[n as int] == children[n as int]);
    assert(rooted(s, children[n as int].0, all[n as int]));
    assert(cells_ok(all[n as int]));
}

/// What holds of the pages of trees that can be changed.
proof fn lemma_planted_pages(s: PagerState, roots: Seq<PageId>)
    requires
        planted(s, roots),
        images_sound(s),
        s.meta.page_count >= FIRST_DATA_PAGE,
    ensures
        ({
            let trees = trees_at(s, roots);
            let pages = kids_pages(trees, trees.len());
            &&& pages.no_duplicates()
            &&& forall|i: int| 0 <= i < pages.len() ==> !spare(s).contains(#[trigger] pages[i])
            &&& kids_count(trees, trees.len()) <= s.meta.page_count
            &&& forall|i: int|
                0 <= i < trees.len() ==> rooted(s, roots[i].0, #[trigger] trees[i]) && cells_ok(
                    trees[i],
                ) && check(trees[i], None, None, None) is Sound
        }),
{
    let trees = trees_at(s, roots);
    let pages = kids_pages(trees, trees.len());
    assert forall|i: int| 0 <= i < trees.len() implies rooted(s, roots[i].0, #[trigger] trees[i])
        && cells_ok(trees[i]) && check(trees[i], None, None, None) is Sound
        && trees[i].distinct() by {
        assert(has_btree(s, roots[i].0));
        assert(rooted(s, roots[i].0, tree_at(s, roots[i].0)));
        checked_trees_are_btrees(s, roots[i].0, trees[i]);
    }
    lemma_apart_pages(trees, trees.len());
    lemma_kids_pages(trees, trees.len());
    assert forall|i: int| 0 <= i < pages.len() implies !spare(s).contains(#[trigger] pages[i])
        && FIRST_DATA_PAGE <= pages[i] < s.meta.page_count by {
        assert(pages.contains(pages[i]));
        let q = choose|q: int| 0 <= q < trees.len() && (#[trigger] trees[q]).owns(pages[i]);
        assert(has_btree(s, roots[q].0));
        lemma_held(s, trees[q]);
    }
    lemma_distinct_bounded(pages, FIRST_DATA_PAGE, s.meta.page_count);
}

/// Whether the trees at these roots can be changed, on a machine that can list their pages.
pub open spec fn changeable(s: PagerState, roots: Seq<PageId>) -> bool {
    usable(s) && planted(s, roots) && s.meta.page_count <= usize::MAX
}

/// Find out whether the trees at `roots` can be changed: whether each is a B+tree, no page
/// is in two of them, and the free pages are data pages, each free once, of which none is
/// a page of theirs.
pub fn can_change<B: IoBackend>(pager: &mut Pager<B>, roots: &Vec<PageId>) -> (r: Result<bool>)
    requires
        ready(*old(pager)),
    ensures
        final(pager).wf(),
        old(pager).fault_free() ==> final(pager).fault_free(),
        final(pager).state() == old(pager).state() || (old(pager).state().free_list() is Done
            && final(pager).state() == old(pager).state().with_free(
            old(pager).state().free_list()->Done_0,
            old(pager).state().free_list()->Done_1,
        )),
        match r {
            Ok(true) => usable(final(pager).state()) && planted(final(pager).state(), roots@),
            Ok(false) => !changeable(final(pager).state(), roots@),
            Err(_) => !old(pager).fault_free() || !(old(pager).state().free_list() is Done)
                || !changeable(final(pager).state(), roots@),
        },
{
    let free = match pager.free_pages() {
        Ok(free) => free,
        Err(e) => {
            return Err(BTreeError::Pager(e));
        },
    };
    let ghost s = pager.state();
    proof {
        pager.wf_state();
        assert(spare(s) == free@);
        if planted(s, roots@) {
            lemma_planted_pages(s, roots@);
        }
    }
    let page_count = pager.page_count();
    let mut seen: HashSet<u64> = HashSet::new();
    let mut i: usize = 0;
    while i < free.len()
        invariant
            i <= free@.len(),
            pager.wf(),
            pager.state() == s,
            old(pager).fault_free() ==> pager.fault_free(),
            old(pager).state().free_list() is Done,
            s == old(pager).state().with_free(
                old(pager).state().free_list()->Done_0,
                old(pager).state().free_list()->Done_1,
            ),
            spare(s) == free@,
            page_count == s.meta.page_count,
            forall|j: int| 0 <= j < i ==> s.in_range(#[trigger] free@[j]),
            forall|j: int, k: int| 0 <= j < k < i ==> free@[j] != free@[k],
            forall|p: u64| #[trigger] seen@.contains(p) <==> exists|j: int|
                0 <= j < i && #[trigger] free@[j] == p,
        decreases free@.len() - i,
    {
        let id: u64 = free[i];
        if id < FIRST_DATA_PAGE || id >= page_count || seen.contains(&id) {
            proof {
                if usable(s) {
                    assert(s.in_range(spare(s)[i as int]));
                    let j = choose|j: int| 0 <= j < i && #[trigger] free@[j] == id;
                    assert(spare(s)[j] == spare(s)[i as int]);
                }
            }
            return Ok(false);
        }
        seen.insert(id);
        i = i + 1;
        assert forall|p: u64| #[trigger] seen@.contains(p) <==> exists|j: int|
            0 <= j < i && #[trigger] free@[j] == p by {
            if p == id {
                assert(free@[i - 1] == p);
            }
        }
    }
    let mut budget: usize = if page_count <= usize::MAX as u64 {
        page_count as usize
    } else {
        usize::MAX
    };
    let ghost most = budget;
    let mut pages: Vec<u64> = Vec::new();
    let ghost mut trees: Seq<Tree> = Seq::empty();
    let mut i: usize = 0;
    while i < roots.len()
        invariant
            i <= roots@.len(),
            ready(*pager),
            pager.state() == s,
            old(pager).fault_free() ==> pager.fault_free(),
            old(pager).state().free_list() is Done,
            s == old(pager).state().with_free(
                old(pager).state().free_list()->Done_0,
                old(pager).state().free_list()->Done_1,
            ),
            images_sound(s),
            s.meta.page_count >= FIRST_DATA_PAGE,
            s.meta.page_count <= MAX_PAGES,
            most <= s.meta.page_count,
            s.meta.page_count <= usize::MAX ==> most == s.meta.page_count,
            trees.len() == i,
            forall|j: int|
                0 <= j < i ==> rooted(s, roots@[j].0, #[trigger] trees[j]) && cells_ok(trees[j])
                    && check(trees[j], None, None, None) is Sound,
            kids_count(trees, i as nat) + budget == most,
            pages@ == kids_pages(trees, i as nat),
        decreases roots@.len() - i,
    {
        let ghost here = budget;
        proof {
            if changeable(s, roots@) {
                lemma_next_walkable(s, roots@, trees, here);
            }
        }
        let sub = walk_pages(pager, roots[i], &mut budget, &mut pages);
        let tree = match sub {
            Ok(Some(tree)) => tree,
            Ok(None) => {
                return Ok(false);
            },
            Err(e) => {
                return Err(e);
            },
        };
        proof {
            assert(rooted(s, roots@[i as int].0, tree_at(s, roots@[i as int].0)));
            tree_is_unique(s, tree@, tree_at(s, roots@[i as int].0));
            lemma_entries_bounded(s, tree@);
        }
        match validate_in(pager, roots[i]) {
            Ok(_) => {},
            Err(e) => {
                proof {
                    if planted(s, roots@) {
                        lemma_planted_pages(s, roots@);
                        assert(check(trees_at(s, roots@)[i as int], None, None, None) is Sound);
                    }
                }
                return Err(e);
            },
        }
        proof {
            let more = trees.push(tree@);
            lemma_prefix_pages(trees, more, i as nat);
            assert(kids_count(more, (i + 1) as nat) == kids_count(more, i as nat) + node_count(
                tree@,
            ));
            assert(kids_pages(more, (i + 1) as nat) == kids_pages(more, i as nat) + page_list(
                tree@,
            ));
            trees = more;
        }
        i = i + 1;
    }
    proof {
        assert forall|j: int| 0 <= j < trees.len() implies trees[j] == #[trigger] trees_at(
            s,
            roots@,
        )[j] by {
            assert(rooted(s, roots@[j].0, trees[j]));
            assert(rooted(s, roots@[j].0, tree_at(s, roots@[j].0)));
            tree_is_unique(s, trees[j], tree_at(s, roots@[j].0));
        }
        assert(trees =~= trees_at(s, roots@));
        if planted(s, roots@) {
            lemma_planted_pages(s, roots@);
        }
    }
    let mut i: usize = 0;
    while i < pages.len()
        invariant
            i <= pages@.len(),
            spare(s) == free@,
            trees == trees_at(s, roots@),
            pages@ == kids_pages(trees, trees.len()),
            planted(s, roots@) ==> pages@.no_duplicates() && forall|j: int|
                0 <= j < pages@.len() ==> !spare(s).contains(#[trigger] pages@[j]),
            pager.wf(),
            pager.state() == s,
            old(pager).fault_free() ==> pager.fault_free(),
            old(pager).state().free_list() is Done,
            s == old(pager).state().with_free(
                old(pager).state().free_list()->Done_0,
                old(pager).state().free_list()->Done_1,
            ),
            forall|j: int| 0 <= j < i ==> !free@.contains(#[trigger] pages@[j]),
            forall|j: int, k: int| 0 <= j < k < i ==> pages@[j] != pages@[k],
            forall|p: u64| #[trigger] seen@.contains(p) <==> free@.contains(p) || exists|j: int|
                0 <= j < i && #[trigger] pages@[j] == p,
        decreases pages@.len() - i,
    {
        let id: u64 = pages[i];
        if seen.contains(&id) {
            proof {
                if planted(s, roots@) {
                    assert(!spare(s).contains(pages@[i as int]));
                    let j = choose|j: int| 0 <= j < i && #[trigger] pages@[j] == id;
                    assert(pages@[j] == pages@[i as int]);
                }
            }
            return Ok(false);
        }
        seen.insert(id);
        i = i + 1;
        assert forall|p: u64| #[trigger] seen@.contains(p) <==> free@.contains(p) || exists|j: int|
            0 <= j < i && #[trigger] pages@[j] == p by {
            if p == id {
                assert(pages@[i - 1] == p);
            }
        }
    }
    proof {
        lemma_pages_apart(trees);
        lemma_kids_pages(trees, trees.len());
        assert forall|j: int| 0 <= j < roots@.len() implies has_btree(
            s,
            (#[trigger] roots@[j]).0,
        ) by {
            assert forall|p: u64| #[trigger] trees[j].owns(p) implies !spare(s).contains(p) by {
                assert(pages@.contains(p));
                let q = pages@.index_of(p);
                assert(!free@.contains(pages@[q]));
            }
            checked_trees_are_btrees(s, roots@[j].0, trees[j]);
        }
    }
    Ok(true)
}

/// Where all trees can be changed, the next of them can be walked within what is left of
/// the budget.
proof fn lemma_next_walkable(s: PagerState, roots: Seq<PageId>, trees: Seq<Tree>, here: usize)
    requires
        changeable(s, roots),
        images_sound(s),
        s.meta.page_count >= FIRST_DATA_PAGE,
        trees.len() < roots.len(),
        forall|j: int| 0 <= j < trees.len() ==> rooted(s, roots[j].0, #[trigger] trees[j]),
        kids_count(trees, trees.len()) + here == s.meta.page_count,
    ensures
        walkable(s, roots[trees.len() as int].0, here),
{
    let all = trees_at(s, roots);
    let n = trees.len();
    lemma_planted_pages(s, roots);
    assert forall|j: int| 0 <= j < n implies trees[j] == all[j] by {
        assert(rooted(s, roots[j].0, trees[j]) && rooted(s, roots[j].0, all[j]));
        tree_is_unique(s, trees[j], all[j]);
    }
    lemma_prefix_pages(trees, all, n);
    lemma_counts_grow(all, n + 1, all.len());
    assert(kids_count(all, n + 1) == kids_count(all, n) + node_count(all[n as int]));
    assert(rooted(s, roots[n as int].0, all[n as int]) && cells_ok(all[n as int]));
}

/// What was found out of many trees holds of some of them.
pub proof fn parts_of_a_grove_are_planted(
    s: PagerState,
    roots: Seq<PageId>,
    some: Seq<PageId>,
    at: Seq<int>,
)
    requires
        planted(s, roots),
        at.no_duplicates(),
        at.len() == some.len(),
        forall|i: int| 0 <= i < some.len() ==> 0 <= #[trigger] at[i] < roots.len() && some[i]
            == roots[at[i]],
    ensures
        planted(s, some),
{
    let all = trees_at(s, roots);
    let trees = trees_at(s, some);
    assert forall|i: int| 0 <= i < some.len() implies has_btree(s, (#[trigger] some[i]).0) by {
        assert(some[i] == roots[at[i]]);
    }
    assert(apart(trees)) by {
        reveal(apart);
        assert forall|i: int, j: int, p: u64|
            0 <= i < trees.len() && 0 <= j < trees.len() && i != j
                && #[trigger] trees[i].owns(p) implies !#[trigger] trees[j].owns(p) by {
            assert(trees[i] == all[at[i]] && trees[j] == all[at[j]]);
            lemma_apart(all, at[i], at[j], p);
        }
    }
}

} // verus!
