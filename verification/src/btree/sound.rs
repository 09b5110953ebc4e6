//! What passing the check means: a tree that passes it, its cells being within the limit,
//! is a B+tree.

use vstd::prelude::*;
use crate::order::{ascending, before, before_transitive, not_before_transitive};
use crate::pager::page::sound;
use crate::pager::state::PagerState;
use crate::pager::FIRST_DATA_PAGE;
use super::api::btrees_pass_their_check;
use super::check::{check, check_kids, lemma_check_counts};
use super::grow::held;
use super::insert::has_btree;
use super::model::{
    all_within, apart, btree, cells_fit, embeds, good, kid_hi, kid_lo, lemma_good_find,
    lemma_good_height, lemma_owned_in_range, lemma_read_node_ok, rooted, tree_at, tree_is_unique,
    within, Bound, Found, Tree,
};
use super::store::spare;

verus! {

/// Whether all pages of a tree read, and all cells on them are within the limit.
pub open spec fn cells_ok(t: Tree) -> bool
    decreases t,
{
    match t {
        Tree::Leaf { .. } => cells_fit(t.node()),
        Tree::Inner { kids, .. } => {
            &&& cells_fit(t.node())
            &&& forall|i: int| 0 <= i < kids.len() ==> cells_ok(#[trigger] kids[i])
        },
        Tree::Bad { .. } => false,
    }
}

/// Whether the staged data pages are whole page images.
pub open spec fn images_sound(s: PagerState) -> bool {
    forall|k: u64| #[trigger]
        s.staged.contains_key(k) && k >= FIRST_DATA_PAGE ==> sound(s.staged[k], k)
}

/// Where the subtrees of a page pass their check, each of them does, and all are of one
/// height.
proof fn lemma_kids_sound(
    id: u64,
    kids: Seq<Tree>,
    keys: Seq<Seq<u8>>,
    lo: Bound,
    hi: Bound,
    i: nat,
    depth: Option<nat>,
    entries: nat,
)
    requires
        i <= kids.len(),
        check_kids(id, kids, keys, lo, hi, i, depth, entries) is Sound,
        depth == (if i == 0 {
            None::<nat>
        } else {
            Some(kids[0].height())
        }),
    ensures
        forall|j: int|
            i <= j < kids.len() ==> check(
                #[trigger] kids[j],
                kid_lo(lo, keys, j),
                kid_hi(keys, hi, j),
                Some(id),
            ) is Sound && kids[j].height() == kids[0].height(),
    decreases kids.len() - i,
{
    if i < kids.len() {
        let kid = kids[i as int];
        let (klo, khi) = (kid_lo(lo, keys, i as int), kid_hi(keys, hi, i as int));
        lemma_check_counts(kid, klo, khi, Some(id));
        let c = check(kid, klo, khi, Some(id));
        lemma_kids_sound(
            id,
            kids,
            keys,
            lo,
            hi,
            i + 1,
            Some(c->depth),
            entries + c->entries,
        );
    }
}

proof fn lemma_height_positive(t: Tree)
    ensures
        t.height() >= 1,
{
}

proof fn lemma_sound_is_good(s: PagerState, t: Tree, lo: Bound, hi: Bound, parent: Option<u64>)
    requires
        embeds(s, t),
        images_sound(s),
        check(t, lo, hi, parent) is Sound,
        cells_ok(t),
    ensures
        good(t, t.height(), lo, hi),
        parent is Some || t is Inner ==> t.keys().len() >= 1,
    decreases t,
{
    lemma_read_node_ok(s, t.id());
    assert(ascending(t.keys()));
    if let Tree::Inner { id, keys, kids } = t {
        lemma_kids_sound(id, kids, keys, lo, hi, 0, None, 0);
        lemma_height_positive(kids[0]);
        assert forall|i: int| 0 <= i < kids.len() implies good(
            #[trigger] kids[i],
            (t.height() - 1) as nat,
            kid_lo(lo, keys, i),
            kid_hi(keys, hi, i),
        ) && kids[i].keys().len() >= 1 by {
            assert(cells_ok(kids[i]));
            lemma_sound_is_good(s, kids[i], kid_lo(lo, keys, i), kid_hi(keys, hi, i), Some(id));
        }
    }
}

/// What lies within the bounds of a subtree lies within those of the tree.
proof fn lemma_kid_bounds(keys: Seq<Seq<u8>>, lo: Bound, hi: Bound, i: int, k: Seq<u8>)
    requires
        all_within(lo, keys, hi),
        0 <= i <= keys.len(),
        within(kid_lo(lo, keys, i), k, kid_hi(keys, hi, i)),
    ensures
        within(lo, k, hi),
{
    if i > 0 {
        assert(within(lo, keys[i - 1], hi));
        if let Some(b) = lo {
            not_before_transitive(k, keys[i - 1], b);
        }
    }
    if i < keys.len() {
        assert(within(lo, keys[i], hi));
        if let Some(b) = hi {
            before_transitive(k, keys[i], b);
        }
    }
}

/// The part of a tree whose root is the page `p`.
proof fn lemma_part_at(s: PagerState, t: Tree, h: nat, lo: Bound, hi: Bound, p: u64) -> (u: Tree)
    requires
        embeds(s, t),
        good(t, h, lo, hi),
        t.owns(p),
    ensures
        embeds(s, u),
        u.id() == p,
        u == t || (u.height() < h && u.keys().len() >= 1),
        all_within(lo, u.keys(), hi),
    decreases t,
{
    lemma_good_height(t, h, lo, hi);
    if p == t.id() {
        t
    } else {
        let kids = t.subtrees();
        let keys = t.keys();
        let i = choose|i: int| 0 <= i < kids.len() && (#[trigger] kids[i]).owns(p);
        let (klo, khi) = (kid_lo(lo, keys, i), kid_hi(keys, hi, i));
        assert(good(kids[i], (h - 1) as nat, klo, khi));
        lemma_good_height(kids[i], (h - 1) as nat, klo, khi);
        let u = lemma_part_at(s, kids[i], (h - 1) as nat, klo, khi, p);
        assert forall|j: int| 0 <= j < u.keys().len() implies within(
            lo,
            #[trigger] u.keys()[j],
            hi,
        ) by {
            lemma_kid_bounds(keys, lo, hi, i, u.keys()[j]);
        }
        u
    }
}

/// No page is in two subtrees: what is on it would have to lie on both sides of a
/// separator.
proof fn lemma_parts_differ(s: PagerState, t: Tree, h: nat, lo: Bound, hi: Bound, i: int, j: int, p: u64)
    requires
        embeds(s, t),
        good(t, h, lo, hi),
        t is Inner,
        0 <= i < j < t.subtrees().len(),
        t.subtrees()[i].owns(p),
    ensures
        !t.subtrees()[j].owns(p),
{
    let kids = t.subtrees();
    let keys = t.keys();
    let n = (h - 1) as nat;
    if kids[j].owns(p) {
        assert(good(kids[i], n, kid_lo(lo, keys, i), kid_hi(keys, hi, i)));
        assert(good(kids[j], n, kid_lo(lo, keys, j), kid_hi(keys, hi, j)));
        let a = lemma_part_at(s, kids[i], n, kid_lo(lo, keys, i), kid_hi(keys, hi, i), p);
        let b = lemma_part_at(s, kids[j], n, kid_lo(lo, keys, j), kid_hi(keys, hi, j), p);
        tree_is_unique(s, a, b);
        let k = a.keys()[0];
        assert(within(kid_lo(lo, keys, i), a.keys()[0], kid_hi(keys, hi, i)));
        assert(within(kid_lo(lo, keys, j), b.keys()[0], kid_hi(keys, hi, j)));
        if i < j - 1 {
            assert(before(keys[i], keys[j - 1]));
            before_transitive(k, keys[i], keys[j - 1]);
        }
    }
}

proof fn lemma_good_is_distinct(s: PagerState, t: Tree, h: nat, lo: Bound, hi: Bound)
    requires
        embeds(s, t),
        good(t, h, lo, hi),
    ensures
        t.distinct(),
    decreases t,
{
    if let Tree::Inner { id, keys, kids } = t {
        lemma_good_height(t, h, lo, hi);
        assert forall|i: int| 0 <= i < kids.len() implies (#[trigger] kids[i]).distinct()
            && !kids[i].owns(id) by {
            let (klo, khi) = (kid_lo(lo, keys, i), kid_hi(keys, hi, i));
            assert(good(kids[i], (h - 1) as nat, klo, khi));
            lemma_good_is_distinct(s, kids[i], (h - 1) as nat, klo, khi);
            if kids[i].owns(id) {
                lemma_good_height(kids[i], (h - 1) as nat, klo, khi);
                let u = lemma_part_at(s, kids[i], (h - 1) as nat, klo, khi, id);
                tree_is_unique(s, u, t);
            }
        }
        assert(apart(kids)) by {
            reveal(apart);
            assert forall|i: int, j: int, p: u64|
                0 <= i < kids.len() && 0 <= j < kids.len() && i != j
                    && #[trigger] kids[i].owns(p) implies !#[trigger] kids[j].owns(p) by {
                if i < j {
                    lemma_parts_differ(s, t, h, lo, hi, i, j, p);
                } else if kids[j].owns(p) {
                    lemma_parts_differ(s, t, h, lo, hi, j, i, p);
                }
            }
        }
    }
}

/// A tree in a page store is a B+tree exactly where it passes its check and its cells are
/// within the limit; that its pages are all different follows. Where none of them is free,
/// it can be changed.
pub proof fn checked_trees_are_btrees(s: PagerState, root: u64, t: Tree)
    requires
        rooted(s, root, t),
        images_sound(s),
    ensures
        btree(t) <==> check(t, None, None, None) is Sound && cells_ok(t),
        btree(t) && (forall|p: u64| #[trigger] t.owns(p) ==> !spare(s).contains(p)) ==> has_btree(
            s,
            root,
        ),
{
    if check(t, None, None, None) is Sound && cells_ok(t) {
        lemma_sound_is_good(s, t, None, None, None);
        lemma_good_is_distinct(s, t, t.height(), None, None);
    }
    if btree(t) {
        btrees_pass_their_check(t);
        lemma_good_cells(t, t.height(), None, None);
        if forall|p: u64| #[trigger] t.owns(p) ==> !spare(s).contains(p) {
            assert forall|p: u64| #[trigger] t.owns(p) implies s.in_range(p) by {
                lemma_owned_in_range(s, t, t.height(), None, None, p);
            }
            assert(held(s, t)) by {
                reveal(held);
            }
            assert(rooted(s, root, tree_at(s, root)));
            tree_is_unique(s, t, tree_at(s, root));
        }
    }
}

proof fn lemma_good_cells(t: Tree, h: nat, lo: Bound, hi: Bound)
    requires
        good(t, h, lo, hi),
    ensures
        cells_ok(t),
    decreases t,
{
    if let Tree::Inner { keys, kids, .. } = t {
        assert forall|i: int| 0 <= i < kids.len() implies cells_ok(#[trigger] kids[i]) by {
            lemma_good_cells(kids[i], (h - 1) as nat, kid_lo(lo, keys, i), kid_hi(keys, hi, i));
        }
    }
}

/// In a B+tree every search comes to an end: none of its pages fails to read.
pub proof fn btrees_answer_every_search(t: Tree, key: Seq<u8>)
    requires
        btree(t),
    ensures
        t.find(key) == Found::Value(t.get(key)),
{
    lemma_good_find(t, t.height(), None, None, key);
}

} // verus!
