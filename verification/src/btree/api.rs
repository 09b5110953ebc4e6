//! The operations of a [`BTree`], and what holds across them.

use vstd::prelude::*;
use crate::common::io::IoBackend;
use crate::pager::state::PagerState;
use crate::pager::{PageId, Pager};
use super::check::{check, check_kids, entry_count, kids_entries, node_count, Audit};
use super::delete::delete_in;
use super::error::{BTreeError, Result};
use super::grow::{forest, lemma_held, lemma_held_kept};
use super::insert::{
    cell_need, edited, has_btree, insert_in, lemma_half_held, lemma_tree_found, lists, need_told,
    pages_inserted, pushed, roomy, stops_at, whole_or_stuck,
};
use super::model::{apart, btree, good, is_tree, kid_hi, kid_lo, rooted, tree_at, Bound, Tree};
use super::node::{Node, MAX_CELL};
use super::store::{evolves, handed, lemma_stored, refused, taken, usable, write_node};
use super::tree::{check_gives, lookup_in, ready, search_gives, validate_in, BTree, Edit, TreeStats};

verus! {

impl<'p, B: IoBackend> BTree<'p, B> {
    /// The pager's state.
    pub open spec fn state(&self) -> PagerState {
        self.pager.state()
    }

    /// The tree at `root`.
    pub open spec fn tree(&self, root: PageId) -> Tree {
        tree_at(self.state(), root.0)
    }

    /// Borrow a pager to operate on.
    pub fn new(pager: &'p mut Pager<B>) -> (r: Self)
        ensures
            *r.pager == *old(pager),
            *final(r.pager) == *final(pager),
    {
        BTree { pager }
    }

    /// Create an empty tree, returning its root page id.
    pub fn create(&mut self) -> (r: Result<PageId>)
        requires
            ready(*old(self).pager),
            usable(old(self).state()),
            roomy(old(self).state(), 1),
        ensures
            final(self).pager.wf(),
            *final(final(self).pager) == *final(old(self).pager),
            old(self).pager.fault_free() ==> final(self).pager.fault_free(),
            usable(final(self).state()),
            evolves(old(self).state(), final(self).state(), 1),
            match r {
                Ok(root) => {
                    &&& has_btree(final(self).state(), root.0)
                    &&& forall|p: u64| #[trigger]
                        taken(old(self).state(), final(self).state(), p) <==> p == root.0
                    &&& final(self).tree(root) is Leaf
                    &&& forall|k: Seq<u8>| #[trigger] final(self).tree(root).get(k) is None
                    &&& old(self).state().free_list() is Done
                },
                Err(e) => refused(old(self).state().free_list(), old(self).pager.fault_free(), e),
            },
    {
        let node = Node::empty_leaf();
        let ghost s = self.pager.state();
        let ghost ff = self.pager.fault_free();
        let r = write_node(&mut *self.pager, &node);
        proof {
            let s2 = self.pager.state();
            lemma_stored(s, ff, node@, r, s2);
            if r is Ok {
                let id = r->Ok_0.0;
                let t = Tree::Leaf { id, keys: Seq::empty(), vals: Seq::empty() };
                assert(t.node() == node@);
                assert(t.subtrees() =~= Seq::empty());
                assert(forest(s, t.subtrees())) by {
                    reveal(apart);
                }
                assert(taken(s, s2, id));
                lemma_half_held(s, s2, 1, t);
                lemma_held(s2, t);
                lemma_tree_found(s2, id, t);
            }
        }
        r
    }

    /// Look up `key`, returning its value if present.
    pub fn lookup(&mut self, root: PageId, key: &[u8]) -> (r: Result<Option<Vec<u8>>>)
        requires
            ready(*old(self).pager),
            is_tree(old(self).state(), root.0),
        ensures
            final(self).pager.wf(),
            *final(final(self).pager) == *final(old(self).pager),
            final(self).state() == old(self).state(),
            old(self).pager.fault_free() ==> final(self).pager.fault_free(),
            search_gives(old(self).tree(root).find(key@), old(self).pager.fault_free(), r),
    {
        lookup_in(&mut *self.pager, root, key)
    }

    /// Insert or replace `key` → `value`, returning the new root and freed pages: the
    /// old root and, below it, one page on each level. A page on the way that does not
    /// read is reported as it is by a lookup, and nothing is changed.
    pub fn insert(&mut self, root: PageId, key: &[u8], value: &[u8]) -> (r: Result<Edit>)
        requires
            ready(*old(self).pager),
            is_tree(old(self).state(), root.0),
            whole_or_stuck(old(self).state(), root.0, key@),
            has_btree(old(self).state(), root.0) ==> usable(old(self).state()) && roomy(
                old(self).state(),
                2 * old(self).tree(root).height() as int + 1,
            ),
        ensures
            final(self).pager.wf(),
            *final(final(self).pager) == *final(old(self).pager),
            old(self).pager.fault_free() ==> final(self).pager.fault_free(),
            has_btree(old(self).state(), root.0) ==> usable(final(self).state()) && evolves(
                old(self).state(),
                final(self).state(),
                2 * old(self).tree(root).height() as int + 1,
            ),
            !has_btree(old(self).state(), root.0) ==> final(self).state() == old(self).state(),
            !has_btree(old(self).state(), root.0) && cell_need(key@, value@) <= MAX_CELL ==> r is Err
                && stops_at(
                old(self).tree(root).find(key@),
                old(self).pager.fault_free(),
                r->Err_0,
            ),
            cell_need(key@, value@) > MAX_CELL ==> final(self).state() == old(self).state() && r
                == Err::<Edit, BTreeError>(
                BTreeError::EntryTooLarge {
                    entry: need_told(key@, value@),
                    max: MAX_CELL,
                },
            ),
            has_btree(old(self).state(), root.0) && cell_need(key@, value@)
                <= MAX_CELL ==> match r {
                Ok(edit) => {
                    &&& edited(old(self).state(), final(self).state(), root.0, edit)
                    &&& forall|k: Seq<u8>| #[trigger]
                        final(self).tree(edit.new_root).get(k) == if k == key@ {
                            Some(value@)
                        } else {
                            old(self).tree(root).get(k)
                        }
                    &&& final(self).tree(edit.new_root).height() == old(self).tree(root).height()
                        + (if pushed(old(self).tree(root), key@, value@) is Some {
                        1int
                    } else {
                        0int
                    })
                    &&& lists(edit.freed@, root.0)
                    &&& edit.freed@.len() == old(self).tree(root).height()
                    &&& handed(old(self).state(), final(self).state()) == pages_inserted(
                        old(self).tree(root),
                        key@,
                        value@,
                    )
                    &&& old(self).state().free_list() is Done
                },
                Err(e) => refused(old(self).state().free_list(), old(self).pager.fault_free(), e),
            },
    {
        insert_in(&mut *self.pager, root, key, value)
    }

    /// Delete `key`, returning the new root and freed pages. Deleting an absent
    /// key is a no-op that returns the same root and frees nothing. A page on the way
    /// that does not read is reported as it is by a lookup, and nothing is changed.
    pub fn delete(&mut self, root: PageId, key: &[u8]) -> (r: Result<Edit>)
        requires
            ready(*old(self).pager),
            is_tree(old(self).state(), root.0),
            whole_or_stuck(old(self).state(), root.0, key@),
            has_btree(old(self).state(), root.0) ==> usable(old(self).state()) && roomy(
                old(self).state(),
                4 * old(self).tree(root).height() as int + 1,
            ),
        ensures
            final(self).pager.wf(),
            *final(final(self).pager) == *final(old(self).pager),
            old(self).pager.fault_free() ==> final(self).pager.fault_free(),
            has_btree(old(self).state(), root.0) ==> usable(final(self).state()) && evolves(
                old(self).state(),
                final(self).state(),
                4 * old(self).tree(root).height() as int + 1,
            ),
            !has_btree(old(self).state(), root.0) ==> final(self).state() == old(self).state() && r
                is Err && stops_at(
                old(self).tree(root).find(key@),
                old(self).pager.fault_free(),
                r->Err_0,
            ),
            has_btree(old(self).state(), root.0) ==> match r {
                Ok(edit) => {
                    &&& edited(old(self).state(), final(self).state(), root.0, edit)
                    &&& forall|k: Seq<u8>| #[trigger]
                        final(self).tree(edit.new_root).get(k) == if k == key@ {
                            None
                        } else {
                            old(self).tree(root).get(k)
                        }
                    &&& final(self).tree(edit.new_root).height() <= old(self).tree(root).height()
                        + 1
                    &&& old(self).tree(root).get(key@) is None ==> {
                        &&& final(self).state() == old(self).state()
                        &&& edit.new_root == root
                        &&& edit.freed@.len() == 0
                    }
                    &&& old(self).tree(root).get(key@) is Some ==> {
                        &&& old(self).state().free_list() is Done
                        &&& lists(edit.freed@, root.0)
                    }
                },
                Err(e) => refused(old(self).state().free_list(), old(self).pager.fault_free(), e),
            },
    {
        delete_in(&mut *self.pager, root, key)
    }

    /// Walk the whole tree at `root` and prove its structural invariants:
    /// balanced depth, ordered keys consistent with separators, and non-empty
    /// non-root nodes.
    pub fn validate(&mut self, root: PageId) -> (r: Result<TreeStats>)
        requires
            ready(*old(self).pager),
            is_tree(old(self).state(), root.0),
            node_count(old(self).tree(root)) <= usize::MAX,
            entry_count(old(self).tree(root)) <= u64::MAX,
        ensures
            final(self).pager.wf(),
            *final(final(self).pager) == *final(old(self).pager),
            final(self).state() == old(self).state(),
            old(self).pager.fault_free() ==> final(self).pager.fault_free(),
            check_gives(
                check(old(self).tree(root), None, None, None),
                node_count(old(self).tree(root)),
                old(self).pager.fault_free(),
                r,
            ),
    {
        validate_in(&mut *self.pager, root)
    }
}

/// A captured root is a stable snapshot: whatever a mutation allocates and
/// writes, the tree at an earlier root stays the same.
pub proof fn snapshots_are_stable(s: PagerState, s2: PagerState, n: int, root: u64)
    requires
        has_btree(s, root),
        usable(s),
        evolves(s, s2, n),
    ensures
        has_btree(s2, root),
        tree_at(s2, root) == tree_at(s, root),
{
    let t = tree_at(s, root);
    assert(rooted(s, root, t));
    lemma_held_kept(s, s2, n, t);
    lemma_tree_found(s2, root, t);
}

/// Every B+tree, and so every tree that the mutations make, passes its check,
/// with its height and its number of entries.
pub proof fn btrees_pass_their_check(t: Tree)
    requires
        btree(t),
    ensures
        check(t, None, None, None) == (Audit::Sound { depth: t.height(), entries: entry_count(t) }),
{
    lemma_good_checks(t, t.height(), None, None, None);
}

proof fn lemma_good_checks(t: Tree, h: nat, lo: Bound, hi: Bound, parent: Option<u64>)
    requires
        good(t, h, lo, hi),
        t.keys().len() >= 1 || (parent is None && t is Leaf),
    ensures
        check(t, lo, hi, parent) == (Audit::Sound { depth: h, entries: entry_count(t) }),
    decreases t, 1int, 0nat,
{
    if let Tree::Inner { keys, kids, .. } = t {
        lemma_good_kids_check(t, h, lo, hi, 0, None);
    }
}

proof fn lemma_good_kids_check(t: Tree, h: nat, lo: Bound, hi: Bound, i: nat, depth: Option<nat>)
    requires
        t is Inner,
        good(t, h, lo, hi),
        i <= t.subtrees().len(),
        depth == (if i == 0 {
            None::<nat>
        } else {
            Some((h - 1) as nat)
        }),
    ensures
        check_kids(
            t.id(),
            t.subtrees(),
            t.keys(),
            lo,
            hi,
            i,
            depth,
            kids_entries(t.subtrees(), i),
        ) == (Audit::Sound { depth: h, entries: entry_count(t) }),
    decreases t, 0int, t.subtrees().len() - i,
{
    let kids = t.subtrees();
    let keys = t.keys();
    if i < kids.len() {
        assert(good(kids[i as int], (h - 1) as nat, kid_lo(lo, keys, i as int), kid_hi(keys, hi, i as int)));
        lemma_good_checks(
            kids[i as int],
            (h - 1) as nat,
            kid_lo(lo, keys, i as int),
            kid_hi(keys, hi, i as int),
            Some(t.id()),
        );
        lemma_good_kids_check(t, h, lo, hi, i + 1, Some((h - 1) as nat));
        assert(kids_entries(kids, i + 1) == kids_entries(kids, i) + entry_count(kids[i as int]));
    }
}

} // verus!
