//! The copy-on-write B+tree over a [`Pager`].
//!
//! Every mutation descends to the affected leaf, then rebuilds the touched path
//! from the leaf up into freshly allocated pages, returning the new root. The
//! old pages are reported in [`Edit::freed`] but left intact, so any root
//! captured earlier remains a valid, immutable snapshot.

use vstd::prelude::*;
use crate::bytes::to_vec;
use crate::common::io::IoBackend;
use crate::order::{is_before, lemma_upper_bound, strings, upper_bound};
use crate::pager::state::MAX_PAGES;
use crate::pager::{PageId, Pager, PagerError};
use super::check::{
    check, check_kids, entry_count, guard, kids_count, kids_entries, lemma_check_counts,
    lemma_counts_grow, node_count, Audit,
};
use super::error::{BTreeError, Corruption, Result};
use super::model::{
    all_within, embeds, is_tree, kid_hi, kid_ids, kid_lo, lemma_read_node_ok, rooted, tree_at,
    within, Bound, Found, NodeRead, Tree,
};
use super::node::Node;
use super::store::read_node;

verus! {

/// A copy-on-write B+tree rooted at a caller-held page id.
///
/// The tree is a thin set of operations over the pager; it stores no mutable
/// state of its own.
pub struct BTree<'p, B: IoBackend> {
    /// The page store.
    pub pager: &'p mut Pager<B>,
}

/// The result of a mutation: the new root to install, plus the pages the
/// mutation superseded. The B+tree itself never frees a page.
#[derive(Debug, Clone, PartialEq, Eq)]
pub struct Edit {
    /// The root to read from after this mutation.
    pub new_root: PageId,
    /// Pages no longer reachable from `new_root` (old copied-path nodes).
    pub freed: Vec<PageId>,
}

/// A structural summary of a tree, returned by [`BTree::validate`].
#[derive(Debug, Clone, Copy, PartialEq, Eq, Structural)]
pub struct TreeStats {
    /// Number of levels (a single-leaf tree has height 1).
    pub height: usize,
    /// Number of key/value entries (leaf entries).
    pub entries: u64,
    /// Number of pages (nodes) in the tree.
    pub nodes: u64,
}

/// A pager that a tree can be worked on in: well formed, every page
/// addressable.
pub open spec fn ready<B: IoBackend>(pager: Pager<B>) -> bool {
    pager.wf() && pager.state().meta.page_count <= MAX_PAGES
}

/// What a search may come to, `f` being what it finds.
pub open spec fn search_gives(f: Found, fault_free: bool, r: Result<Option<Vec<u8>>>) -> bool {
    match r {
        Ok(Some(v)) => f == Found::Value(Some(v@)),
        Ok(None) => f == Found::Value(None),
        Err(BTreeError::Pager(PagerError::Io(_))) => !fault_free || f == Found::Stuck(
            NodeRead::Unbacked,
        ),
        Err(e) => f == Found::Stuck(NodeRead::Fault(e)),
    }
}

/// Look up `key` in the tree at `root`.
pub fn lookup_in<B: IoBackend>(pager: &mut Pager<B>, root: PageId, key: &[u8]) -> (r: Result<
    Option<Vec<u8>>,
>)
    requires
        ready(*old(pager)),
        is_tree(old(pager).state(), root.0),
    ensures
        final(pager).wf(),
        final(pager).state() == old(pager).state(),
        old(pager).fault_free() ==> final(pager).fault_free(),
        search_gives(tree_at(old(pager).state(), root.0).find(key@), old(pager).fault_free(), r),
{
    let ghost s = pager.state();
    let ghost goal = tree_at(s, root.0).find(key@);
    let ghost mut t = tree_at(s, root.0);
    let mut id = root;
    loop
        invariant
            ready(*pager),
            pager.state() == s,
            s == old(pager).state(),
            old(pager).fault_free() ==> pager.fault_free(),
            rooted(s, id.0, t),
            goal == t.find(key@),
            goal == tree_at(s, root.0).find(key@),
        decreases t,
    {
        let node = match read_node(pager, id) {
            Ok(node) => node,
            Err(e) => {
                return Err(e);
            },
        };
        proof {
            pager.wf_state();
            lemma_read_node_ok(s, id.0);
        }
        match node.route(key) {
            Some(child) => {
                proof {
                    let i = upper_bound(node@.keys(), key@);
                    lemma_upper_bound(node@.keys(), key@);
                    let kids = t.subtrees();
                    assert(kid_ids(kids)[i] == child);
                    t = kids[i];
                }
                id = child;
            },
            None => {
                return match node.leaf_get(key) {
                    Some(v) => Ok(Some(to_vec(v))),
                    None => Ok(None),
                };
            },
        }
    }
}

/// What a check may come to, `a` being what it finds and `nodes` how many nodes
/// there are.
pub open spec fn check_gives(a: Audit, nodes: nat, fault_free: bool, r: Result<TreeStats>) -> bool {
    match r {
        Ok(stats) => a == Audit::Sound {
            depth: stats.height as nat,
            entries: stats.entries as nat,
        } && stats.nodes == nodes,
        Err(BTreeError::Pager(PagerError::Io(_))) => !fault_free || a == Audit::Stuck(
            NodeRead::Unbacked,
        ),
        Err(e) => a == Audit::Stuck(NodeRead::Fault(e)),
    }
}

/// Whether all of `keys` lie within `[lower, upper)`.
fn keys_within(lower: &Option<Vec<u8>>, keys: &Vec<Vec<u8>>, upper: &Option<Vec<u8>>) -> (r: bool)
    ensures
        r == all_within(bound_of(*lower), strings(keys@), bound_of(*upper)),
{
    let ghost ks = strings(keys@);
    let ghost lo = bound_of(*lower);
    let ghost hi = bound_of(*upper);
    let mut i: usize = 0;
    while i < keys.len()
        invariant
            i <= keys@.len(),
            ks == strings(keys@),
            lo == bound_of(*lower),
            hi == bound_of(*upper),
            forall|j: int| 0 <= j < i ==> within(lo, #[trigger] ks[j], hi),
        decreases keys@.len() - i,
    {
        assert(ks[i as int] == keys@[i as int]@);
        let high_enough = match lower {
            Some(lo) => !is_before(keys[i].as_slice(), lo.as_slice()),
            None => true,
        };
        let low_enough = match upper {
            Some(hi) => is_before(keys[i].as_slice(), hi.as_slice()),
            None => true,
        };
        if !(high_enough && low_enough) {
            assert(!within(lo, ks[i as int], hi));
            return false;
        }
        i = i + 1;
    }
    true
}

/// The bound that an optional key stands for.
pub open spec fn bound_of(b: Option<Vec<u8>>) -> Bound {
    match b {
        Some(v) => Some(v@),
        None => None,
    }
}

fn copy_bound(b: &Option<Vec<u8>>) -> (r: Option<Vec<u8>>)
    ensures
        bound_of(r) == bound_of(*b),
{
    match b {
        Some(v) => Some(to_vec(v.as_slice())),
        None => None,
    }
}

fn guard_page(parent: Option<u64>, id: PageId) -> (r: u64)
    ensures
        r == guard(parent, id.0),
{
    match parent {
        Some(page) => page,
        None => id.get(),
    }
}

/// Check the subtree at `id` below page `parent`, adding its nodes to `nodes`. Returns its depth and
/// how many entries it holds.
fn validate_rec<B: IoBackend>(
    pager: &mut Pager<B>,
    id: PageId,
    lower: Option<Vec<u8>>,
    upper: Option<Vec<u8>>,
    parent: Option<u64>,
    nodes: &mut u64,
    Ghost(t): Ghost<Tree>,
) -> (r: Result<(usize, u64)>)
    requires
        ready(*old(pager)),
        rooted(old(pager).state(), id.0, t),
        *old(nodes) + node_count(t) <= u64::MAX,
        node_count(t) <= usize::MAX,
        entry_count(t) <= u64::MAX,
    ensures
        final(pager).wf(),
        final(pager).state() == old(pager).state(),
        old(pager).fault_free() ==> final(pager).fault_free(),
        r is Ok ==> *final(nodes) == *old(nodes) + node_count(t),
        match r {
            Ok((d, e)) => check(t, bound_of(lower), bound_of(upper), parent) == (Audit::Sound {
                depth: d as nat,
                entries: e as nat,
            }),
            Err(BTreeError::Pager(PagerError::Io(_))) => !old(pager).fault_free() || check(
                t,
                bound_of(lower),
                bound_of(upper),
                parent,
            ) == Audit::Stuck(NodeRead::Unbacked),
            Err(e) => check(t, bound_of(lower), bound_of(upper), parent) == Audit::Stuck(
                NodeRead::Fault(e),
            ),
        },
    decreases t,
{
    let ghost s = pager.state();
    let ghost lo = bound_of(lower);
    let ghost hi = bound_of(upper);
    *nodes = *nodes + 1;
    let node = match read_node(pager, id) {
        Ok(node) => node,
        Err(e) => {
            return Err(e);
        },
    };
    proof {
        pager.wf_state();
        lemma_read_node_ok(s, id.0);
    }
    match node {
        Node::Leaf { keys, vals } => {
            if parent.is_some() && keys.len() == 0 {
                return Err(BTreeError::Corruption(Corruption::Underfull { page: id.get() }));
            }
            if keys.len() != vals.len() {
                return Err(BTreeError::Corruption(Corruption::KeysNotSorted { page: id.get() }));
            }
            // Every key must fall inside the bounds inherited from the separators.
            if !keys_within(&lower, &keys, &upper) {
                let page = guard_page(parent, id);
                return Err(BTreeError::Corruption(Corruption::SeparatorMismatch { page }));
            }
            Ok((1, keys.len() as u64))
        },
        Node::Internal { keys, children } => {
            if children.len() < 2 || children.len() != keys.len() + 1 {
                return Err(BTreeError::Corruption(Corruption::EmptyInternal { page: id.get() }));
            }
            if !keys_within(&lower, &keys, &upper) {
                let page = guard_page(parent, id);
                return Err(BTreeError::Corruption(Corruption::SeparatorMismatch { page }));
            }
            let ghost ks = strings(keys@);
            let ghost kids = t.subtrees();
            let ghost goal = check(t, lo, hi, parent);
            let mut entries: u64 = 0;
            let mut child_depth: Option<usize> = None;
            let mut i: usize = 0;
            assert(t is Inner);
            assert(kid_ids(kids) == children@);
            assert(kids.len() == kid_ids(kids).len());
            while i < children.len()
                invariant
                    i <= children@.len(),
                    ready(*pager),
                    pager.state() == s,
                    embeds(s, t),
                    t is Inner,
                    kids == t.subtrees(),
                    ks == strings(keys@),
                    kids.len() == children@.len(),
                    children@.len() == keys@.len() + 1,
                    kid_ids(kids) == children@,
                    goal == check(t, lo, hi, parent),
                    id.0 == t.id(),
                    lo == bound_of(lower),
                    hi == bound_of(upper),
                    old(pager).fault_free() ==> pager.fault_free(),
                    s == old(pager).state(),
                    goal == check_kids(
                        id.0,
                        kids,
                        ks,
                        lo,
                        hi,
                        i as nat,
                        match child_depth {
                            Some(d) => Some(d as nat),
                            None => None,
                        },
                        entries as nat,
                    ),
                    entries == kids_entries(kids, i as nat),
                    entry_count(t) <= u64::MAX,
                    node_count(t) <= usize::MAX,
                    *nodes == *old(nodes) + 1 + kids_count(kids, i as nat),
                    *old(nodes) + node_count(t) <= u64::MAX,
                    child_depth matches Some(d) ==> 1 <= i && d < node_count(t),
                    i > 0 ==> child_depth is Some,
                decreases children@.len() - i,
            {
                let lo_i = if i == 0 {
                    copy_bound(&lower)
                } else {
                    Some(to_vec(keys[i - 1].as_slice()))
                };
                let hi_i = if i == keys.len() {
                    copy_bound(&upper)
                } else {
                    Some(to_vec(keys[i].as_slice()))
                };
                let ghost kid = kids[i as int];
                proof {
                    assert(i > 0 ==> ks[i - 1] == keys@[i - 1]@);
                    assert(i < keys@.len() ==> ks[i as int] == keys@[i as int]@);
                    assert(bound_of(lo_i) == kid_lo(lo, ks, i as int));
                    assert(bound_of(hi_i) == kid_hi(ks, hi, i as int));
                    assert(kid_ids(kids)[i as int] == children@[i as int]);
                    lemma_counts_grow(kids, (i + 1) as nat, kids.len());
                    assert(kids_count(kids, (i + 1) as nat) == kids_count(kids, i as nat)
                        + node_count(kid));
                    assert(kids_entries(kids, (i + 1) as nat) == kids_entries(kids, i as nat)
                        + entry_count(kid));
                }
                let (d, e) = match validate_rec(
                    pager,
                    children[i],
                    lo_i,
                    hi_i,
                    Some(id.get()),
                    nodes,
                    Ghost(kid),
                ) {
                    Ok(v) => v,
                    Err(e) => {
                        return Err(e);
                    },
                };
                proof {
                    lemma_check_counts(
                        kid,
                        kid_lo(lo, ks, i as int),
                        kid_hi(ks, hi, i as int),
                        Some(id.0),
                    );
                }
                entries = entries + e;
                match child_depth {
                    None => {
                        child_depth = Some(d);
                    },
                    Some(prev) => {
                        if prev != d {
                            return Err(BTreeError::Corruption(Corruption::UnevenLeafDepth));
                        }
                    },
                }
                i = i + 1;
            }
            let below_root: usize = match child_depth {
                Some(d) => d,
                None => 0,
            };
            Ok((below_root + 1, entries))
        },
    }
}

/// Walk the whole tree at `root` and prove its structural invariants: balanced
/// depth, ordered keys consistent with separators, and non-empty non-root nodes.
pub fn validate_in<B: IoBackend>(pager: &mut Pager<B>, root: PageId) -> (r: Result<TreeStats>)
    requires
        ready(*old(pager)),
        is_tree(old(pager).state(), root.0),
        node_count(tree_at(old(pager).state(), root.0)) <= usize::MAX,
        entry_count(tree_at(old(pager).state(), root.0)) <= u64::MAX,
    ensures
        final(pager).wf(),
        final(pager).state() == old(pager).state(),
        old(pager).fault_free() ==> final(pager).fault_free(),
        check_gives(
            check(tree_at(old(pager).state(), root.0), None, None, None),
            node_count(tree_at(old(pager).state(), root.0)),
            old(pager).fault_free(),
            r,
        ),
{
    let mut nodes: u64 = 0;
    let ghost t = tree_at(pager.state(), root.0);
    match validate_rec(pager, root, None, None, None, &mut nodes, Ghost(t)) {
        Ok((depth, entries)) => Ok(TreeStats { height: depth, entries, nodes }),
        Err(e) => Err(e),
    }
}

} // verus!
