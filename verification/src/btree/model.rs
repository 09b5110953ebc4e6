//! The mathematical model of a tree in a page store: what reading a page as a
//! node gives, the tree a root spans, what it maps keys to, and what makes it a
//! well-formed B+tree.

use vstd::prelude::*;
use crate::order::{ascending, before, lemma_upper_bound, lemma_upper_bound_unique, upper_bound};
use crate::pager::state::{backed, page_bytes, PagerState};
use crate::pager::page::{page_flaw, sound};
use crate::pager::{PageId, PagerError, FIRST_DATA_PAGE, PAGE_SIZE};
use super::error::{BTreeError, Corruption};
use super::node::{
    decoded, decoded_nodes_are_well_formed, encodable, leaf_value, NodeV, CAP, MAX_CELL,
};

verus! {

/// What reading a page as a node gives.
pub enum NodeRead {
    /// The node it holds.
    Node(NodeV),
    /// Why it holds none.
    Fault(BTreeError),
    /// The page lies beyond the end of the store: an I/O error.
    Unbacked,
}

/// The node that a page image holds.
pub open spec fn image_node(image: Seq<u8>, id: u64) -> NodeRead {
    match decoded(image.subrange(16, PAGE_SIZE as int), id) {
        Ok(n) => NodeRead::Node(n),
        Err(c) => NodeRead::Fault(BTreeError::Corruption(c)),
    }
}

/// What reading page `id` as a node gives in state `s`.
pub open spec fn node_read(s: PagerState, id: u64) -> NodeRead {
    if !s.in_range(id) {
        NodeRead::Fault(
            BTreeError::Pager(PagerError::PageOutOfRange { id, page_count: s.meta.page_count }),
        )
    } else if s.staged.contains_key(id) {
        image_node(s.staged[id], id)
    } else if !backed(s.disk, id as int) {
        NodeRead::Unbacked
    } else {
        match page_flaw(page_bytes(s.disk, id as int), id) {
            Some(kind) => NodeRead::Fault(BTreeError::Pager(PagerError::Corruption(kind))),
            None => image_node(page_bytes(s.disk, id as int), id),
        }
    }
}

/// A tree of nodes, with the pages they lie on.
pub enum Tree {
    /// A leaf.
    Leaf { id: u64, keys: Seq<Seq<u8>>, vals: Seq<Seq<u8>> },
    /// An internal node over its subtrees.
    Inner { id: u64, keys: Seq<Seq<u8>>, kids: Seq<Tree> },
    /// A page that does not read as a node.
    Bad { id: u64, why: NodeRead },
}

/// Whether no page belongs to two of `kids`.
#[verifier::opaque]
pub open spec fn apart(kids: Seq<Tree>) -> bool {
    forall|i: int, j: int, p: u64|
        0 <= i < kids.len() && 0 <= j < kids.len() && i != j && #[trigger] kids[i].owns(p)
            ==> !#[trigger] kids[j].owns(p)
}

pub proof fn lemma_apart(kids: Seq<Tree>, i: int, j: int, p: u64)
    requires
        apart(kids),
        0 <= i < kids.len(),
        0 <= j < kids.len(),
        i != j,
        kids[i].owns(p),
    ensures
        !kids[j].owns(p),
{
    reveal(apart);
}

/// The root pages of `kids`.
pub open spec fn kid_ids(kids: Seq<Tree>) -> Seq<PageId> {
    Seq::new(kids.len(), |i: int| PageId(kids[i].id()))
}

impl Tree {
    /// The root page.
    pub open spec fn id(self) -> u64 {
        match self {
            Tree::Leaf { id, .. } => id,
            Tree::Inner { id, .. } => id,
            Tree::Bad { id, .. } => id,
        }
    }

    /// The root node.
    pub open spec fn node(self) -> NodeV {
        match self {
            Tree::Leaf { keys, vals, .. } => NodeV::Leaf { keys, vals },
            Tree::Inner { keys, kids, .. } => NodeV::Internal { keys, children: kid_ids(kids) },
            Tree::Bad { .. } => NodeV::Leaf { keys: Seq::empty(), vals: Seq::empty() },
        }
    }

    /// The keys or separators of the root node.
    pub open spec fn keys(self) -> Seq<Seq<u8>> {
        self.node().keys()
    }

    /// The subtrees.
    pub open spec fn subtrees(self) -> Seq<Tree> {
        match self {
            Tree::Inner { kids, .. } => kids,
            _ => Seq::empty(),
        }
    }

    /// Whether page `p` is one of the tree's.
    pub open spec fn owns(self, p: u64) -> bool
        decreases self,
    {
        p == self.id() || match self {
            Tree::Inner { kids, .. } => exists|i: int|
                0 <= i < kids.len() && (#[trigger] kids[i]).owns(p),
            _ => false,
        }
    }

    /// Whether no page occurs twice.
    pub open spec fn distinct(self) -> bool
        decreases self,
    {
        match self {
            Tree::Inner { id, kids, .. } => {
                &&& forall|i: int| 0 <= i < kids.len() ==> (#[trigger] kids[i]).distinct()
                &&& forall|i: int| 0 <= i < kids.len() ==> !(#[trigger] kids[i]).owns(id)
                &&& apart(kids)
            },
            _ => true,
        }
    }

    /// What a search for `key` comes to.
    pub open spec fn find(self, key: Seq<u8>) -> Found
        decreases self,
    {
        match self {
            Tree::Leaf { .. } => Found::Value(leaf_value(self.node(), key)),
            Tree::Inner { keys, kids, .. } => {
                let i = upper_bound(keys, key);
                if 0 <= i < kids.len() {
                    kids[i].find(key)
                } else {
                    Found::Value(None)
                }
            },
            Tree::Bad { why, .. } => Found::Stuck(why),
        }
    }

    /// What the tree maps `key` to.
    pub open spec fn get(self, key: Seq<u8>) -> Option<Seq<u8>> {
        match self.find(key) {
            Found::Value(v) => v,
            Found::Stuck(_) => None,
        }
    }

    /// How many levels there are.
    pub open spec fn height(self) -> nat
        decreases self,
    {
        match self {
            Tree::Inner { kids, .. } => if kids.len() > 0 {
                1 + kids[0].height()
            } else {
                1
            },
            _ => 1,
        }
    }
}

/// What a search comes to: a value or none, or a page that does not read.
pub enum Found {
    /// The value, if the key is there.
    Value(Option<Seq<u8>>),
    /// The page that stopped the search, by what reading it gives.
    Stuck(NodeRead),
}

/// Whether the pages of `s` hold the tree `t`.
pub open spec fn embeds(s: PagerState, t: Tree) -> bool
    decreases t,
{
    match t {
        Tree::Leaf { id, .. } => node_read(s, id) == NodeRead::Node(t.node()),
        Tree::Inner { id, kids, .. } => {
            &&& node_read(s, id) == NodeRead::Node(t.node())
            &&& forall|i: int| 0 <= i < kids.len() ==> embeds(s, #[trigger] kids[i])
        },
        Tree::Bad { id, why } => node_read(s, id) == why && !(why is Node),
    }
}

/// Whether `root` is the root page of the tree `t` in `s`.
pub open spec fn rooted(s: PagerState, root: u64, t: Tree) -> bool {
    t.id() == root && embeds(s, t)
}

/// Whether following children from `root` comes to an end everywhere: the pages
/// below it form a tree, and no cycle.
pub open spec fn is_tree(s: PagerState, root: u64) -> bool {
    exists|t: Tree| #[trigger] rooted(s, root, t)
}

/// The tree that `root` spans.
pub open spec fn tree_at(s: PagerState, root: u64) -> Tree {
    choose|t: Tree| #[trigger] rooted(s, root, t)
}

/// A root spans one tree only.
pub proof fn tree_is_unique(s: PagerState, a: Tree, b: Tree)
    requires
        embeds(s, a),
        embeds(s, b),
        a.id() == b.id(),
    ensures
        a == b,
    decreases a,
{
    if let Tree::Inner { kids: ka, keys, id } = a {
        if let Tree::Inner { kids: kb, .. } = b {
            let na = a.node();
            let nb = b.node();
            assert(kid_ids(ka) == kid_ids(kb));
            assert(ka.len() == kid_ids(ka).len());
            assert(kb.len() == kid_ids(kb).len());
            assert forall|i: int| 0 <= i < ka.len() implies ka[i] == kb[i] by {
                assert(kid_ids(ka)[i] == kid_ids(kb)[i]);
                tree_is_unique(s, ka[i], kb[i]);
            }
            assert(ka =~= kb);
        }
    }
}

// Well-formed trees.

/// An optional bound on keys: `None` bounds nothing.
pub type Bound = Option<Seq<u8>>;

/// Whether `k` is at or above the lower bound.
pub open spec fn above(lo: Bound, k: Seq<u8>) -> bool {
    match lo {
        Some(b) => !before(k, b),
        None => true,
    }
}

/// Whether `k` is below the upper bound.
pub open spec fn below(k: Seq<u8>, hi: Bound) -> bool {
    match hi {
        Some(b) => before(k, b),
        None => true,
    }
}

/// Whether `k` lies within `[lo, hi)`.
pub open spec fn within(lo: Bound, k: Seq<u8>, hi: Bound) -> bool {
    above(lo, k) && below(k, hi)
}

/// Whether all of `keys` lie within `[lo, hi)`.
pub open spec fn all_within(lo: Bound, keys: Seq<Seq<u8>>, hi: Bound) -> bool {
    forall|i: int| 0 <= i < keys.len() ==> within(lo, #[trigger] keys[i], hi)
}

/// The lower bound of subtree `i`.
pub open spec fn kid_lo(lo: Bound, keys: Seq<Seq<u8>>, i: int) -> Bound {
    if i == 0 {
        lo
    } else {
        Some(keys[i - 1])
    }
}

/// The upper bound of subtree `i`.
pub open spec fn kid_hi(keys: Seq<Seq<u8>>, hi: Bound, i: int) -> Bound {
    if i == keys.len() {
        hi
    } else {
        Some(keys[i])
    }
}

/// Whether an entry fits a leaf, and its key could be a separator.
pub open spec fn entry_fits(key: Seq<u8>, val: Seq<u8>) -> bool {
    4 + key.len() + val.len() <= MAX_CELL && key_fits(key)
}

/// Whether a key can be a separator.
pub open spec fn key_fits(key: Seq<u8>) -> bool {
    10 + key.len() <= MAX_CELL
}

/// Whether all cells of a node are within the limit.
pub open spec fn cells_fit(n: NodeV) -> bool {
    match n {
        NodeV::Leaf { keys, vals } => forall|i: int|
            0 <= i < keys.len() ==> entry_fits(#[trigger] keys[i], vals[i]),
        NodeV::Internal { keys, .. } => forall|i: int|
            0 <= i < keys.len() ==> key_fits(#[trigger] keys[i]),
    }
}

/// Whether `t` is a B+tree of `h` levels with its keys in `[lo, hi)`: leaves all
/// at one depth, keys ascending and parted by the separators, cells within the
/// limit, and no node below the root empty.
pub open spec fn good(t: Tree, h: nat, lo: Bound, hi: Bound) -> bool
    decreases t,
{
    match t {
        Tree::Leaf { keys, vals, .. } => {
            &&& h == 1
            &&& vals.len() == keys.len()
            &&& ascending(keys)
            &&& all_within(lo, keys, hi)
            &&& cells_fit(t.node())
        },
        Tree::Inner { keys, kids, .. } => {
            &&& h > 1
            &&& kids.len() == keys.len() + 1
            &&& ascending(keys)
            &&& all_within(lo, keys, hi)
            &&& cells_fit(t.node())
            &&& forall|i: int|
                0 <= i < kids.len() ==> good(
                    #[trigger] kids[i],
                    (h - 1) as nat,
                    kid_lo(lo, keys, i),
                    kid_hi(keys, hi, i),
                ) && kids[i].keys().len() >= 1
        },
        Tree::Bad { .. } => false,
    }
}

/// Whether `t` is a whole B+tree: one whose root, if internal, has a separator,
/// and whose pages are all different.
pub open spec fn btree(t: Tree) -> bool {
    &&& good(t, t.height(), None, None)
    &&& t is Inner ==> t.keys().len() >= 1
    &&& t.distinct()
}

/// A B+tree's levels are what its height says.
pub proof fn lemma_good_height(t: Tree, h: nat, lo: Bound, hi: Bound)
    requires
        good(t, h, lo, hi),
    ensures
        h == t.height(),
        h >= 1,
    decreases t,
{
    if let Tree::Inner { keys, kids, .. } = t {
        lemma_good_height(kids[0], (h - 1) as nat, kid_lo(lo, keys, 0), kid_hi(keys, hi, 0));
    }
}

/// The search for a key in bounds goes to a subtree whose bounds hold it.
pub proof fn lemma_route_within(keys: Seq<Seq<u8>>, lo: Bound, hi: Bound, k: Seq<u8>)
    requires
        ascending(keys),
        within(lo, k, hi),
    ensures
        ({
            let i = upper_bound(keys, k);
            &&& 0 <= i <= keys.len()
            &&& within(kid_lo(lo, keys, i), k, kid_hi(keys, hi, i))
        }),
{
    lemma_upper_bound(keys, k);
}

/// The other way round: the subtree whose bounds hold a key is the one that the
/// search goes to.
pub proof fn lemma_within_route(keys: Seq<Seq<u8>>, lo: Bound, hi: Bound, k: Seq<u8>, i: int)
    requires
        ascending(keys),
        0 <= i <= keys.len(),
        within(kid_lo(lo, keys, i), k, kid_hi(keys, hi, i)),
    ensures
        upper_bound(keys, k) == i,
{
    lemma_upper_bound_unique(keys, k, i);
}

/// In a B+tree every search comes to a leaf, and finds only keys in bounds.
pub proof fn lemma_good_find(t: Tree, h: nat, lo: Bound, hi: Bound, k: Seq<u8>)
    requires
        good(t, h, lo, hi),
        within(lo, k, hi),
    ensures
        t.find(k) == Found::Value(t.get(k)),
    decreases t,
{
    if let Tree::Inner { keys, kids, .. } = t {
        lemma_route_within(keys, lo, hi, k);
        let i = upper_bound(keys, k);
        lemma_good_find(
            kids[i],
            (h - 1) as nat,
            kid_lo(lo, keys, i),
            kid_hi(keys, hi, i),
            k,
        );
    }
}

/// The pages of a tree that is embedded are data pages in range.
pub proof fn lemma_owned_in_range(s: PagerState, t: Tree, h: nat, lo: Bound, hi: Bound, p: u64)
    requires
        embeds(s, t),
        good(t, h, lo, hi),
        t.owns(p),
    ensures
        s.in_range(p),
        node_read(s, p) is Node,
    decreases t,
{
    if let Tree::Inner { keys, kids, .. } = t {
        if p != t.id() {
            let i = choose|i: int| 0 <= i < kids.len() && (#[trigger] kids[i]).owns(p);
            lemma_owned_in_range(
                s,
                kids[i],
                (h - 1) as nat,
                kid_lo(lo, keys, i),
                kid_hi(keys, hi, i),
                p,
            );
        }
    }
}

/// A tree stays embedded where its pages read the same.
pub proof fn lemma_embeds_frame(s: PagerState, s2: PagerState, t: Tree)
    requires
        embeds(s, t),
        forall|p: u64| #[trigger] t.owns(p) ==> node_read(s2, p) == node_read(s, p),
    ensures
        embeds(s2, t),
    decreases t,
{
    assert(t.owns(t.id()));
    if let Tree::Inner { kids, .. } = t {
        assert forall|i: int| 0 <= i < kids.len() implies embeds(s2, #[trigger] kids[i]) by {
            assert forall|p: u64| #[trigger] kids[i].owns(p) implies node_read(s2, p) == node_read(
                s,
                p,
            ) by {
                assert(t.owns(p));
            }
            lemma_embeds_frame(s, s2, kids[i]);
        }
    }
}

/// The nodes of an embedded tree are decoded nodes.
pub proof fn lemma_read_node_ok(s: PagerState, id: u64)
    requires
        node_read(s, id) is Node,
        forall|k: u64| #[trigger]
            s.staged.contains_key(k) && k >= FIRST_DATA_PAGE ==> sound(s.staged[k], k),
    ensures
        encodable(node_read(s, id)->Node_0),
        ascending(node_read(s, id)->Node_0.keys()),
        node_read(s, id)->Node_0.size() <= CAP,
{
    let image = if s.staged.contains_key(id) {
        s.staged[id]
    } else {
        page_bytes(s.disk, id as int)
    };
    decoded_nodes_are_well_formed(image.subrange(16, PAGE_SIZE as int), id);
}

} // verus!
