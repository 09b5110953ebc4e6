//! What a walk over a whole tree finds: its levels, entries and nodes, or the
//! first flaw of its structure.

use vstd::prelude::*;
use super::error::{BTreeError, Corruption};
use super::model::{all_within, kid_hi, kid_lo, Bound, NodeRead, Tree};

verus! {

/// What checking a tree finds.
pub enum Audit {
    /// Its structure is sound.
    Sound { depth: nat, entries: nat },
    /// It is not, or a page of it does not read.
    Stuck(NodeRead),
}

/// A structural flaw.
pub open spec fn flaw(c: Corruption) -> Audit {
    Audit::Stuck(NodeRead::Fault(BTreeError::Corruption(c)))
}

/// The internal page that guards a subtree: its parent, or for the root itself.
pub open spec fn guard(parent: Option<u64>, id: u64) -> u64 {
    match parent {
        Some(page) => page,
        None => id,
    }
}

/// Check the subtree `t` below page `parent`, whose keys must lie within `[lo, hi)`.
/// The root is below no page. Where a key is out of bounds, the separators of the
/// parent are at fault.
pub open spec fn check(t: Tree, lo: Bound, hi: Bound, parent: Option<u64>) -> Audit
    decreases t, 0nat,
{
    match t {
        Tree::Bad { why, .. } => Audit::Stuck(why),
        Tree::Leaf { id, keys, vals } => if parent is Some && keys.len() == 0 {
            flaw(Corruption::Underfull { page: id })
        } else if keys.len() != vals.len() {
            flaw(Corruption::KeysNotSorted { page: id })
        } else if !all_within(lo, keys, hi) {
            flaw(Corruption::SeparatorMismatch { page: guard(parent, id) })
        } else {
            Audit::Sound { depth: 1, entries: keys.len() }
        },
        Tree::Inner { id, keys, kids } => if kids.len() < 2 || kids.len() != keys.len() + 1 {
            flaw(Corruption::EmptyInternal { page: id })
        } else if !all_within(lo, keys, hi) {
            flaw(Corruption::SeparatorMismatch { page: guard(parent, id) })
        } else {
            check_kids(id, kids, keys, lo, hi, 0, None, 0)
        },
    }
}

/// Check the subtrees of page `id` from the `i`-th on; those before were `depth` levels
/// deep and held `entries`.
pub open spec fn check_kids(
    id: u64,
    kids: Seq<Tree>,
    keys: Seq<Seq<u8>>,
    lo: Bound,
    hi: Bound,
    i: nat,
    depth: Option<nat>,
    entries: nat,
) -> Audit
    decreases kids, kids.len() - i,
{
    if i >= kids.len() {
        Audit::Sound {
            depth: 1 + match depth {
                Some(d) => d,
                None => 0,
            },
            entries,
        }
    } else {
        match check(kids[i as int], kid_lo(lo, keys, i as int), kid_hi(keys, hi, i as int), Some(id)) {
            Audit::Stuck(why) => Audit::Stuck(why),
            Audit::Sound { depth: d, entries: e } => match depth {
                None => check_kids(id, kids, keys, lo, hi, i + 1, Some(d), entries + e),
                Some(prev) => if prev != d {
                    flaw(Corruption::UnevenLeafDepth)
                } else {
                    check_kids(id, kids, keys, lo, hi, i + 1, Some(d), entries + e)
                },
            },
        }
    }
}

/// How many nodes a tree has.
pub open spec fn node_count(t: Tree) -> nat
    decreases t, 0nat,
{
    match t {
        Tree::Inner { kids, .. } => 1 + kids_count(kids, kids.len()),
        _ => 1,
    }
}

/// How many nodes the first `n` subtrees have.
pub open spec fn kids_count(kids: Seq<Tree>, n: nat) -> nat
    decreases kids, n,
{
    if n == 0 || n > kids.len() {
        0
    } else {
        kids_count(kids, (n - 1) as nat) + node_count(kids[n - 1])
    }
}

/// How many entries the leaves of a tree hold.
pub open spec fn entry_count(t: Tree) -> nat
    decreases t, 0nat,
{
    match t {
        Tree::Inner { kids, .. } => kids_entries(kids, kids.len()),
        Tree::Leaf { keys, .. } => keys.len(),
        Tree::Bad { .. } => 0,
    }
}

/// How many entries the leaves of the first `n` subtrees hold.
pub open spec fn kids_entries(kids: Seq<Tree>, n: nat) -> nat
    decreases kids, n,
{
    if n == 0 || n > kids.len() {
        0
    } else {
        kids_entries(kids, (n - 1) as nat) + entry_count(kids[n - 1])
    }
}

pub proof fn lemma_counts_grow(kids: Seq<Tree>, a: nat, b: nat)
    requires
        a <= b <= kids.len(),
    ensures
        kids_count(kids, a) <= kids_count(kids, b),
        kids_entries(kids, a) <= kids_entries(kids, b),
    decreases b,
{
    if a < b {
        lemma_counts_grow(kids, a, (b - 1) as nat);
    }
}

/// A sound tree is as deep as its height says and holds all its entries, and no
/// level is without a node.
pub proof fn lemma_check_counts(t: Tree, lo: Bound, hi: Bound, parent: Option<u64>)
    requires
        check(t, lo, hi, parent) is Sound,
    ensures
        check(t, lo, hi, parent)->entries == entry_count(t),
        check(t, lo, hi, parent)->depth == t.height(),
        t.height() <= node_count(t),
    decreases t, 0nat,
{
    if let Tree::Inner { id, keys, kids } = t {
        lemma_check_kids_counts(id, kids, keys, lo, hi, 0, None, 0);
        lemma_counts_grow(kids, 1, kids.len());
        assert(kids_count(kids, 1) == kids_count(kids, 0) + node_count(kids[0]));
    }
}

proof fn lemma_check_kids_counts(
    id: u64,
    kids: Seq<Tree>,
    keys: Seq<Seq<u8>>,
    lo: Bound,
    hi: Bound,
    i: nat,
    depth: Option<nat>,
    entries: nat,
)
    requires
        i <= kids.len(),
        check_kids(id, kids, keys, lo, hi, i, depth, entries) is Sound,
        i > 0 ==> depth is Some,
        i == 0 ==> depth is None,
        kids.len() > 0,
        i > 0 ==> depth == Some(kids[0].height()) && kids[0].height() <= node_count(kids[0]),
    ensures
        check_kids(id, kids, keys, lo, hi, i, depth, entries)->entries + kids_entries(kids, i)
            == entries + kids_entries(kids, kids.len()),
        check_kids(id, kids, keys, lo, hi, i, depth, entries)->depth == 1 + kids[0].height(),
        kids[0].height() <= node_count(kids[0]),
    decreases kids, kids.len() - i,
{
    if i < kids.len() {
        lemma_check_counts(
            kids[i as int],
            kid_lo(lo, keys, i as int),
            kid_hi(keys, hi, i as int),
            Some(id),
        );
        let c = check(kids[i as int], kid_lo(lo, keys, i as int), kid_hi(keys, hi, i as int), Some(id));
        lemma_check_kids_counts(
            id,
            kids,
            keys,
            lo,
            hi,
            i + 1,
            Some(c->depth),
            entries + c->entries,
        );
    }
}

} // verus!
