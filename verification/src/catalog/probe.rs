//! Probing the committed trees: whether a row's primary key and its index keys are
//! taken, and whether a foreign key's parent is there.

use vstd::prelude::*;
use crate::btree::error::BTreeError;
use crate::btree::grove::tree_map;
use crate::btree::insert::stops_at;
use crate::btree::model::{is_tree, tree_at, Tree};
use crate::btree::tree::{lookup_in, ready};
use crate::common::io::IoBackend;
use crate::index::{encoded_view, IndexError};
use crate::pager::state::PagerState;
use crate::pager::{PageId, Pager};
use crate::value::TypeError;
use super::apply::Roots;
use super::error::{CatalogError, CatalogErrorV, Result};
use super::form::Encoded;
use super::fk::{about, reference_target, target_of, Target};
use super::plan::{key_at, moves_start, row_at, taken_is_true};
use super::schema::{ForeignKey, TableDef, TableV};
use super::write::{Keyed, KeyedV, MoveV};

verus! {

/// Whether there are trees at the roots of a table.
pub open spec fn trees_there(s: PagerState, roots: Roots) -> bool {
    &&& is_tree(s, roots.data.0)
    &&& forall|i: int| 0 <= i < roots.indexes@.len() ==> is_tree(s, (#[trigger] roots.indexes@[i]).0)
}

/// Whether an index tree holds the key that this encoding is, if it is one.
pub open spec fn holds(t: Tree, key: core::result::Result<Seq<u8>, TypeError>) -> bool {
    key is Ok && t.get(key->Ok_0) is Some
}

/// Whether `e` is what probing the trees of a table for a row fails with: the search for its
/// primary key does, or the first search for an index key that does.
pub open spec fn probe_fails(
    s: PagerState,
    roots: Roots,
    pk_key: Seq<u8>,
    keys: Seq<core::result::Result<Seq<u8>, TypeError>>,
    fault_free: bool,
    e: BTreeError,
) -> bool {
    let pk = tree_at(s, roots.data.0).find(pk_key);
    ||| stops_at(pk, fault_free, e)
    ||| pk is Value && exists|i: int|
        0 <= i < keys.len() && #[trigger] index_stops(s, roots, keys, i, fault_free, e)
            && forall|j: int|
            0 <= j < i && (#[trigger] keys[j]) is Ok ==> tree_at(s, roots.indexes@[j].0).find(
                keys[j]->Ok_0,
            ) is Value
}

/// Whether the search of the `i`th index fails with `e`.
pub open spec fn index_stops(
    s: PagerState,
    roots: Roots,
    keys: Seq<core::result::Result<Seq<u8>, TypeError>>,
    i: int,
    fault_free: bool,
    e: BTreeError,
) -> bool {
    keys[i] matches Ok(k) && stops_at(tree_at(s, roots.indexes@[i].0).find(k), fault_free, e)
}

/// Whether the tree at `root` holds `key`.
fn probe<B: IoBackend>(pager: &mut Pager<B>, root: PageId, key: &[u8]) -> (r: core::result::Result<
    bool,
    BTreeError,
>)
    requires
        ready(*old(pager)),
        is_tree(old(pager).state(), root.0),
    ensures
        ready(*final(pager)),
        final(pager).state() == old(pager).state(),
        old(pager).fault_free() ==> final(pager).fault_free(),
        match r {
            Ok(found) => {
                let t = tree_at(old(pager).state(), root.0);
                t.find(key@) is Value && found == (t.get(key@) is Some)
            },
            Err(e) => stops_at(
                tree_at(old(pager).state(), root.0).find(key@),
                old(pager).fault_free(),
                e,
            ),
        },
{
    match lookup_in(pager, root, key) {
        Ok(v) => Ok(v.is_some()),
        Err(e) => Err(e),
    }
}

/// Probe the trees of a table for a row: whether its primary key is taken, and for each
/// index whether the encoding of the row's cells is a key that the index holds.
pub fn probe_row<B: IoBackend>(
    pager: &mut Pager<B>,
    roots: &Roots,
    pk_key: &[u8],
    keyed: &Keyed,
) -> (r: core::result::Result<(bool, Vec<bool>), BTreeError>)
    requires
        ready(*old(pager)),
        trees_there(old(pager).state(), *roots),
        keyed.keys@.len() == roots.indexes@.len(),
    ensures
        ready(*final(pager)),
        final(pager).state() == old(pager).state(),
        old(pager).fault_free() ==> final(pager).fault_free(),
        r matches Err(e) ==> probe_fails(
            old(pager).state(),
            *roots,
            pk_key@,
            keyed@.keys,
            old(pager).fault_free(),
            e,
        ),
        r matches Ok(v) ==> {
            let s = old(pager).state();
            &&& v.0 == (tree_at(s, roots.data.0).get(pk_key@) is Some)
            &&& v.1@.len() == keyed.keys@.len()
            &&& forall|i: int|
                0 <= i < keyed.keys@.len() ==> #[trigger] v.1@[i] == holds(
                    tree_at(s, roots.indexes@[i].0),
                    keyed@.keys[i],
                )
        },
{
    let ghost s = pager.state();
    let pk_taken = match probe(pager, roots.data, pk_key) {
        Ok(found) => found,
        Err(e) => {
            return Err(e);
        },
    };
    let mut taken: Vec<bool> = Vec::new();
    let mut i: usize = 0;
    while i < keyed.keys.len()
        invariant
            i <= keyed.keys@.len(),
            ready(*pager),
            pager.state() == s,
            s == old(pager).state(),
            old(pager).fault_free() ==> pager.fault_free(),
            trees_there(s, *roots),
            keyed.keys@.len() == roots.indexes@.len(),
            tree_at(s, roots.data.0).find(pk_key@) is Value,
            forall|j: int|
                0 <= j < i && (#[trigger] keyed@.keys[j]) is Ok ==> tree_at(
                    s,
                    roots.indexes@[j].0,
                ).find(keyed@.keys[j]->Ok_0) is Value,
            pk_taken == (tree_at(s, roots.data.0).get(pk_key@) is Some),
            taken@.len() == i,
            forall|j: int|
                0 <= j < i ==> #[trigger] taken@[j] == holds(
                    tree_at(s, roots.indexes@[j].0),
                    keyed@.keys[j],
                ),
        decreases keyed.keys@.len() - i,
    {
        assert(keyed@.keys[i as int] == encoded_view(keyed.keys@[i as int]));
        let found = match &keyed.keys[i] {
            Ok(key) => match probe(pager, roots.indexes[i], key.as_slice()) {
                Ok(found) => found,
                Err(e) => {
                    assert(index_stops(
                        s,
                        *roots,
                        keyed@.keys,
                        i as int,
                        old(pager).fault_free(),
                        e,
                    ));
                    return Err(e);
                },
            },
            Err(_) => false,
        };
        taken.push(found);
        i = i + 1;
    }
    Ok((pk_taken, taken))
}

/// The tree of a parent table that a foreign key is probed in.
pub open spec fn target_root(roots: Roots, target: Target) -> PageId {
    match target {
        Target::PrimaryKey => roots.data,
        Target::Index(i) => roots.indexes@[i as int],
    }
}

/// The refusal of a key that cannot be encoded: by the catalog where the primary key is
/// probed, by the index layer where an index is.
pub open spec fn unprobed(target: Target, e: TypeError) -> CatalogErrorV {
    match target {
        Target::PrimaryKey => CatalogErrorV::Type(e),
        Target::Index(_) => CatalogErrorV::Index(IndexError::Type(e)),
    }
}

/// Whether the parent row that a foreign key refers to is there, `key` being the encoding
/// of the referencing cells. A foreign key that no longer references a key of its parent
/// is refused, and so is a key that cannot be encoded.
pub fn parent_has<B: IoBackend>(
    pager: &mut Pager<B>,
    parent: &TableDef,
    roots: &Roots,
    fk: &ForeignKey,
    key: &Encoded,
) -> (r: Result<bool>)
    requires
        ready(*old(pager)),
        trees_there(old(pager).state(), *roots),
        roots.indexes@.len() == parent.indexes@.len(),
    ensures
        ready(*final(pager)),
        final(pager).state() == old(pager).state(),
        old(pager).fault_free() ==> final(pager).fault_free(),
        match target_of(parent@, fk@.parent_columns) {
            None => r is Err && r->Err_0@ == (CatalogErrorV::InvalidSchema {
                reason: about(fk@.name, " lost its referenced unique index"@),
            }),
            Some(target) => match encoded_view(*key) {
                Err(e) => r is Err && r->Err_0@ == unprobed(target, e),
                Ok(k) => match r {
                    Ok(found) => found == (tree_at(
                        old(pager).state(),
                        target_root(*roots, target).0,
                    ).get(k) is Some),
                    Err(e) => e@ matches CatalogErrorV::BTree(b) && stops_at(
                        tree_at(old(pager).state(), target_root(*roots, target).0).find(k),
                        old(pager).fault_free(),
                        b,
                    ),
                },
            },
        },
{
    let target = match reference_target(parent, fk) {
        Ok(target) => target,
        Err(e) => {
            return Err(e);
        },
    };
    let key = match key {
        Ok(key) => key,
        Err(e) => {
            return match target {
                Target::PrimaryKey => Err(CatalogError::Type(e.copy())),
                Target::Index(_) => Err(CatalogError::Index(IndexError::Type(e.copy()))),
            };
        },
    };
    let root = match target {
        Target::PrimaryKey => roots.data,
        Target::Index(i) => {
            proof {
                lemma_target_in_range(parent@.indexes, fk@.parent_columns, 0);
            }
            roots.indexes[i]
        },
    };
    match probe(pager, root, key.as_slice()) {
        Ok(found) => Ok(found),
        Err(e) => Err(CatalogError::BTree(e)),
    }
}

proof fn lemma_target_in_range(indexes: Seq<super::schema::IndexV>, columns: Seq<Seq<char>>, i: int)
    requires
        0 <= i,
    ensures
        super::fk::unique_over(indexes, columns, i) matches Some(j) ==> i <= j < indexes.len(),
    decreases indexes.len() - i,
{
    if i < indexes.len() {
        lemma_target_in_range(indexes, columns, i + 1);
    }
}

/// What probing found out about taken keys is true of a unique index: a batch whose rows
/// were probed may be planned against what the index tree holds.
pub proof fn probes_are_true(t: TableV, i: int, index: Tree, moves: Seq<MoveV>)
    requires
        0 <= i < t.indexes.len(),
        t.indexes[i].unique,
        forall|c: int|
            0 <= c < moves.len() && (#[trigger] moves[c]).new is Some ==> moves[c].taken[i] == holds(
                index,
                moves[c].new->Some_0.keys[i],
            ),
    ensures
        taken_is_true(t, i, tree_map(index), moves),
{
    assert forall|c: int| 0 <= c < moves.len() implies (key_at(
        t,
        i,
        (#[trigger] moves[c]).pk_key,
        moves[c].new,
    ) matches Some(k) ==> moves[c].taken[i] == tree_map(index).contains_key(k)) by {}
}

/// Rows with distinct keys that probing found absent are new to the table, and so start
/// from what is committed. `base` are the committed rows, by the keys of `data`.
pub proof fn absent_rows_start(base: Map<Seq<u8>, KeyedV>, data: Tree, moves: Seq<MoveV>)
    requires
        forall|pk: Seq<u8>| #[trigger] base.contains_key(pk) <==> data.get(pk) is Some,
        forall|a: int, b: int|
            0 <= a < b < moves.len() ==> (#[trigger] moves[a]).pk_key != (#[trigger] moves[b]).pk_key,
        forall|c: int|
            0 <= c < moves.len() ==> (#[trigger] moves[c]).old is None && data.get(moves[c].pk_key)
                is None,
    ensures
        moves_start(base, moves),
{
    assert forall|c: int| 0 <= c < moves.len() implies (#[trigger] moves[c]).old == row_at(
        base,
        moves[c].pk_key,
    ) by {
        assert(!base.contains_key(moves[c].pk_key));
    }
}

/// A foreign key on the primary key is looked up in the table's rows, one on a unique index
/// in the tree of the first index over its columns.
pub proof fn references_are_looked_up_where_they_point(
    parent: TableV,
    roots: Roots,
    columns: Seq<Seq<char>>,
    i: int,
)
    requires
        parent.indexes.len() <= usize::MAX,
    ensures
        parent.pk == columns ==> target_of(parent, columns) is Some && target_root(
            roots,
            target_of(parent, columns)->Some_0,
        ) == roots.data,
        parent.pk != columns && 0 <= i < parent.indexes.len() && parent.indexes[i].unique
            && parent.indexes[i].columns == columns && (forall|j: int|
            0 <= j < i ==> !((#[trigger] parent.indexes[j]).unique && parent.indexes[j].columns
                == columns)) ==> target_of(parent, columns) is Some && target_root(
            roots,
            target_of(parent, columns)->Some_0,
        ) == roots.indexes@[i],
{
    super::refs::targets_are_unique(parent, columns);
    if parent.pk != columns && 0 <= i < parent.indexes.len() && parent.indexes[i].unique
        && parent.indexes[i].columns == columns && (forall|j: int|
        0 <= j < i ==> !((#[trigger] parent.indexes[j]).unique && parent.indexes[j].columns
            == columns)) {
        if let Some(Target::Index(k)) = target_of(parent, columns) {
            assert(parent.indexes[k as int].unique);
            assert(k == i);
        }
    }
}

} // verus!
