//! What schema changes make of a definition, and which of them are let through.

use vstd::prelude::*;
use super::ddl::{
    column_added, created, has_auto, index_created, index_dropped, storable, with_backings,
    with_column, with_index, without_index,
};
use super::error::{CatalogCorruption, CatalogErrorV};
use super::fk::fks_error;
use super::form::{table_form, Encoded};
use super::meaning::{columns_are_found_by_name, has_column};
use super::refs::{declared_keys_are_sound, is_sound};
use super::schema::{
    index_at, lemma_index_at, missing_backings, unique_columns_are_backed, ColumnV, DefaultV,
    IndexV, TableV,
};
use super::store::root_of;
use super::valid::{definitions_pass_where_valid, is_valid};
use super::write::too_large;
use crate::pager::page::PageId;
use crate::value::TypeError;

verus! {

/// Whether an index backs a unique column of a table: it is unique, over that column
/// alone, and named after the table and the column.
pub open spec fn is_backing(t: TableV, x: IndexV, i: int) -> bool {
    &&& 0 <= i < t.columns.len()
    &&& t.columns[i].unique
    &&& x.unique
    &&& x.columns == seq![t.columns[i].name]
    &&& x.name == "uniq_"@ + t.name + "_"@ + t.columns[i].name
}

/// Whether some index of a table has this name.
pub open spec fn has_index(t: TableV, name: Seq<char>) -> bool {
    exists|i: int| 0 <= i < t.indexes.len() && (#[trigger] t.indexes[i]).name == name
}

/// An index is found by its name, where one has it.
pub proof fn indexes_are_found_by_name(t: TableV, name: Seq<char>)
    ensures
        index_at(t.indexes, name) is Some <==> has_index(t, name),
        index_at(t.indexes, name) matches Some(i) ==> 0 <= i < t.indexes.len()
            && t.indexes[i].name == name,
{
    lemma_index_at(t.indexes, name);
}

/// Backing a definition leaves everything in it as it was, puts the new indexes behind
/// those that are there, and adds one for each unique column that has none and for
/// nothing else.
pub proof fn backing_adds_what_is_missing(t: TableV)
    ensures
        with_backings(t).name == t.name,
        with_backings(t).columns == t.columns,
        with_backings(t).pk == t.pk,
        with_backings(t).checks == t.checks,
        with_backings(t).foreign_keys == t.foreign_keys,
        with_backings(t).indexes.len() >= t.indexes.len(),
        forall|k: int|
            0 <= k < t.indexes.len() ==> #[trigger] with_backings(t).indexes[k] == t.indexes[k],
        forall|k: int|
            t.indexes.len() <= k < with_backings(t).indexes.len() ==> !has_index(
                t,
                (#[trigger] with_backings(t).indexes[k]).name,
            ) && backs_some(t, with_backings(t).indexes[k]),
        forall|i: int|
            0 <= i < t.columns.len() && (#[trigger] t.columns[i]).unique ==> has_index(
                with_backings(t),
                "uniq_"@ + t.name + "_"@ + t.columns[i].name,
            ),
{
    let missing = missing_backings(t, t.columns.len());
    lemma_missing(t, t.columns.len());
    assert forall|k: int| t.indexes.len() <= k < with_backings(t).indexes.len() implies !has_index(
        t,
        (#[trigger] with_backings(t).indexes[k]).name,
    ) && backs_some(t, with_backings(t).indexes[k]) by {
        assert(with_backings(t).indexes[k] == missing[k - t.indexes.len()]);
    }
    assert forall|i: int| 0 <= i < t.columns.len() && (#[trigger] t.columns[i]).unique implies has_index(
        with_backings(t),
        "uniq_"@ + t.name + "_"@ + t.columns[i].name,
    ) by {
        unique_columns_are_backed(t, i);
        indexes_are_found_by_name(
            with_backings(t),
            "uniq_"@ + t.name + "_"@ + t.columns[i].name,
        );
    }
}

/// Whether an index backs some unique column of a table.
pub open spec fn backs_some(t: TableV, x: IndexV) -> bool {
    exists|i: int| #[trigger] is_backing(t, x, i)
}

proof fn lemma_missing(t: TableV, n: nat)
    requires
        n <= t.columns.len(),
    ensures
        forall|k: int|
            0 <= k < missing_backings(t, n).len() ==> !has_index(
                t,
                (#[trigger] missing_backings(t, n)[k]).name,
            ) && backs_some(t, missing_backings(t, n)[k]),
    decreases n,
{
    if n > 0 {
        lemma_missing(t, (n - 1) as nat);
        let c = t.columns[n - 1];
        let name = "uniq_"@ + t.name + "_"@ + c.name;
        indexes_are_found_by_name(t, name);
        let rest = missing_backings(t, (n - 1) as nat);
        assert forall|k: int| 0 <= k < missing_backings(t, n).len() implies !has_index(
            t,
            (#[trigger] missing_backings(t, n)[k]).name,
        ) && backs_some(t, missing_backings(t, n)[k]) by {
            if k < rest.len() {
                assert(missing_backings(t, n)[k] == rest[k]);
            } else {
                assert(is_backing(t, missing_backings(t, n)[k], n - 1));
            }
        }
    }
}

/// A definition can be stored exactly where its literals have a form, its name has a
/// key, and both fit a node together.
pub proof fn definitions_are_stored_where_they_fit(
    t: TableV,
    key: core::result::Result<Seq<u8>, TypeError>,
    literals: Seq<Encoded>,
)
    ensures
        storable(t, key, literals) is Ok <==> {
            &&& table_form(t, literals) is Ok
            &&& key is Ok
            &&& too_large(key->Ok_0, table_form(t, literals)->Ok_0) is None
        },
        storable(t, key, literals) matches Ok(b) ==> table_form(t, literals) == Ok::<
            Seq<u8>,
            CatalogErrorV,
        >(b),
{
}

/// A table is created exactly where its backed definition is valid, each foreign key
/// can be declared, its name has a key that no table has, and it can be stored.
pub proof fn tables_are_created_where_nothing_stands(
    t: TableV,
    json: Seq<Option<TypeError>>,
    parents: Seq<Option<TableV>>,
    key: core::result::Result<Seq<u8>, TypeError>,
    taken: bool,
    literals: Seq<Encoded>,
)
    requires
        with_backings(t).indexes.len() <= usize::MAX,
        forall|i: int|
            0 <= i < parents.len() ==> ((#[trigger] parents[i]) matches Some(p) ==> p.indexes.len()
                <= usize::MAX),
        parents.len() == t.foreign_keys.len(),
    ensures
        created(t, json, parents, key, taken, literals) is Ok <==> {
            let full = with_backings(t);
            &&& is_valid(full, json)
            &&& forall|i: int|
                0 <= i < t.foreign_keys.len() ==> {
                    let fk = #[trigger] t.foreign_keys[i];
                    if fk.parent == t.name {
                        is_sound(full, fk, full)
                    } else {
                        parents[i] matches Some(p) && is_sound(full, fk, p)
                    }
                }
            &&& key is Ok
            &&& !taken
            &&& storable(full, key, literals) is Ok
        },
        created(t, json, parents, key, taken, literals) matches Ok(b) ==> storable(
            with_backings(t),
            key,
            literals,
        ) == Ok::<Seq<u8>, CatalogErrorV>(b),
        is_valid(with_backings(t), json) && fks_error(with_backings(t), parents, 0) is None && key
            is Ok && taken ==> created(t, json, parents, key, taken, literals) == Err::<
            Seq<u8>,
            CatalogErrorV,
        >(CatalogErrorV::TableExists { table: t.name }),
{
    definitions_pass_where_valid(with_backings(t), json);
    declared_keys_are_sound(with_backings(t), parents);
}

/// A column is added exactly where none has its name, the rows that are there can read
/// something in it, and the definition with it is valid and can be stored. It then comes
/// last, and nothing else changes but for its backing index.
pub proof fn columns_are_added_behind(
    t: TableV,
    c: ColumnV,
    json: Seq<Option<TypeError>>,
    key: core::result::Result<Seq<u8>, TypeError>,
    literals: Seq<Encoded>,
)
    ensures
        column_added(t, c, json, key, literals) is Ok <==> {
            &&& !has_column(t.columns, c.name)
            &&& c.nullable || (c.default matches Some(DefaultV::Value(_)))
            &&& is_valid(with_column(t, c), json)
            &&& storable(with_column(t, c), key, literals) is Ok
        },
        column_added(t, c, json, key, literals) matches Ok(b) ==> storable(
            with_column(t, c),
            key,
            literals,
        ) == Ok::<Seq<u8>, CatalogErrorV>(b),
        with_column(t, c).columns == t.columns.push(c),
        with_column(t, c).name == t.name,
        with_column(t, c).pk == t.pk,
        with_column(t, c).checks == t.checks,
        with_column(t, c).foreign_keys == t.foreign_keys,
        with_column(t, c) == with_backings(TableV { columns: t.columns.push(c), ..t }),
{
    columns_are_found_by_name(t.columns, c.name);
    if has_column(t.columns, c.name) {
        let i = choose|i: int| #[trigger] super::meaning::is_column(t.columns, c.name, i);
        assert(super::meaning::is_column(t.columns, c.name, i));
    } else if let Some(i) = super::schema::column_at(t.columns, c.name) {
        assert(super::meaning::is_column(t.columns, c.name, i));
    }
    definitions_pass_where_valid(with_column(t, c), json);
}

/// An index is created exactly where none has its name and the definition with it is
/// valid and can be stored. It then comes last, and nothing else changes.
pub proof fn indexes_are_created_behind(
    table: Seq<char>,
    t: TableV,
    x: IndexV,
    json: Seq<Option<TypeError>>,
    key: core::result::Result<Seq<u8>, TypeError>,
    literals: Seq<Encoded>,
)
    ensures
        has_index(t, x.name) ==> index_created(table, t, x, json, key, literals) == Err::<
            Seq<u8>,
            CatalogErrorV,
        >(CatalogErrorV::IndexExists { table, index: x.name }),
        index_created(table, t, x, json, key, literals) is Ok <==> {
            &&& !has_index(t, x.name)
            &&& is_valid(with_index(t, x), json)
            &&& storable(with_index(t, x), key, literals) is Ok
        },
        index_created(table, t, x, json, key, literals) matches Ok(b) ==> storable(
            with_index(t, x),
            key,
            literals,
        ) == Ok::<Seq<u8>, CatalogErrorV>(b),
        with_index(t, x).indexes == t.indexes.push(x),
        with_index(t, x).name == t.name,
        with_index(t, x).columns == t.columns,
        with_index(t, x).pk == t.pk,
        with_index(t, x).checks == t.checks,
        with_index(t, x).foreign_keys == t.foreign_keys,
{
    indexes_are_found_by_name(t, x.name);
    definitions_pass_where_valid(with_index(t, x), json);
}

/// An index is dropped exactly where the table has it, it does not back a unique column,
/// its tree has a root, and what is left has a form. What is left are the other indexes,
/// in their order, and everything else.
pub proof fn dropped_indexes_leave_the_others(
    table: Seq<char>,
    t: TableV,
    index: Seq<char>,
    root: Option<Seq<u8>>,
    literals: Seq<Encoded>,
)
    ensures
        !has_index(t, index) ==> index_dropped(table, t, index, root, literals) == Err::<
            (PageId, Seq<u8>),
            CatalogErrorV,
        >(CatalogErrorV::UnknownIndex { table, index }),
        index_at(t.indexes, index) matches Some(i) ==> {
            let left = without_index(t, i);
            let made = index_dropped(table, t, index, root, literals);
            &&& t.indexes[i].name == index
            &&& left.indexes.len() == t.indexes.len() - 1
            &&& forall|k: int|
                0 <= k < left.indexes.len() ==> #[trigger] left.indexes[k] == t.indexes[if k < i {
                    k
                } else {
                    k + 1
                }]
            &&& left.name == t.name && left.columns == t.columns && left.pk == t.pk && left.checks
                == t.checks && left.foreign_keys == t.foreign_keys
            &&& made is Ok <==> {
                &&& !backs_some(t, t.indexes[i])
                &&& root matches Some(b) && b.len() == 8
                &&& table_form(left, literals) is Ok
            }
            &&& made matches Ok(x) ==> root_of(root->Some_0) == Ok::<PageId, CatalogErrorV>(x.0)
                && table_form(left, literals) == Ok::<Seq<u8>, CatalogErrorV>(x.1)
            &&& backs_some(t, t.indexes[i]) ==> (made matches Err(e) && e is InvalidSchema)
            &&& !backs_some(t, t.indexes[i]) && root is None ==> made == Err::<
                (PageId, Seq<u8>),
                CatalogErrorV,
            >(CatalogErrorV::Corrupt(CatalogCorruption::MissingEntry))
        },
{
    indexes_are_found_by_name(t, index);
    if let Some(i) = index_at(t.indexes, index) {
        let x = t.indexes[i];
        if t.backs_unique(x) {
            let c = choose|c: int|
                0 <= c < t.columns.len() && (#[trigger] t.columns[c]).name == x.columns[0]
                    && t.columns[c].unique;
            assert(x.columns =~= seq![t.columns[c].name]);
            assert(is_backing(t, x, c));
        }
        if backs_some(t, x) {
            let c = choose|c: int| #[trigger] is_backing(t, x, c);
            assert(t.columns[c].name == x.columns[0]);
            assert(t.backs_unique(x));
        }
    }
}

/// A table has a sequence exactly where one of its columns is counted.
pub proof fn sequences_go_with_counted_columns(t: TableV)
    ensures
        has_auto(t) <==> exists|i: int|
            0 <= i < t.columns.len() && (#[trigger] t.columns[i]).auto_increment,
{
}

} // verus!
