//! What a table definition has to be, told at once, and what comes of one that is.

use vstd::prelude::*;
use super::cells::is_of;
use super::check::{check_error, checks_error};
use super::meaning::{columns_are_found_by_name, has_column, is_column};
use super::schema::{column_at, CheckV, ColumnV, DefaultV, TableV};
use super::validate::{
    autos, column_error, columns_error, default_error, indexed_error, indexes_error, key_error,
    listed_before, table_error, versions,
};
use crate::value::{TypeError, TypeKind};

verus! {

/// Whether a default can stand in its column: the time in a timestamp, a fresh UUID
/// in a UUID, and a constant that the column could hold.
pub open spec fn is_good_default(c: ColumnV, json: Option<TypeError>) -> bool {
    match c.default {
        None => true,
        Some(DefaultV::Now) => c.kind == TypeKind::Timestamp,
        Some(DefaultV::UuidV7) => c.kind == TypeKind::Uuid,
        Some(DefaultV::Value(v)) => if v is Null {
            c.nullable
        } else {
            is_of(c.kind, v) && (v is Json ==> json is None)
        },
    }
}

/// Whether a column can stand by itself: it has a name, what the engine counts or
/// stamps in it has the type for that, and its default can stand.
pub open spec fn is_good_column(c: ColumnV, json: Option<TypeError>) -> bool {
    &&& c.name.len() > 0
    &&& c.auto_increment ==> c.kind == TypeKind::I64
    &&& c.rowversion ==> c.kind == TypeKind::I64 && !c.auto_increment && !c.on_update_now
        && c.default is None
    &&& c.on_update_now ==> c.kind == TypeKind::Timestamp
    &&& is_good_default(c, json)
}

/// Whether no two of some names are the same.
pub open spec fn all_differ(names: Seq<Seq<char>>) -> bool {
    forall|i: int, j: int| 0 <= i < j < names.len() ==> #[trigger] names[i] != #[trigger] names[j]
}

/// Whether names are those of columns that a key can be made of: there is no order
/// on JSON.
pub open spec fn are_key_columns(t: TableV, names: Seq<Seq<char>>) -> bool {
    &&& names.len() > 0
    &&& all_differ(names)
    &&& forall|k: int| 0 <= k < names.len() ==> is_ordered(t, #[trigger] names[k])
}

/// Whether there is a column of this name, and an order on its values.
pub open spec fn is_ordered(t: TableV, name: Seq<char>) -> bool {
    exists|i: int| #[trigger] is_column(t.columns, name, i) && t.columns[i].kind != TypeKind::Json
}

/// Whether a CHECK can stand: it nests no deeper than sixteen levels, combines
/// something, names columns of the table, and compares them with constants of their
/// types.
pub open spec fn is_good_check(c: CheckV, t: TableV, depth: nat) -> bool
    decreases c,
{
    &&& depth <= 16
    &&& match c {
        CheckV::Cmp { col, op, value } => exists|i: int|
            #[trigger] is_column(t.columns, col, i) && is_of(t.columns[i].kind, value),
        CheckV::IsNull { col } => has_column(t.columns, col),
        CheckV::IsNotNull { col } => has_column(t.columns, col),
        CheckV::And(items) => items.len() > 0 && forall|i: int|
            0 <= i < items.len() ==> is_good_check(#[trigger] items[i], t, depth + 1),
        CheckV::Or(items) => items.len() > 0 && forall|i: int|
            0 <= i < items.len() ==> is_good_check(#[trigger] items[i], t, depth + 1),
        CheckV::Not(inner) => is_good_check(*inner, t, depth + 1),
    }
}

/// Whether a definition can stand: it has a name and columns, each good and no two
/// of one name, at most one of them counted and at most one a version; a primary
/// key, without a version in it; good CHECKs; and indexes with names of their own.
pub open spec fn is_valid(t: TableV, json: Seq<Option<TypeError>>) -> bool {
    &&& t.name.len() > 0
    &&& t.columns.len() > 0
    &&& forall|i: int|
        0 <= i < t.columns.len() ==> is_good_column(#[trigger] t.columns[i], json[i])
    &&& forall|i: int, j: int|
        0 <= i < j < t.columns.len() ==> {
            &&& (#[trigger] t.columns[i]).name != (#[trigger] t.columns[j]).name
            &&& !(t.columns[i].auto_increment && t.columns[j].auto_increment)
            &&& !(t.columns[i].rowversion && t.columns[j].rowversion)
        }
    &&& are_key_columns(t, t.pk)
    &&& forall|k: int, i: int|
        0 <= k < t.pk.len() && #[trigger] is_column(t.columns, #[trigger] t.pk[k], i)
            ==> !t.columns[i].rowversion
    &&& forall|k: int| 0 <= k < t.checks.len() ==> is_good_check(#[trigger] t.checks[k], t, 0)
    &&& forall|i: int|
        0 <= i < t.indexes.len() ==> (#[trigger] t.indexes[i]).name.len() > 0 && are_key_columns(
            t,
            t.indexes[i].columns,
        )
    &&& forall|i: int, j: int|
        0 <= i < j < t.indexes.len() ==> (#[trigger] t.indexes[i]).name != (
        #[trigger] t.indexes[j]).name
}

proof fn lemma_column(columns: Seq<ColumnV>, i: int, json: Option<TypeError>)
    requires
        0 <= i < columns.len(),
    ensures
        column_error(columns, i, json) is None <==> is_good_column(columns[i], json) && (forall|
            j: int,
        |
            0 <= j < i ==> (#[trigger] columns[j]).name != columns[i].name),
{
    assert(default_error(columns[i], json) is None <==> is_good_default(columns[i], json));
}

proof fn lemma_columns(columns: Seq<ColumnV>, json: Seq<Option<TypeError>>, n: int)
    requires
        0 <= n <= columns.len(),
    ensures
        columns_error(columns, n, json) is None <==> (forall|i: int|
            n <= i < columns.len() ==> is_good_column(#[trigger] columns[i], json[i])) && (forall|
            i: int,
            j: int,
        |
            0 <= i < j && n <= j < columns.len() ==> (#[trigger] columns[i]).name != (
            #[trigger] columns[j]).name),
    decreases columns.len() - n,
{
    if n < columns.len() {
        lemma_column(columns, n, json[n]);
        lemma_columns(columns, json, n + 1);
    }
}

proof fn lemma_autos(columns: Seq<ColumnV>, n: nat)
    requires
        n <= columns.len(),
    ensures
        autos(columns, n) == 0 <==> (forall|i: int|
            0 <= i < n ==> !(#[trigger] columns[i]).auto_increment),
        autos(columns, n) <= 1 <==> (forall|i: int, j: int|
            0 <= i < j < n ==> !((#[trigger] columns[i]).auto_increment && (
            #[trigger] columns[j]).auto_increment)),
    decreases n,
{
    if n > 0 {
        lemma_autos(columns, (n - 1) as nat);
        let l = n - 1;
        if columns[l].auto_increment && autos(columns, (n - 1) as nat) > 0 {
            let i = choose|i: int| 0 <= i < l && (#[trigger] columns[i]).auto_increment;
            assert(columns[i].auto_increment && columns[l].auto_increment);
        }
    }
}

proof fn lemma_versions(columns: Seq<ColumnV>, n: nat)
    requires
        n <= columns.len(),
    ensures
        versions(columns, n) == 0 <==> (forall|i: int|
            0 <= i < n ==> !(#[trigger] columns[i]).rowversion),
        versions(columns, n) <= 1 <==> (forall|i: int, j: int|
            0 <= i < j < n ==> !((#[trigger] columns[i]).rowversion && (
            #[trigger] columns[j]).rowversion)),
    decreases n,
{
    if n > 0 {
        lemma_versions(columns, (n - 1) as nat);
        let l = n - 1;
        if columns[l].rowversion && versions(columns, (n - 1) as nat) > 0 {
            let i = choose|i: int| 0 <= i < l && (#[trigger] columns[i]).rowversion;
            assert(columns[i].rowversion && columns[l].rowversion);
        }
    }
}

/// Whether the name at `k` is new and that of a column that a key can be made of.
spec fn is_key_column(t: TableV, names: Seq<Seq<char>>, k: int) -> bool {
    &&& forall|j: int| 0 <= j < k ==> #[trigger] names[j] != names[k]
    &&& is_ordered(t, names[k])
}

proof fn lemma_key(t: TableV, n: int)
    requires
        0 <= n <= t.pk.len(),
    ensures
        key_error(t, n) is None <==> (forall|k: int|
            n <= k < t.pk.len() ==> #[trigger] is_key_column(t, t.pk, k)) && (forall|k: int, i: int|
            n <= k < t.pk.len() && #[trigger] is_column(t.columns, #[trigger] t.pk[k], i)
                ==> !t.columns[i].rowversion),
    decreases t.pk.len() - n,
{
    if n < t.pk.len() {
        lemma_key(t, n + 1);
        lemma_named(t, t.pk[n]);
        assert(is_key_column(t, t.pk, n) <==> !listed_before(t.pk, n, t.pk[n]) && is_ordered(
            t,
            t.pk[n],
        ));
    }
}

proof fn lemma_indexed(t: TableV, names: Seq<Seq<char>>, n: int)
    requires
        0 <= n <= names.len(),
    ensures
        indexed_error(t, names, n) is None <==> (forall|k: int|
            n <= k < names.len() ==> #[trigger] is_key_column(t, names, k)),
    decreases names.len() - n,
{
    if n < names.len() {
        lemma_indexed(t, names, n + 1);
        lemma_named(t, names[n]);
        assert(is_key_column(t, names, n) <==> !listed_before(names, n, names[n]) && is_ordered(
            t,
            names[n],
        ));
    }
}

proof fn lemma_key_columns(t: TableV, names: Seq<Seq<char>>)
    ensures
        are_key_columns(t, names) <==> names.len() > 0 && (forall|k: int|
            0 <= k < names.len() ==> #[trigger] is_key_column(t, names, k)),
{
    if names.len() > 0 && (forall|k: int|
        0 <= k < names.len() ==> #[trigger] is_key_column(t, names, k)) {
        assert forall|i: int, j: int| 0 <= i < j < names.len() implies #[trigger] names[i]
            != #[trigger] names[j] by {
            assert(is_key_column(t, names, j));
        }
        assert forall|k: int| 0 <= k < names.len() implies is_ordered(t, #[trigger] names[k]) by {
            assert(is_key_column(t, names, k));
        }
    }
    if are_key_columns(t, names) {
        assert forall|k: int| 0 <= k < names.len() implies #[trigger] is_key_column(
            t,
            names,
            k,
        ) by {
            assert(is_ordered(t, names[k]));
        }
    }
}

proof fn lemma_indexes(t: TableV, n: int)
    requires
        0 <= n <= t.indexes.len(),
    ensures
        indexes_error(t, n) is None <==> (forall|i: int|
            n <= i < t.indexes.len() ==> (#[trigger] t.indexes[i]).name.len() > 0
                && are_key_columns(t, t.indexes[i].columns)) && (forall|i: int, j: int|
            0 <= i < j && n <= j < t.indexes.len() ==> (#[trigger] t.indexes[i]).name != (
            #[trigger] t.indexes[j]).name),
    decreases t.indexes.len() - n,
{
    if n < t.indexes.len() {
        lemma_indexes(t, n + 1);
        lemma_indexed(t, t.indexes[n].columns, 0);
        lemma_key_columns(t, t.indexes[n].columns);
    }
}

/// A CHECK passes exactly where it can stand.
pub proof fn checks_pass_where_good(c: CheckV, t: TableV, depth: nat)
    ensures
        check_error(c, t, depth) is None <==> is_good_check(c, t, depth),
    decreases c,
{
    match c {
        CheckV::Cmp { col, op, value } => {
            lemma_named(t, col);
        },
        CheckV::IsNull { col } => {
            lemma_named(t, col);
        },
        CheckV::IsNotNull { col } => {
            lemma_named(t, col);
        },
        CheckV::And(items) => {
            lemma_checks(items, t, depth + 1);
        },
        CheckV::Or(items) => {
            lemma_checks(items, t, depth + 1);
        },
        CheckV::Not(inner) => {
            checks_pass_where_good(*inner, t, depth + 1);
        },
    }
}

proof fn lemma_named(t: TableV, col: Seq<char>)
    ensures
        match column_at(t.columns, col) {
            Some(i) => is_column(t.columns, col, i) && forall|j: int| #[trigger]
                is_column(t.columns, col, j) ==> j == i,
            None => !has_column(t.columns, col),
        },
{
    columns_are_found_by_name(t.columns, col);
    if let Some(i) = column_at(t.columns, col) {
        assert(is_column(t.columns, col, i));
    }
}

proof fn lemma_checks(items: Seq<CheckV>, t: TableV, depth: nat)
    ensures
        checks_error(items, t, depth) is None <==> (forall|i: int|
            0 <= i < items.len() ==> is_good_check(#[trigger] items[i], t, depth)),
    decreases items,
{
    if items.len() > 0 {
        let rest = items.drop_first();
        checks_pass_where_good(items[0], t, depth);
        lemma_checks(rest, t, depth);
        assert forall|i: int| 0 <= i < rest.len() implies #[trigger] rest[i] == items[i + 1] by {}
        if checks_error(items, t, depth) is None {
            assert(is_good_check(items[0], t, depth));
            assert forall|i: int| 0 <= i < items.len() implies is_good_check(
                #[trigger] items[i],
                t,
                depth,
            ) by {
                if i > 0 {
                    assert(items[i] == rest[i - 1]);
                    assert(is_good_check(rest[i - 1], t, depth));
                }
            }
        }
    }
}

/// A definition passes exactly where it can stand.
pub proof fn definitions_pass_where_valid(t: TableV, json: Seq<Option<TypeError>>)
    ensures
        table_error(t, json) is None <==> is_valid(t, json),
{
    lemma_columns(t.columns, json, 0);
    lemma_autos(t.columns, t.columns.len());
    lemma_versions(t.columns, t.columns.len());
    lemma_key(t, 0);
    lemma_key_columns(t, t.pk);
    lemma_checks(t.checks, t, 0);
    lemma_indexes(t, 0);
}

} // verus!
