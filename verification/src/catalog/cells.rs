//! What becomes of the cells of a row: those that a caller gives, those that the
//! table fills in, and those that an update leaves alone.

use vstd::prelude::*;
use super::check::cell_named;
use super::error::{CatalogCorruption, CatalogErrorV};
use super::meaning::{
    cells_sit_under_their_columns, columns_are_found_by_name, has_column, is_column,
};
use super::meaning::sits;
use super::row::{
    built, cell_error, cells_named, given_key_error, key_cells, key_values_error, materialized,
    placed, read_row, row_error, set_all, updated, Fill,
};
use super::schema::{column_at, DefaultV, TableV};
use crate::text::decimal;
use crate::value::{TypeError, TypeKind, ValueV};

verus! {

// --- new rows ----------------------------------------------------------------

/// Whether cell `j` of those given for a new row cannot stand: no column has its
/// name, the engine manages the column, or an earlier one has the same name.
pub open spec fn is_bad_cell(t: TableV, given: Seq<(Seq<char>, ValueV)>, j: int) -> bool {
    ||| forall|i: int| 0 <= i < t.columns.len() ==> (#[trigger] t.columns[i]).name != given[j].0
    ||| exists|i: int|
        #[trigger] is_column(t.columns, given[j].0, i) && (t.columns[i].rowversion
            || t.columns[i].on_update_now)
    ||| exists|k: int| 0 <= k < j && (#[trigger] given[k]).0 == given[j].0
}

/// The error on a cell that cannot stand.
pub open spec fn bad_cell_error(
    t: TableV,
    given: Seq<(Seq<char>, ValueV)>,
    j: int,
    e: CatalogErrorV,
) -> bool {
    let name = given[j].0;
    if forall|i: int| 0 <= i < t.columns.len() ==> (#[trigger] t.columns[i]).name != name {
        e == (CatalogErrorV::UnknownColumn { table: t.name, column: name })
    } else if exists|i: int|
        #[trigger] is_column(t.columns, name, i) && (t.columns[i].rowversion
            || t.columns[i].on_update_now) {
        e == (CatalogErrorV::EngineManagedColumn { column: name })
    } else {
        e == (CatalogErrorV::DuplicateColumn { column: name })
    }
}

proof fn lemma_placed(t: TableV, given: Seq<(Seq<char>, ValueV)>)
    ensures
        match placed(t, given) {
            Ok(cells) => {
                &&& cells.len() == t.columns.len()
                &&& forall|j: int| 0 <= j < given.len() ==> !(#[trigger] is_bad_cell(t, given, j))
                &&& forall|j: int, i: int|
                    0 <= j < given.len() && #[trigger] is_column(t.columns, (#[trigger] given[j]).0, i)
                        ==> cells[i] == Some(given[j].1)
                &&& forall|i: int|
                    0 <= i < t.columns.len() && (#[trigger] cells[i]) is Some ==> exists|j: int|
                        0 <= j < given.len() && is_column(t.columns, (#[trigger] given[j]).0, i)
            },
            Err(e) => exists|j: int|
                {
                    &&& 0 <= j < given.len()
                    &&& #[trigger] is_bad_cell(t, given, j)
                    &&& bad_cell_error(t, given, j, e)
                    &&& forall|k: int| 0 <= k < j ==> !(#[trigger] is_bad_cell(t, given, k))
                },
        },
    decreases given.len(),
{
    if given.len() > 0 {
        let front = given.drop_last();
        let n = given.len() - 1;
        lemma_placed(t, front);
        assert forall|j: int| 0 <= j < n implies #[trigger] is_bad_cell(t, given, j) == is_bad_cell(
            t,
            front,
            j,
        ) by {
            lemma_same_cell(t, front, given, j);
        }
        match placed(t, front) {
            Err(e) => {
                let j = choose|j: int|
                    {
                        &&& 0 <= j < front.len()
                        &&& #[trigger] is_bad_cell(t, front, j)
                        &&& bad_cell_error(t, front, j, e)
                        &&& forall|k: int| 0 <= k < j ==> !(#[trigger] is_bad_cell(t, front, k))
                    };
                assert(given[j] == front[j]);
                assert(is_bad_cell(t, given, j));
                assert(bad_cell_error(t, given, j, e));
            },
            Ok(cells) => {
                let (name, v) = given.last();
                assert(given[n] == given.last());
                columns_are_found_by_name(t.columns, name);
                match column_at(t.columns, name) {
                    None => {
                        assert(is_bad_cell(t, given, n));
                    },
                    Some(c) => {
                        assert(is_column(t.columns, name, c));
                        assert(t.columns[c].name == name);
                        if t.columns[c].rowversion || t.columns[c].on_update_now {
                            assert(is_bad_cell(t, given, n));
                        } else if cells[c] is Some {
                            let j = choose|j: int|
                                0 <= j < front.len() && is_column(
                                    t.columns,
                                    (#[trigger] front[j]).0,
                                    c,
                                );
                            assert(given[j] == front[j]);
                            assert(given[j].0 == given[n].0);
                            assert(is_bad_cell(t, given, n));
                        } else {
                            lemma_placed_one(t, given, cells, c);
                        }
                    },
                }
            },
        }
    }
}

proof fn lemma_same_cell(
    t: TableV,
    front: Seq<(Seq<char>, ValueV)>,
    given: Seq<(Seq<char>, ValueV)>,
    j: int,
)
    requires
        given.len() > 0,
        front == given.drop_last(),
        0 <= j < front.len(),
    ensures
        is_bad_cell(t, given, j) == is_bad_cell(t, front, j),
{
    assert(given[j] == front[j]);
    assert forall|k: int| 0 <= k < j implies #[trigger] given[k] == front[k] by {}
    assert forall|k: int| 0 <= k < j implies #[trigger] front[k] == given[k] by {}
}

proof fn lemma_placed_one(
    t: TableV,
    given: Seq<(Seq<char>, ValueV)>,
    cells: Seq<Option<ValueV>>,
    c: int,
)
    requires
        given.len() > 0,
        cells.len() == t.columns.len(),
        is_column(t.columns, given.last().0, c),
        !t.columns[c].rowversion,
        !t.columns[c].on_update_now,
        cells[c] is None,
        forall|j: int| 0 <= j < given.len() - 1 ==> !(#[trigger] is_bad_cell(t, given, j)),
        forall|j: int, i: int|
            0 <= j < given.len() - 1 && #[trigger] is_column(
                t.columns,
                (#[trigger] given.drop_last()[j]).0,
                i,
            ) ==> cells[i] == Some(given.drop_last()[j].1),
        forall|i: int|
            0 <= i < t.columns.len() && (#[trigger] cells[i]) is Some ==> exists|j: int|
                0 <= j < given.len() - 1 && is_column(
                    t.columns,
                    (#[trigger] given.drop_last()[j]).0,
                    i,
                ),
    ensures
        ({
            let after = cells.update(c, Some(given.last().1));
            &&& forall|j: int| 0 <= j < given.len() ==> !(#[trigger] is_bad_cell(t, given, j))
            &&& forall|j: int, i: int|
                0 <= j < given.len() && #[trigger] is_column(t.columns, (#[trigger] given[j]).0, i)
                    ==> after[i] == Some(given[j].1)
            &&& forall|i: int|
                0 <= i < t.columns.len() && (#[trigger] after[i]) is Some ==> exists|j: int|
                    0 <= j < given.len() && is_column(t.columns, (#[trigger] given[j]).0, i)
        }),
{
    let front = given.drop_last();
    let n = given.len() - 1;
    let after = cells.update(c, Some(given.last().1));
    assert(given[n] == given.last());
    columns_are_found_by_name(t.columns, given[n].0);
    assert(t.columns[c].name == given[n].0);
    assert forall|k: int| 0 <= k < n implies (#[trigger] given[k]).0 != given[n].0 by {
        assert(front[k] == given[k]);
        if given[k].0 == given[n].0 {
            assert(is_column(t.columns, front[k].0, c));
        }
    }
    assert(!is_bad_cell(t, given, n));
    assert forall|j: int, i: int|
        0 <= j < given.len() && #[trigger] is_column(t.columns, (#[trigger] given[j]).0, i) implies after[i]
        == Some(given[j].1) by {
        if j < n {
            assert(front[j] == given[j]);
            assert(is_column(t.columns, front[j].0, i));
            assert(cells[i] == Some(given[j].1));
        }
    }
    assert forall|i: int| 0 <= i < t.columns.len() && (#[trigger] after[i]) is Some implies exists|
        j: int,
    |
        0 <= j < given.len() && is_column(t.columns, (#[trigger] given[j]).0, i) by {
        if i == c {
            assert(is_column(t.columns, given[n].0, i));
        } else {
            assert(cells[i] is Some);
            let j = choose|j: int|
                0 <= j < n && is_column(t.columns, (#[trigger] front[j]).0, i);
            assert(given[j] == front[j]);
        }
    }
}

/// A row is built exactly where every given cell can stand; otherwise the error is
/// that of the first that cannot.
pub proof fn rows_are_built_from_good_cells(
    t: TableV,
    given: Seq<(Seq<char>, ValueV)>,
    seq: i64,
    fills: Seq<Fill>,
)
    ensures
        built(t, given, seq, fills) is Ok <==> (forall|j: int|
            0 <= j < given.len() ==> !(#[trigger] is_bad_cell(t, given, j))),
        built(t, given, seq, fills) matches Err(e) ==> exists|j: int|
            {
                &&& 0 <= j < given.len()
                &&& #[trigger] is_bad_cell(t, given, j)
                &&& bad_cell_error(t, given, j, e)
                &&& forall|k: int| 0 <= k < j ==> !(#[trigger] is_bad_cell(t, given, k))
            },
{
    lemma_placed(t, given);
}

/// A built row holds every given value, in its own column, whatever the column's
/// default.
pub proof fn given_values_are_kept(
    t: TableV,
    given: Seq<(Seq<char>, ValueV)>,
    seq: i64,
    fills: Seq<Fill>,
    j: int,
)
    requires
        built(t, given, seq, fills) is Ok,
        0 <= j < given.len(),
    ensures
        built(t, given, seq, fills)->Ok_0.0.len() == t.columns.len(),
        sits(t.columns, built(t, given, seq, fills)->Ok_0.0, given[j].0, given[j].1),
{
    lemma_placed(t, given);
    let cells = placed(t, given)->Ok_0;
    assert(!is_bad_cell(t, given, j));
    columns_are_found_by_name(t.columns, given[j].0);
    let c = column_at(t.columns, given[j].0)->Some_0;
    assert(is_column(t.columns, given[j].0, c));
    lemma_materialized(t, cells, seq, fills, t.columns.len(), c);
}

/// The cell of a column that nothing was given for: the next number of the
/// sequence, a first version, the time, or the column's default, and NULL where it
/// has none.
pub proof fn missing_values_are_filled(
    t: TableV,
    given: Seq<(Seq<char>, ValueV)>,
    seq: i64,
    fills: Seq<Fill>,
    i: int,
)
    requires
        built(t, given, seq, fills) is Ok,
        0 <= i < t.columns.len(),
        forall|j: int|
            0 <= j < given.len() ==> !is_column(t.columns, (#[trigger] given[j]).0, i),
    ensures
        ({
            let cell = built(t, given, seq, fills)->Ok_0.0[i];
            let c = t.columns[i];
            let generated = c.auto_increment || c.rowversion || c.on_update_now;
            &&& !generated && c.default is None ==> cell is Null
            &&& !generated ==> (c.default matches Some(DefaultV::Value(v)) ==> cell == v)
            &&& !generated && c.default == Some(DefaultV::Now) ==> cell == ValueV::Timestamp(
                fills[i].now,
            )
            &&& !generated && c.default == Some(DefaultV::UuidV7) ==> cell == ValueV::Uuid(
                fills[i].uuid@,
            )
            &&& c.auto_increment ==> cell is I64
            &&& c.auto_increment && (forall|k: int|
                0 <= k < i ==> !(#[trigger] t.columns[k]).auto_increment) ==> cell == ValueV::I64(
                seq,
            )
            &&& c.rowversion && !c.auto_increment ==> cell == ValueV::I64(1)
            &&& c.on_update_now && !c.auto_increment && !c.rowversion ==> cell
                == ValueV::Timestamp(fills[i].now)
        }),
{
    lemma_placed(t, given);
    let cells = placed(t, given)->Ok_0;
    assert(cells[i] is None);
    lemma_materialized(t, cells, seq, fills, t.columns.len(), i);
}

/// The sequence moves past every number that it gave or that was given for its
/// column, as far as numbers go, and not otherwise.
pub proof fn sequences_move_past_their_numbers(
    t: TableV,
    given: Seq<(Seq<char>, ValueV)>,
    seq: i64,
    fills: Seq<Fill>,
    i: int,
)
    requires
        built(t, given, seq, fills) is Ok,
    ensures
        (forall|k: int| 0 <= k < t.columns.len() ==> !(#[trigger] t.columns[k]).auto_increment)
            ==> built(t, given, seq, fills)->Ok_0.1 == seq,
        0 <= i < t.columns.len() && t.columns[i].auto_increment && (forall|k: int|
            0 <= k < t.columns.len() && k != i ==> !(#[trigger] t.columns[k]).auto_increment) ==> {
            let (row, next) = built(t, given, seq, fills)->Ok_0;
            match row[i] {
                ValueV::I64(n) => {
                    &&& n < seq ==> next == seq
                    &&& seq <= n < i64::MAX ==> next == n + 1
                    &&& n == i64::MAX ==> next == i64::MAX
                },
                _ => next == seq,
            }
        },
{
    lemma_placed(t, given);
    let cells = placed(t, given)->Ok_0;
    lemma_sequence(t, cells, seq, fills, t.columns.len(), i);
}

proof fn lemma_sequence(
    t: TableV,
    cells: Seq<Option<ValueV>>,
    seq: i64,
    fills: Seq<Fill>,
    n: nat,
    i: int,
)
    requires
        n <= t.columns.len(),
        cells.len() == t.columns.len(),
    ensures
        materialized(t, cells, seq, fills, n).0.len() == n,
        (forall|k: int| 0 <= k < n && k != i ==> !(#[trigger] t.columns[k]).auto_increment) ==> {
            let (row, next) = materialized(t, cells, seq, fills, n);
            if 0 <= i < n && t.columns[i].auto_increment {
                match row[i] {
                    ValueV::I64(x) => {
                        &&& x < seq ==> next == seq
                        &&& seq <= x < i64::MAX ==> next == x + 1
                        &&& x == i64::MAX ==> next == i64::MAX
                    },
                    _ => next == seq,
                }
            } else {
                next == seq
            }
        },
    decreases n,
{
    if n > 0 {
        lemma_sequence(t, cells, seq, fills, (n - 1) as nat, i);
    }
}

proof fn lemma_materialized(
    t: TableV,
    cells: Seq<Option<ValueV>>,
    seq: i64,
    fills: Seq<Fill>,
    n: nat,
    i: int,
)
    requires
        n <= t.columns.len(),
        cells.len() == t.columns.len(),
    ensures
        ({
            let (row, next) = materialized(t, cells, seq, fills, n);
            &&& row.len() == n
            &&& (forall|k: int| 0 <= k < n ==> !(#[trigger] t.columns[k]).auto_increment) ==> next
                == seq
            &&& 0 <= i < n ==> {
                let c = t.columns[i];
                let generated = c.auto_increment || c.rowversion || c.on_update_now;
                match cells[i] {
                    Some(v) => row[i] == v,
                    None => {
                        &&& !generated && c.default is None ==> row[i] is Null
                        &&& !generated ==> (c.default matches Some(DefaultV::Value(v)) ==> row[i]
                            == v)
                        &&& !generated && c.default == Some(DefaultV::Now) ==> row[i]
                            == ValueV::Timestamp(fills[i].now)
                        &&& !generated && c.default == Some(DefaultV::UuidV7) ==> row[i]
                            == ValueV::Uuid(fills[i].uuid@)
                        &&& c.auto_increment ==> row[i] is I64
                        &&& c.auto_increment && (forall|k: int|
                            0 <= k < i ==> !(#[trigger] t.columns[k]).auto_increment) ==> row[i]
                            == ValueV::I64(seq)
                        &&& c.rowversion && !c.auto_increment ==> row[i] == ValueV::I64(1)
                        &&& c.on_update_now && !c.auto_increment && !c.rowversion ==> row[i]
                            == ValueV::Timestamp(fills[i].now)
                    },
                }
            }
        }),
    decreases n,
{
    if n > 0 {
        lemma_materialized(t, cells, seq, fills, (n - 1) as nat, i);
    }
}

// --- what a cell may hold ----------------------------------------------------

/// Whether a value is of a type.
pub open spec fn is_of(kind: TypeKind, v: ValueV) -> bool {
    match kind {
        TypeKind::Bool => v is Bool,
        TypeKind::I64 => v is I64,
        TypeKind::F64 => v is F64,
        TypeKind::Text => v is Text,
        TypeKind::Blob => v is Blob,
        TypeKind::Uuid => v is Uuid,
        TypeKind::Json => v is Json,
        TypeKind::Timestamp => v is Timestamp,
    }
}

/// Whether column `i` of a table takes a value: NULL where the column allows it
/// and no key is made of it, otherwise a value of the column's type, and JSON only
/// where it is well-formed.
pub open spec fn takes(t: TableV, i: int, v: ValueV, json: Option<TypeError>) -> bool {
    if v is Null {
        t.columns[i].nullable && !t.pk.contains(t.columns[i].name)
    } else {
        is_of(t.columns[i].kind, v) && (v is Json ==> json is None)
    }
}

/// Whether `e` is the error on a value that column `i` does not take.
pub open spec fn is_refusal(
    table: Seq<char>,
    t: TableV,
    i: int,
    v: ValueV,
    json: Option<TypeError>,
    e: CatalogErrorV,
) -> bool {
    let c = t.columns[i];
    if v is Null {
        e == (CatalogErrorV::NotNull { table, column: c.name })
    } else if !is_of(c.kind, v) {
        &&& e matches CatalogErrorV::TypeMismatch { table: at, column, expected, found }
        &&& at == table
        &&& column == c.name
        &&& expected == c.kind
        &&& forall|k: TypeKind| #[trigger] is_of(k, v) ==> found == k.name()
    } else {
        json matches Some(je) && e == CatalogErrorV::Type(je)
    }
}

/// A cell passes exactly where its column takes the value.
pub proof fn cells_pass_where_taken(
    table: Seq<char>,
    t: TableV,
    i: int,
    v: ValueV,
    json: Option<TypeError>,
)
    requires
        0 <= i < t.columns.len(),
    ensures
        cell_error(table, t, i, v, json) is None <==> takes(t, i, v, json),
        cell_error(table, t, i, v, json) matches Some(e) ==> is_refusal(table, t, i, v, json, e),
{
}

/// A row passes exactly where each column takes its cell; otherwise the error is
/// that of the first that does not.
pub proof fn rows_pass_where_cells_are_taken(
    t: TableV,
    row: Seq<ValueV>,
    json: Seq<Option<TypeError>>,
)
    requires
        row.len() == t.columns.len(),
    ensures
        row_error(t, row, json, 0) is None <==> (forall|i: int|
            0 <= i < row.len() ==> takes(t, i, #[trigger] row[i], json[i])),
        row_error(t, row, json, 0) matches Some(e) ==> exists|i: int|
            {
                &&& 0 <= i < row.len()
                &&& !takes(t, i, #[trigger] row[i], json[i])
                &&& is_refusal(t.name, t, i, row[i], json[i], e)
                &&& forall|k: int| 0 <= k < i ==> takes(t, k, #[trigger] row[k], json[k])
            },
{
    lemma_row_error(t, row, json, 0);
}

proof fn lemma_row_error(t: TableV, row: Seq<ValueV>, json: Seq<Option<TypeError>>, n: int)
    requires
        row.len() == t.columns.len(),
        0 <= n <= row.len(),
    ensures
        row_error(t, row, json, n) is None <==> (forall|i: int|
            n <= i < row.len() ==> takes(t, i, #[trigger] row[i], json[i])),
        row_error(t, row, json, n) matches Some(e) ==> exists|i: int|
            {
                &&& n <= i < row.len()
                &&& !takes(t, i, #[trigger] row[i], json[i])
                &&& is_refusal(t.name, t, i, row[i], json[i], e)
                &&& forall|k: int| n <= k < i ==> takes(t, k, #[trigger] row[k], json[k])
            },
    decreases row.len() - n,
{
    if n < row.len() {
        cells_pass_where_taken(t.name, t, n, row[n], json[n]);
        lemma_row_error(t, row, json, n + 1);
        if cell_error(t.name, t, n, row[n], json[n]) is None {
            if let Some(e) = row_error(t, row, json, n + 1) {
                let i = choose|i: int|
                    {
                        &&& n + 1 <= i < row.len()
                        &&& !takes(t, i, #[trigger] row[i], json[i])
                        &&& is_refusal(t.name, t, i, row[i], json[i], e)
                        &&& forall|k: int|
                            n + 1 <= k < i ==> takes(t, k, #[trigger] row[k], json[k])
                    };
                assert(!takes(t, i, row[i], json[i]));
            }
        } else {
            assert(!takes(t, n, row[n], json[n]));
        }
    }
}

// --- updates -----------------------------------------------------------------

/// Whether set `j` of an update cannot stand: no column has its name, the column
/// is part of the key or managed by the engine, or does not take the value.
pub open spec fn is_bad_set(
    t: TableV,
    sets: Seq<(Seq<char>, ValueV)>,
    json: Seq<Option<TypeError>>,
    j: int,
) -> bool {
    ||| forall|i: int| 0 <= i < t.columns.len() ==> (#[trigger] t.columns[i]).name != sets[j].0
    ||| t.pk.contains(sets[j].0)
    ||| exists|i: int|
        #[trigger] is_column(t.columns, sets[j].0, i) && (t.columns[i].rowversion
            || t.columns[i].on_update_now || !takes(t, i, sets[j].1, json[j]))
}

/// Whether `e` is the error on a set that cannot stand.
pub open spec fn is_set_refusal(
    table: Seq<char>,
    t: TableV,
    sets: Seq<(Seq<char>, ValueV)>,
    json: Seq<Option<TypeError>>,
    j: int,
    e: CatalogErrorV,
) -> bool {
    let name = sets[j].0;
    if forall|i: int| 0 <= i < t.columns.len() ==> (#[trigger] t.columns[i]).name != name {
        e == (CatalogErrorV::UnknownColumn { table, column: name })
    } else if t.pk.contains(name) {
        e == (CatalogErrorV::PkImmutable { column: name })
    } else if exists|i: int|
        #[trigger] is_column(t.columns, name, i) && (t.columns[i].rowversion
            || t.columns[i].on_update_now) {
        e == (CatalogErrorV::EngineManagedColumn { column: name })
    } else {
        exists|i: int|
            #[trigger] is_column(t.columns, name, i) && is_refusal(
                table,
                t,
                i,
                sets[j].1,
                json[j],
                e,
            )
    }
}

/// Whether set `j` is the last one of its column.
pub open spec fn is_last_set(sets: Seq<(Seq<char>, ValueV)>, j: int) -> bool {
    &&& 0 <= j < sets.len()
    &&& forall|k: int| j < k < sets.len() ==> (#[trigger] sets[k]).0 != sets[j].0
}

proof fn lemma_set_all(
    table: Seq<char>,
    t: TableV,
    row: Seq<ValueV>,
    sets: Seq<(Seq<char>, ValueV)>,
    json: Seq<Option<TypeError>>,
)
    requires
        row.len() == t.columns.len(),
    ensures
        match set_all(table, t, row, sets, json) {
            Ok(cells) => {
                &&& cells.len() == row.len()
                &&& forall|j: int|
                    0 <= j < sets.len() ==> !(#[trigger] is_bad_set(t, sets, json, j))
                &&& forall|j: int, i: int|
                    #[trigger] is_last_set(sets, j) && #[trigger] is_column(t.columns, sets[j].0, i)
                        ==> cells[i] == sets[j].1
                &&& forall|i: int|
                    0 <= i < row.len() && (forall|j: int|
                        0 <= j < sets.len() ==> !is_column(t.columns, (#[trigger] sets[j]).0, i))
                        ==> (#[trigger] cells[i]) == row[i]
            },
            Err(e) => exists|j: int|
                {
                    &&& 0 <= j < sets.len()
                    &&& #[trigger] is_bad_set(t, sets, json, j)
                    &&& is_set_refusal(table, t, sets, json, j, e)
                    &&& forall|k: int| 0 <= k < j ==> !(#[trigger] is_bad_set(t, sets, json, k))
                },
        },
    decreases sets.len(),
{
    if sets.len() > 0 {
        let front = sets.drop_last();
        let n = sets.len() - 1;
        lemma_set_all(table, t, row, front, json);
        assert forall|j: int| 0 <= j < n implies #[trigger] is_bad_set(t, sets, json, j)
            == is_bad_set(t, front, json, j) by {
            assert(sets[j] == front[j]);
        }
        match set_all(table, t, row, front, json) {
            Err(e) => {
                let j = choose|j: int|
                    {
                        &&& 0 <= j < front.len()
                        &&& #[trigger] is_bad_set(t, front, json, j)
                        &&& is_set_refusal(table, t, front, json, j, e)
                        &&& forall|k: int| 0 <= k < j ==> !(#[trigger] is_bad_set(t, front, json, k))
                    };
                assert(sets[j] == front[j]);
                assert(is_bad_set(t, sets, json, j));
                assert(is_set_refusal(table, t, sets, json, j, e));
            },
            Ok(cells) => {
                let (name, v) = sets.last();
                assert(sets[n] == sets.last());
                columns_are_found_by_name(t.columns, name);
                match column_at(t.columns, name) {
                    None => {
                        assert(is_bad_set(t, sets, json, n));
                    },
                    Some(c) => {
                        assert(is_column(t.columns, name, c));
                        assert(t.columns[c].name == name);
                        cells_pass_where_taken(table, t, c, v, json[n]);
                        if set_all(table, t, row, sets, json) is Err {
                            assert(is_bad_set(t, sets, json, n));
                        } else {
                            lemma_set_one(t, row, sets, json, cells, c);
                        }
                    },
                }
            },
        }
    }
}

proof fn lemma_set_one(
    t: TableV,
    row: Seq<ValueV>,
    sets: Seq<(Seq<char>, ValueV)>,
    json: Seq<Option<TypeError>>,
    cells: Seq<ValueV>,
    c: int,
)
    requires
        sets.len() > 0,
        row.len() == t.columns.len(),
        cells.len() == row.len(),
        is_column(t.columns, sets.last().0, c),
        forall|j: int, i: int|
            #[trigger] is_last_set(sets.drop_last(), j) && #[trigger] is_column(
                t.columns,
                sets.drop_last()[j].0,
                i,
            ) ==> cells[i] == sets.drop_last()[j].1,
        forall|i: int|
            0 <= i < row.len() && (forall|j: int|
                0 <= j < sets.len() - 1 ==> !is_column(
                    t.columns,
                    (#[trigger] sets.drop_last()[j]).0,
                    i,
                )) ==> (#[trigger] cells[i]) == row[i],
    ensures
        ({
            let after = cells.update(c, sets.last().1);
            &&& forall|j: int, i: int|
                #[trigger] is_last_set(sets, j) && #[trigger] is_column(t.columns, sets[j].0, i)
                    ==> after[i] == sets[j].1
            &&& forall|i: int|
                0 <= i < row.len() && (forall|j: int|
                    0 <= j < sets.len() ==> !is_column(t.columns, (#[trigger] sets[j]).0, i)) ==> (
                #[trigger] after[i]) == row[i]
        }),
{
    let front = sets.drop_last();
    let n = sets.len() - 1;
    let after = cells.update(c, sets.last().1);
    assert(sets[n] == sets.last());
    columns_are_found_by_name(t.columns, sets[n].0);
    assert forall|j: int, i: int|
        #[trigger] is_last_set(sets, j) && #[trigger] is_column(t.columns, sets[j].0, i) implies after[i]
        == sets[j].1 by {
        if j < n {
            assert(sets[n].0 != sets[j].0);
            assert(front[j] == sets[j]);
            assert forall|k: int| j < k < front.len() implies (#[trigger] front[k]).0 != front[j].0 by {
                assert(sets[k] == front[k]);
            }
            assert(is_last_set(front, j));
            assert(is_column(t.columns, front[j].0, i));
            assert(t.columns[i].name == sets[j].0 && t.columns[c].name == sets[n].0);
        }
    }
    assert forall|i: int|
        0 <= i < row.len() && (forall|j: int|
            0 <= j < sets.len() ==> !is_column(t.columns, (#[trigger] sets[j]).0, i)) implies (
    #[trigger] after[i]) == row[i] by {
        assert(!is_column(t.columns, sets[n].0, i));
        assert forall|j: int| 0 <= j < front.len() implies !is_column(
            t.columns,
            (#[trigger] front[j]).0,
            i,
        ) by {
            assert(sets[j] == front[j]);
        }
        assert(cells[i] == row[i]);
    }
}

/// An update goes through exactly where every set can stand; otherwise the error
/// is that of the first that cannot.
pub proof fn rows_are_updated_by_good_sets(
    table: Seq<char>,
    t: TableV,
    row: Seq<ValueV>,
    sets: Seq<(Seq<char>, ValueV)>,
    json: Seq<Option<TypeError>>,
    now: i64,
)
    requires
        row.len() == t.columns.len(),
    ensures
        updated(table, t, row, sets, json, now) is Ok <==> (forall|j: int|
            0 <= j < sets.len() ==> !(#[trigger] is_bad_set(t, sets, json, j))),
        updated(table, t, row, sets, json, now) matches Err(e) ==> exists|j: int|
            {
                &&& 0 <= j < sets.len()
                &&& #[trigger] is_bad_set(t, sets, json, j)
                &&& is_set_refusal(table, t, sets, json, j, e)
                &&& forall|k: int| 0 <= k < j ==> !(#[trigger] is_bad_set(t, sets, json, k))
            },
{
    lemma_set_all(table, t, row, sets, json);
}

/// An updated row holds the last value set for each column, the time of the update
/// and the next version where the engine keeps them, and otherwise what it held.
pub proof fn sets_are_kept_and_the_rest_stays(
    table: Seq<char>,
    t: TableV,
    row: Seq<ValueV>,
    sets: Seq<(Seq<char>, ValueV)>,
    json: Seq<Option<TypeError>>,
    now: i64,
)
    requires
        row.len() == t.columns.len(),
        updated(table, t, row, sets, json, now) is Ok,
    ensures
        ({
            let after = updated(table, t, row, sets, json, now)->Ok_0;
            &&& after.len() == row.len()
            &&& forall|j: int|
                #[trigger] is_last_set(sets, j) ==> sits(t.columns, after, sets[j].0, sets[j].1)
            &&& forall|i: int|
                0 <= i < row.len() && (forall|j: int|
                    0 <= j < sets.len() ==> !is_column(t.columns, (#[trigger] sets[j]).0, i)) ==> {
                    let c = t.columns[i];
                    &&& c.on_update_now ==> #[trigger] after[i] == ValueV::Timestamp(now)
                    &&& !c.on_update_now && c.rowversion ==> match row[i] {
                        ValueV::I64(n) => after[i] == ValueV::I64(
                            if n == i64::MAX {
                                n
                            } else {
                                (n + 1) as i64
                            },
                        ),
                        _ => after[i] == ValueV::I64(1),
                    }
                    &&& !c.on_update_now && !c.rowversion ==> after[i] == row[i]
                }
        }),
{
    lemma_set_all(table, t, row, sets, json);
    let after = updated(table, t, row, sets, json, now)->Ok_0;
    let cells = set_all(table, t, row, sets, json)->Ok_0;
    assert forall|j: int| #[trigger] is_last_set(sets, j) implies sits(
        t.columns,
        after,
        sets[j].0,
        sets[j].1,
    ) by {
        assert(!is_bad_set(t, sets, json, j));
        columns_are_found_by_name(t.columns, sets[j].0);
        let c = column_at(t.columns, sets[j].0)->Some_0;
        assert(is_column(t.columns, sets[j].0, c));
        assert(cells[c] == sets[j].1);
        assert(after[c] == sets[j].1);
    }
    assert forall|i: int| 0 <= i < row.len() && (forall|j: int|
        0 <= j < sets.len() ==> !is_column(t.columns, (#[trigger] sets[j]).0, i)) implies {
        let c = t.columns[i];
        &&& c.on_update_now ==> #[trigger] after[i] == ValueV::Timestamp(now)
        &&& !c.on_update_now && c.rowversion ==> match row[i] {
            ValueV::I64(n) => after[i] == ValueV::I64(
                if n == i64::MAX {
                    n
                } else {
                    (n + 1) as i64
                },
            ),
            _ => after[i] == ValueV::I64(1),
        }
        &&& !c.on_update_now && !c.rowversion ==> after[i] == row[i]
    } by {
        assert(cells[i] == row[i]);
    }
}

// --- keys and stored rows ----------------------------------------------------

/// The key of a row is made of its cells under the key's columns, in the key's
/// order.
pub proof fn keys_are_made_of_key_columns(t: TableV, row: Seq<ValueV>)
    requires
        row.len() == t.columns.len(),
        forall|k: int|
            0 <= k < t.pk.len() ==> has_column(t.columns, #[trigger] t.pk[k]),
    ensures
        key_cells(t, row, t.pk.len()).len() == t.pk.len(),
        forall|k: int|
            0 <= k < t.pk.len() ==> sits(
                t.columns,
                row,
                #[trigger] t.pk[k],
                key_cells(t, row, t.pk.len())[k],
            ),
{
    lemma_key_cells(t, row, t.pk.len());
}

proof fn lemma_key_cells(t: TableV, row: Seq<ValueV>, n: nat)
    requires
        n <= t.pk.len(),
        row.len() == t.columns.len(),
        forall|k: int|
            0 <= k < t.pk.len() ==> has_column(t.columns, #[trigger] t.pk[k]),
    ensures
        key_cells(t, row, n).len() == n,
        forall|k: int|
            0 <= k < n ==> sits(t.columns, row, #[trigger] t.pk[k], key_cells(t, row, n)[k]),
    decreases n,
{
    if n > 0 {
        lemma_key_cells(t, row, (n - 1) as nat);
        columns_are_found_by_name(t.columns, t.pk[n - 1]);
        let i = choose|i: int| #[trigger] is_column(t.columns, t.pk[n - 1], i);
        assert(is_column(t.columns, t.pk[n - 1], i));
        let rest = key_cells(t, row, (n - 1) as nat);
        assert(key_cells(t, row, n) == rest.push(row[i]));
        assert forall|k: int| 0 <= k < n implies sits(
            t.columns,
            row,
            #[trigger] t.pk[k],
            key_cells(t, row, n)[k],
        ) by {
            if k < n - 1 {
                assert(sits(t.columns, row, t.pk[k], rest[k]));
            }
        }
    }
}

/// Key values pass exactly where there is one for each column of the key and each
/// column takes its own.
pub proof fn keys_pass_where_taken(
    table: Seq<char>,
    t: TableV,
    pk: Seq<ValueV>,
    json: Seq<Option<TypeError>>,
)
    ensures
        key_values_error(table, t, pk, json) is None <==> (pk.len() == t.pk.len() && forall|
            k: int,
            i: int,
        |
            0 <= k < pk.len() && #[trigger] is_column(t.columns, #[trigger] t.pk[k], i) ==> takes(
                t,
                i,
                pk[k],
                json[k],
            )),
        pk.len() != t.pk.len() ==> key_values_error(table, t, pk, json) == Some(
            CatalogErrorV::InvalidSchema {
                reason: "primary key takes "@ + decimal(t.pk.len()) + " value(s), got "@ + decimal(
                    pk.len(),
                ),
            },
        ),
        pk.len() == t.pk.len() ==> (key_values_error(table, t, pk, json) matches Some(e) ==> exists|
            k: int,
            i: int,
        |
            {
                &&& 0 <= k < pk.len()
                &&& #[trigger] is_column(t.columns, #[trigger] t.pk[k], i)
                &&& is_refusal(table, t, i, pk[k], json[k], e)
            }),
{
    if pk.len() == t.pk.len() {
        lemma_given_key(table, t, pk, json, 0);
    }
}

proof fn lemma_given_key(
    table: Seq<char>,
    t: TableV,
    pk: Seq<ValueV>,
    json: Seq<Option<TypeError>>,
    n: int,
)
    requires
        pk.len() == t.pk.len(),
        0 <= n <= pk.len(),
    ensures
        given_key_error(table, t, pk, json, n) is None <==> (forall|k: int, i: int|
            n <= k < pk.len() && #[trigger] is_column(t.columns, #[trigger] t.pk[k], i) ==> takes(
                t,
                i,
                pk[k],
                json[k],
            )),
        given_key_error(table, t, pk, json, n) matches Some(e) ==> exists|k: int, i: int|
            {
                &&& n <= k < pk.len()
                &&& #[trigger] is_column(t.columns, #[trigger] t.pk[k], i)
                &&& is_refusal(table, t, i, pk[k], json[k], e)
            },
    decreases pk.len() - n,
{
    if n < pk.len() {
        lemma_given_key(table, t, pk, json, n + 1);
        columns_are_found_by_name(t.columns, t.pk[n]);
        if let Some(c) = column_at(t.columns, t.pk[n]) {
            assert(is_column(t.columns, t.pk[n], c));
            cells_pass_where_taken(table, t, c, pk[n], json[n]);
        }
    }
}

/// A stored row is read back as it was written. One written before columns were
/// appended is filled up with their constant defaults, and NULL where there is
/// none; one wider than the table is refused.
pub proof fn stored_rows_are_filled_up(t: TableV, stored: Seq<ValueV>)
    ensures
        read_row(t, Ok(stored)) is Ok <==> stored.len() <= t.columns.len(),
        stored.len() > t.columns.len() ==> read_row(t, Ok(stored)) == Err::<
            Seq<ValueV>,
            CatalogErrorV,
        >(CatalogErrorV::Corrupt(CatalogCorruption::RowWiderThanSchema)),
        stored.len() == t.columns.len() ==> read_row(t, Ok(stored)) == Ok::<
            Seq<ValueV>,
            CatalogErrorV,
        >(stored),
        read_row(t, Ok(stored)) matches Ok(row) ==> {
            &&& row.len() == t.columns.len()
            &&& forall|i: int| 0 <= i < stored.len() ==> #[trigger] row[i] == stored[i]
            &&& forall|i: int|
                stored.len() <= i < row.len() ==> {
                    &&& t.columns[i].default matches Some(DefaultV::Value(v)) ==> #[trigger] row[i]
                        == v
                    &&& !(t.columns[i].default matches Some(DefaultV::Value(_))) ==> row[i] is Null
                }
        },
        forall|e: TypeError|
            #[trigger] read_row(t, Err(e)) == Err::<Seq<ValueV>, CatalogErrorV>(
                CatalogErrorV::Type(e),
            ),
{
    if stored.len() == t.columns.len() {
        assert(read_row(t, Ok(stored))->Ok_0 =~= stored);
    }
}

/// The cells of some names are those under their columns, in order, and NULL where
/// the row has no such cell.
pub proof fn named_cells_sit_under_their_columns(
    t: TableV,
    row: Seq<ValueV>,
    names: Seq<Seq<char>>,
    k: int,
)
    requires
        0 <= k < names.len(),
    ensures
        cells_named(t, row, names).len() == names.len(),
        forall|v: ValueV|
            #[trigger] sits(t.columns, row, names[k], v) ==> cells_named(t, row, names)[k] == v,
        (forall|v: ValueV| !(#[trigger] sits(t.columns, row, names[k], v))) ==> cells_named(
            t,
            row,
            names,
        )[k] is Null,
{
    assert forall|v: ValueV| #[trigger] sits(t.columns, row, names[k], v) <==> cell_named(
        t,
        row,
        names[k],
    ) == Some(v) by {
        cells_sit_under_their_columns(t, row, names[k], v);
    }
    if let Some(v) = cell_named(t, row, names[k]) {
        assert(sits(t.columns, row, names[k], v));
    }
}

} // verus!
