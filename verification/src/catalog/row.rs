//! Rows: how they are materialized, checked, updated, padded and keyed.

use vstd::prelude::*;
use vstd::string::StringExecFns;
use super::check::{cell_named, find_cell};
use super::error::{passes, CatalogCorruption, CatalogError, CatalogErrorV, Res, Result};
use super::schema::{
    column_at, lemma_column_at, ColumnDef, ColumnV, DefaultSpec, DefaultV, IndexDef, TableDef,
    TableV,
};
use crate::text::{decimal, push_decimal};
use crate::value::{copy_row, values, TypeError, Value, ValueV};
use crate::views::{opt, views};

verus! {

/// A named cell.
pub type Cell = (String, Value);

/// What named cells hold.
pub open spec fn cell_views(cells: Seq<Cell>) -> Seq<(Seq<char>, ValueV)> {
    Seq::new(cells.len(), |i: int| (cells[i].0@, cells[i].1@))
}

/// The error of a row, by views.
pub open spec fn row_agrees(r: Result<Vec<Value>>, want: Res<Seq<ValueV>>) -> bool {
    match r {
        Ok(row) => want == Ok::<Seq<ValueV>, CatalogErrorV>(values(row@)),
        Err(e) => want == Err::<Seq<ValueV>, CatalogErrorV>(e@),
    }
}

// --- cell checks -------------------------------------------------------------

/// The rule that a cell of column `i` breaks, if it breaks one. `json` is the
/// value layer's error on a JSON cell that is not well-formed.
pub open spec fn cell_error(
    table: Seq<char>,
    t: TableV,
    i: int,
    v: ValueV,
    json: Option<TypeError>,
) -> Option<CatalogErrorV> {
    if i < 0 || i >= t.columns.len() {
        None
    } else {
        let c = t.columns[i];
        match v.kind() {
            None => if t.may_be_null(i) {
                None
            } else {
                Some(CatalogErrorV::NotNull { table, column: c.name })
            },
            Some(kind) => if kind != c.kind {
                Some(
                    CatalogErrorV::TypeMismatch {
                        table,
                        column: c.name,
                        expected: c.kind,
                        found: kind.name(),
                    },
                )
            } else if v is Json {
                match json {
                    Some(e) => Some(CatalogErrorV::Type(e)),
                    None => None,
                }
            } else {
                None
            },
        }
    }
}

/// NOT NULL and declared-type check (including JSON well-formedness) for one
/// cell.
pub fn check_cell_type(
    table: &str,
    def: &TableDef,
    ci: usize,
    value: &Value,
    json: &Option<TypeError>,
) -> (r: Result<()>)
    ensures
        passes(r, cell_error(table@, def@, ci as int, value@, *json)),
{
    assert(def@.columns.len() == def.columns@.len());
    if ci >= def.columns.len() {
        return Ok(());
    }
    let col = &def.columns[ci];
    assert(def@.columns[ci as int] == col@);
    match value.kind() {
        None => if def.is_nullable(ci) {
            Ok(())
        } else {
            Err(CatalogError::NotNull { table: table.to_owned(), column: col.name.clone() })
        },
        Some(kind) => {
            if kind != col.kind {
                return Err(
                    CatalogError::TypeMismatch {
                        table: table.to_owned(),
                        column: col.name.clone(),
                        expected: col.kind,
                        found: kind.as_str().to_owned(),
                    },
                );
            }
            match value {
                Value::Json(_) => match json {
                    Some(e) => Err(CatalogError::Type(e.copy())),
                    None => Ok(()),
                },
                _ => Ok(()),
            }
        },
    }
}

/// The first rule that the cells of a row from column `i` on break.
pub open spec fn row_error(
    t: TableV,
    row: Seq<ValueV>,
    json: Seq<Option<TypeError>>,
    i: int,
) -> Option<CatalogErrorV>
    decreases row.len() - i,
{
    if i < 0 || i >= row.len() {
        None
    } else {
        match cell_error(t.name, t, i, row[i], json[i]) {
            Some(e) => Some(e),
            None => row_error(t, row, json, i + 1),
        }
    }
}

/// Type-check every cell of a full row. `json` holds, for each cell, the value
/// layer's error on a JSON cell that is not well-formed.
pub fn check_row(def: &TableDef, row: &Vec<Value>, json: &Vec<Option<TypeError>>) -> (r: Result<()>)
    requires
        json@.len() == row@.len(),
    ensures
        passes(r, row_error(def@, values(row@), json@, 0)),
{
    let ghost cells = values(row@);
    let mut i: usize = 0;
    while i < row.len()
        invariant
            i <= row@.len(),
            cells == values(row@),
            json@.len() == row@.len(),
            row_error(def@, cells, json@, 0) == row_error(def@, cells, json@, i as int),
        decreases row@.len() - i,
    {
        assert(cells[i as int] == row@[i as int]@);
        match check_cell_type(def.name.as_str(), def, i, &row[i], &json[i]) {
            Ok(_) => {},
            Err(e) => {
                return Err(e);
            },
        }
        i = i + 1;
    }
    Ok(())
}

// --- row construction --------------------------------------------------------

/// What a generated cell can be filled with: the time and a fresh UUID.
#[derive(Debug, Clone, Copy, PartialEq, Eq)]
pub struct Fill {
    /// The current time, in microseconds.
    pub now: i64,
    /// A fresh time-ordered UUID.
    pub uuid: [u8; 16],
}

/// The next integer, or the largest.
pub open spec fn next_up(n: i64) -> i64 {
    if n < i64::MAX {
        (n + 1) as i64
    } else {
        n
    }
}

fn bump(n: i64) -> (r: i64)
    ensures
        r == next_up(n),
{
    if n < i64::MAX {
        n + 1
    } else {
        n
    }
}

/// The cells that the provided ones make up, by column; or the first that cannot
/// be placed.
pub open spec fn placed(t: TableV, provided: Seq<(Seq<char>, ValueV)>) -> Res<Seq<Option<ValueV>>>
    decreases provided.len(),
{
    if provided.len() == 0 {
        Ok(Seq::new(t.columns.len(), |i: int| None))
    } else {
        match placed(t, provided.drop_last()) {
            Err(e) => Err(e),
            Ok(cells) => {
                let (name, v) = provided.last();
                match column_at(t.columns, name) {
                    None => Err(CatalogErrorV::UnknownColumn { table: t.name, column: name }),
                    Some(i) => if t.columns[i].rowversion || t.columns[i].on_update_now {
                        Err(CatalogErrorV::EngineManagedColumn { column: name })
                    } else if cells[i] is Some {
                        Err(CatalogErrorV::DuplicateColumn { column: name })
                    } else {
                        Ok(cells.update(i, Some(v)))
                    },
                }
            },
        }
    }
}

/// The cell of a column on insert, and the next auto-increment value after it.
pub open spec fn filled(c: ColumnV, given: Option<ValueV>, seq: i64, fill: Fill) -> (ValueV, i64) {
    match given {
        Some(v) => (
            v,
            match v {
                ValueV::I64(n) => if c.auto_increment && next_up(n) > seq {
                    next_up(n)
                } else {
                    seq
                },
                _ => seq,
            },
        ),
        None => if c.auto_increment {
            (ValueV::I64(seq), next_up(seq))
        } else if c.rowversion {
            (ValueV::I64(1), seq)
        } else if c.on_update_now {
            (ValueV::Timestamp(fill.now), seq)
        } else {
            (
                match c.default {
                    Some(DefaultV::Value(v)) => v,
                    Some(DefaultV::Now) => ValueV::Timestamp(fill.now),
                    Some(DefaultV::UuidV7) => ValueV::Uuid(fill.uuid@),
                    None => ValueV::Null,
                },
                seq,
            )
        },
    }
}

/// The first `n` cells of a row on insert, and the next auto-increment value
/// after them.
pub open spec fn materialized(
    t: TableV,
    cells: Seq<Option<ValueV>>,
    seq: i64,
    fills: Seq<Fill>,
    n: nat,
) -> (Seq<ValueV>, i64)
    decreases n,
{
    if n == 0 {
        (Seq::empty(), seq)
    } else {
        let (row, s) = materialized(t, cells, seq, fills, (n - 1) as nat);
        let (v, s1) = filled(t.columns[n - 1], cells[n - 1], s, fills[n - 1]);
        (row.push(v), s1)
    }
}

/// What inserting the provided cells materializes: the full row and the next
/// auto-increment value.
pub open spec fn built(
    t: TableV,
    provided: Seq<(Seq<char>, ValueV)>,
    seq: i64,
    fills: Seq<Fill>,
) -> Res<(Seq<ValueV>, i64)> {
    match placed(t, provided) {
        Err(e) => Err(e),
        Ok(cells) => Ok(materialized(t, cells, seq, fills, t.columns.len())),
    }
}

proof fn lemma_placed_len(t: TableV, provided: Seq<(Seq<char>, ValueV)>)
    ensures
        placed(t, provided) matches Ok(cells) ==> cells.len() == t.columns.len(),
    decreases provided.len(),
{
    if provided.len() > 0 {
        lemma_placed_len(t, provided.drop_last());
        lemma_column_at(t.columns, provided.last().0);
    }
}

/// What optional cells hold.
spec fn slot_views(cells: Seq<Option<Value>>) -> Seq<Option<ValueV>> {
    Seq::new(cells.len(), |i: int| opt(cells[i]))
}

fn place(def: &TableDef, provided: Vec<Cell>) -> (r: Result<Vec<Option<Value>>>)
    ensures
        match r {
            Ok(cells) => placed(def@, cell_views(provided@)) == Ok::<
                Seq<Option<ValueV>>,
                CatalogErrorV,
            >(slot_views(cells@)),
            Err(e) => placed(def@, cell_views(provided@)) == Err::<
                Seq<Option<ValueV>>,
                CatalogErrorV,
            >(e@),
        },
{
    let ghost given = cell_views(provided@);
    let ghost t = def@;
    let mut cells: Vec<Option<Value>> = Vec::new();
    let mut k: usize = 0;
    while k < def.columns.len()
        invariant
            k <= def.columns@.len(),
            cells@.len() == k,
            forall|j: int| 0 <= j < k ==> #[trigger] cells@[j] is None,
        decreases def.columns@.len() - k,
    {
        cells.push(None);
        k = k + 1;
    }
    assert(slot_views(cells@) =~= Seq::new(t.columns.len(), |i: int| None));
    assert(given.take(0) =~= Seq::empty());
    let mut i: usize = 0;
    while i < provided.len()
        invariant
            i <= provided@.len(),
            t == def@,
            given == cell_views(provided@),
            cells@.len() == t.columns.len(),
            t.columns.len() == def.columns@.len(),
            placed(t, given.take(i as int)) == Ok::<Seq<Option<ValueV>>, CatalogErrorV>(
                slot_views(cells@),
            ),
        decreases provided@.len() - i,
    {
        let name = &provided[i].0;
        let ghost upto = given.take(i + 1);
        proof {
            assert(upto.drop_last() =~= given.take(i as int));
            assert(upto.last() == (name@, provided@[i as int].1@));
            lemma_column_at(t.columns, name@);
            if placed(t, upto) is Err {
                lemma_placed_err(t, given, i + 1);
            }
        }
        let ci = match def.col_index(name.as_str()) {
            None => {
                return Err(
                    CatalogError::UnknownColumn { table: def.name.clone(), column: name.clone() },
                );
            },
            Some(ci) => ci,
        };
        let col = &def.columns[ci];
        assert(t.columns[ci as int] == col@);
        if col.rowversion || col.on_update_now {
            return Err(CatalogError::EngineManagedColumn { column: name.clone() });
        }
        assert(slot_views(cells@)[ci as int] == opt(cells@[ci as int]));
        if cells[ci].is_some() {
            return Err(CatalogError::DuplicateColumn { column: name.clone() });
        }
        let ghost before = cells@;
        let v = provided[i].1.copy();
        cells.set(ci, Some(v));
        assert(slot_views(cells@) =~= slot_views(before).update(ci as int, Some(v@)));
        i = i + 1;
    }
    assert(given.take(i as int) =~= given);
    Ok(cells)
}

proof fn lemma_placed_err(t: TableV, given: Seq<(Seq<char>, ValueV)>, n: int)
    requires
        0 <= n <= given.len(),
        placed(t, given.take(n)) is Err,
    ensures
        placed(t, given) == placed(t, given.take(n)),
    decreases given.len() - n,
{
    if n == given.len() {
        assert(given.take(n) =~= given);
    } else {
        assert(given.take(n + 1).drop_last() =~= given.take(n));
        lemma_placed_err(t, given, n + 1);
    }
}

fn fill_cell(c: &ColumnDef, given: &Option<Value>, seq: i64, fill: &Fill) -> (r: (Value, i64))
    ensures
        (r.0@, r.1) == filled(c@, opt(*given), seq, *fill),
{
    match given {
        Some(v) => {
            let next = match v {
                Value::I64(n) => if c.auto_increment && bump(*n) > seq {
                    bump(*n)
                } else {
                    seq
                },
                _ => seq,
            };
            (v.copy(), next)
        },
        None => {
            if c.auto_increment {
                (Value::I64(seq), bump(seq))
            } else if c.rowversion {
                (Value::I64(1), seq)
            } else if c.on_update_now {
                (Value::Timestamp(fill.now), seq)
            } else {
                let v = match &c.default {
                    Some(d) => match d {
                        DefaultSpec::Value(v) => v.copy(),
                        DefaultSpec::Now => Value::Timestamp(fill.now),
                        DefaultSpec::UuidV7 => Value::Uuid(fill.uuid),
                    },
                    None => Value::Null,
                };
                (v, seq)
            }
        },
    }
}

/// Materialize a full row from the provided columns: fill defaults and generated
/// values. `fills` holds, for each column, what a generated cell there is filled
/// with. The cells are not type-checked yet: a row with a NULL or mistyped cell is built
/// too, and [`check_row`] refuses it, once the type layer has said of each JSON cell of
/// the built row whether it is well formed.
pub fn build_row(
    def: &TableDef,
    provided: Vec<Cell>,
    seq: &mut i64,
    fills: &Vec<Fill>,
) -> (r: Result<Vec<Value>>)
    requires
        fills@.len() == def@.columns.len(),
    ensures
        match r {
            Ok(row) => built(def@, cell_views(provided@), *old(seq), fills@) == Ok::<
                (Seq<ValueV>, i64),
                CatalogErrorV,
            >((values(row@), *final(seq))),
            Err(e) => built(def@, cell_views(provided@), *old(seq), fills@) == Err::<
                (Seq<ValueV>, i64),
                CatalogErrorV,
            >(e@) && *final(seq) == *old(seq),
        },
{
    let ghost t = def@;
    let cells = match place(def, provided) {
        Ok(cells) => cells,
        Err(e) => {
            return Err(e);
        },
    };
    let ghost slots = slot_views(cells@);
    proof {
        lemma_placed_len(t, cell_views(provided@));
        assert(t.columns.len() == def.columns@.len());
    }
    let mut row: Vec<Value> = Vec::new();
    let mut next: i64 = *seq;
    let mut i: usize = 0;
    assert(values(row@) =~= Seq::empty());
    while i < def.columns.len()
        invariant
            i <= def.columns@.len(),
            t == def@,
            slots == slot_views(cells@),
            cells@.len() == t.columns.len(),
            t.columns.len() == def.columns@.len(),
            fills@.len() == t.columns.len(),
            (values(row@), next) == materialized(t, slots, *old(seq), fills@, i as nat),
        decreases def.columns@.len() - i,
    {
        assert(t.columns[i as int] == def.columns@[i as int]@);
        assert(slots[i as int] == opt(cells@[i as int]));
        let ghost before = row@;
        let (v, after) = fill_cell(&def.columns[i], &cells[i], next, &fills[i]);
        row.push(v);
        assert(values(row@) =~= values(before).push(v@));
        next = after;
        i = i + 1;
    }
    *seq = next;
    Ok(row)
}

/// Building a row moves the sequence past every auto-increment key in it, and
/// never back; so a key generated later is greater than all of them, until the
/// sequence reaches the largest integer.
pub proof fn generated_keys_are_new(
    t: TableV,
    cells: Seq<Option<ValueV>>,
    seq: i64,
    fills: Seq<Fill>,
    n: nat,
)
    requires
        n <= t.columns.len(),
    ensures
        ({
            let (row, next) = materialized(t, cells, seq, fills, n);
            &&& seq <= next
            &&& row.len() == n
            &&& forall|i: int|
                0 <= i < n && t.columns[i].auto_increment ==> (#[trigger] row[i] matches ValueV::I64(
                    k,
                ) ==> k < next || next == i64::MAX)
        }),
    decreases n,
{
    if n > 0 {
        generated_keys_are_new(t, cells, seq, fills, (n - 1) as nat);
    }
}

// --- updates -----------------------------------------------------------------

/// A row after absolute sets, or the first that is refused.
pub open spec fn set_all(
    table: Seq<char>,
    t: TableV,
    row: Seq<ValueV>,
    sets: Seq<(Seq<char>, ValueV)>,
    json: Seq<Option<TypeError>>,
) -> Res<Seq<ValueV>>
    decreases sets.len(),
{
    if sets.len() == 0 {
        Ok(row)
    } else {
        match set_all(table, t, row, sets.drop_last(), json) {
            Err(e) => Err(e),
            Ok(cells) => {
                let (name, v) = sets.last();
                match column_at(t.columns, name) {
                    None => Err(CatalogErrorV::UnknownColumn { table, column: name }),
                    Some(i) => if t.is_key(i) {
                        Err(CatalogErrorV::PkImmutable { column: name })
                    } else if t.columns[i].rowversion || t.columns[i].on_update_now {
                        Err(CatalogErrorV::EngineManagedColumn { column: name })
                    } else {
                        match cell_error(table, t, i, v, json[sets.len() - 1]) {
                            Some(e) => Err(e),
                            None => Ok(
                                if i < cells.len() {
                                    cells.update(i, v)
                                } else {
                                    cells
                                },
                            ),
                        }
                    },
                }
            },
        }
    }
}

/// A cell after the engine-managed bump of an update: a row version goes up by
/// one (or starts at 1), a refreshed timestamp becomes `now`.
pub open spec fn refreshed(c: ColumnV, v: ValueV, now: i64) -> ValueV {
    if c.on_update_now {
        ValueV::Timestamp(now)
    } else if c.rowversion {
        match v {
            ValueV::I64(n) => ValueV::I64(next_up(n)),
            _ => ValueV::I64(1),
        }
    } else {
        v
    }
}

/// A row after the engine-managed bumps of an update.
pub open spec fn refreshed_row(t: TableV, row: Seq<ValueV>, now: i64) -> Seq<ValueV> {
    Seq::new(
        row.len(),
        |i: int|
            if i < t.columns.len() {
                refreshed(t.columns[i], row[i], now)
            } else {
                row[i]
            },
    )
}

/// A row after an update: the sets applied in order, then the engine-managed
/// bumps.
pub open spec fn updated(
    table: Seq<char>,
    t: TableV,
    row: Seq<ValueV>,
    sets: Seq<(Seq<char>, ValueV)>,
    json: Seq<Option<TypeError>>,
    now: i64,
) -> Res<Seq<ValueV>> {
    match set_all(table, t, row, sets, json) {
        Err(e) => Err(e),
        Ok(cells) => Ok(refreshed_row(t, cells, now)),
    }
}

proof fn lemma_set_all_err(
    table: Seq<char>,
    t: TableV,
    row: Seq<ValueV>,
    sets: Seq<(Seq<char>, ValueV)>,
    json: Seq<Option<TypeError>>,
    n: int,
)
    requires
        0 <= n <= sets.len(),
        set_all(table, t, row, sets.take(n), json) is Err,
    ensures
        set_all(table, t, row, sets, json) == set_all(table, t, row, sets.take(n), json),
    decreases sets.len() - n,
{
    if n == sets.len() {
        assert(sets.take(n) =~= sets);
    } else {
        assert(sets.take(n + 1).drop_last() =~= sets.take(n));
        lemma_set_all_err(table, t, row, sets, json, n + 1);
    }
}

/// Apply an absolute `sets` list to a copy of `old_row`, then run the
/// engine-managed bumps (rowversion +1, `on_update: now`). Rejects writes to
/// primary-key and engine-managed columns and type-checks each set cell. `json`
/// holds, for each set, the value layer's error on a JSON value that is not
/// well-formed.
pub fn transform_row(
    table: &str,
    def: &TableDef,
    old_row: &Vec<Value>,
    sets: Vec<Cell>,
    json: &Vec<Option<TypeError>>,
    now: i64,
) -> (r: Result<Vec<Value>>)
    requires
        json@.len() == sets@.len(),
    ensures
        row_agrees(
            r,
            updated(table@, def@, values(old_row@), cell_views(sets@), json@, now),
        ),
{
    let ghost t = def@;
    let ghost given = cell_views(sets@);
    let ghost start = values(old_row@);
    let mut row = copy_row(old_row);
    let mut i: usize = 0;
    assert(given.take(0) =~= Seq::empty());
    while i < sets.len()
        invariant
            i <= sets@.len(),
            t == def@,
            given == cell_views(sets@),
            start == values(old_row@),
            json@.len() == sets@.len(),
            set_all(table@, t, start, given.take(i as int), json@) == Ok::<
                Seq<ValueV>,
                CatalogErrorV,
            >(values(row@)),
        decreases sets@.len() - i,
    {
        let name = &sets[i].0;
        let ghost upto = given.take(i + 1);
        proof {
            assert(upto.drop_last() =~= given.take(i as int));
            assert(upto.last() == (name@, sets@[i as int].1@));
            lemma_column_at(t.columns, name@);
            if set_all(table@, t, start, upto, json@) is Err {
                lemma_set_all_err(table@, t, start, given, json@, i + 1);
            }
        }
        let ci = match def.col_index(name.as_str()) {
            None => {
                return Err(
                    CatalogError::UnknownColumn { table: table.to_owned(), column: name.clone() },
                );
            },
            Some(ci) => ci,
        };
        let col = &def.columns[ci];
        assert(t.columns[ci as int] == col@);
        if def.is_pk(ci) {
            return Err(CatalogError::PkImmutable { column: name.clone() });
        }
        if col.rowversion || col.on_update_now {
            return Err(CatalogError::EngineManagedColumn { column: name.clone() });
        }
        match check_cell_type(table, def, ci, &sets[i].1, &json[i]) {
            Ok(_) => {},
            Err(e) => {
                return Err(e);
            },
        }
        assert(values(row@).len() == row@.len());
        if ci < row.len() {
            let ghost before = row@;
            let v = sets[i].1.copy();
            row.set(ci, v);
            assert(values(row@) =~= values(before).update(ci as int, v@));
        }
        i = i + 1;
    }
    assert(given.take(i as int) =~= given);
    let ghost cells = values(row@);
    let mut j: usize = 0;
    while j < row.len() && j < def.columns.len()
        invariant
            j <= row@.len(),
            j <= def.columns@.len(),
            t == def@,
            t.columns.len() == def.columns@.len(),
            row@.len() == cells.len(),
            forall|k: int|
                0 <= k < j ==> (#[trigger] row@[k])@ == refreshed(t.columns[k], cells[k], now),
            forall|k: int| j <= k < row@.len() ==> (#[trigger] row@[k])@ == cells[k],
        decreases row@.len() - j,
    {
        let col = &def.columns[j];
        assert(t.columns[j as int] == col@);
        assert(row@[j as int]@ == cells[j as int]);
        if col.on_update_now {
            row.set(j, Value::Timestamp(now));
        } else if col.rowversion {
            let next = match &row[j] {
                Value::I64(n) => bump(*n),
                _ => 1,
            };
            row.set(j, Value::I64(next));
        }
        j = j + 1;
    }
    assert(values(row@) =~= refreshed_row(t, cells, now));
    Ok(row)
}

/// An update never changes a primary-key cell.
pub proof fn keys_are_immutable(
    table: Seq<char>,
    t: TableV,
    row: Seq<ValueV>,
    sets: Seq<(Seq<char>, ValueV)>,
    json: Seq<Option<TypeError>>,
    now: i64,
    i: int,
)
    requires
        0 <= i < row.len(),
        t.is_key(i),
        !t.columns[i].rowversion,
        !t.columns[i].on_update_now,
        updated(table, t, row, sets, json, now) is Ok,
    ensures
        updated(table, t, row, sets, json, now)->Ok_0.len() == row.len(),
        updated(table, t, row, sets, json, now)->Ok_0[i] == row[i],
{
    lemma_set_keeps(table, t, row, sets, json, i);
}

/// A successful update moves every row version up.
pub proof fn row_versions_go_up(
    table: Seq<char>,
    t: TableV,
    row: Seq<ValueV>,
    sets: Seq<(Seq<char>, ValueV)>,
    json: Seq<Option<TypeError>>,
    now: i64,
    i: int,
    version: i64,
)
    requires
        0 <= i < row.len(),
        i < t.columns.len(),
        t.columns[i].rowversion,
        !t.columns[i].on_update_now,
        row[i] == ValueV::I64(version),
        version < i64::MAX,
        updated(table, t, row, sets, json, now) is Ok,
    ensures
        updated(table, t, row, sets, json, now)->Ok_0[i] == ValueV::I64((version + 1) as i64),
{
    lemma_set_keeps(table, t, row, sets, json, i);
}

proof fn lemma_set_keeps(
    table: Seq<char>,
    t: TableV,
    row: Seq<ValueV>,
    sets: Seq<(Seq<char>, ValueV)>,
    json: Seq<Option<TypeError>>,
    i: int,
)
    requires
        0 <= i < row.len(),
        i < t.columns.len(),
        t.is_key(i) || t.columns[i].rowversion || t.columns[i].on_update_now,
        set_all(table, t, row, sets, json) is Ok,
    ensures
        set_all(table, t, row, sets, json)->Ok_0.len() == row.len(),
        set_all(table, t, row, sets, json)->Ok_0[i] == row[i],
    decreases sets.len(),
{
    if sets.len() > 0 {
        lemma_set_keeps(table, t, row, sets.drop_last(), json, i);
        lemma_column_at(t.columns, sets.last().0);
    }
}

// --- keys --------------------------------------------------------------------

/// The primary-key cells of a full row: the first `n`, in key order.
pub open spec fn key_cells(t: TableV, row: Seq<ValueV>, n: nat) -> Seq<ValueV>
    decreases n,
{
    if n == 0 || n > t.pk.len() {
        Seq::empty()
    } else {
        let rest = key_cells(t, row, (n - 1) as nat);
        match column_at(t.columns, t.pk[n - 1]) {
            None => rest,
            Some(i) => rest.push(
                if i < row.len() {
                    row[i]
                } else {
                    ValueV::Null
                },
            ),
        }
    }
}

/// The primary-key values of a full row, in key order.
pub fn pk_values(def: &TableDef, row: &Vec<Value>) -> (r: Vec<Value>)
    ensures
        values(r@) == key_cells(def@, values(row@), def@.pk.len()),
{
    let ghost t = def@;
    let ghost cells = values(row@);
    let mut out: Vec<Value> = Vec::new();
    let mut i: usize = 0;
    assert(values(out@) =~= Seq::empty());
    while i < def.pk.len()
        invariant
            i <= def.pk@.len(),
            t == def@,
            t.pk == views(def.pk@),
            cells == values(row@),
            values(out@) == key_cells(t, cells, i as nat),
        decreases def.pk@.len() - i,
    {
        assert(t.pk[i as int] == def.pk@[i as int]@);
        proof {
            lemma_column_at(t.columns, t.pk[i as int]);
        }
        let ghost before = out@;
        if let Some(ci) = def.col_index(def.pk[i].as_str()) {
            let v = if ci < row.len() {
                assert(cells[ci as int] == row@[ci as int]@);
                row[ci].copy()
            } else {
                Value::Null
            };
            out.push(v);
            assert(values(out@) =~= values(before).push(v@));
        }
        i = i + 1;
    }
    assert(t.pk.len() == def.pk@.len());
    out
}

/// The text of the arity error.
pub open spec fn arity_text(want: nat, got: nat) -> Seq<char> {
    "primary key takes "@ + decimal(want) + " value(s), got "@ + decimal(got)
}

/// The first rule that given primary-key values from `i` on break.
pub open spec fn given_key_error(
    table: Seq<char>,
    t: TableV,
    pk: Seq<ValueV>,
    json: Seq<Option<TypeError>>,
    i: int,
) -> Option<CatalogErrorV>
    decreases pk.len() - i,
{
    if i < 0 || i >= pk.len() {
        None
    } else {
        match column_at(t.columns, t.pk[i]) {
            None => given_key_error(table, t, pk, json, i + 1),
            Some(c) => match cell_error(table, t, c, pk[i], json[i]) {
                Some(e) => Some(e),
                None => given_key_error(table, t, pk, json, i + 1),
            },
        }
    }
}

/// The rule that given primary-key values break, if they break one.
pub open spec fn key_values_error(
    table: Seq<char>,
    t: TableV,
    pk: Seq<ValueV>,
    json: Seq<Option<TypeError>>,
) -> Option<CatalogErrorV> {
    if pk.len() != t.pk.len() {
        Some(CatalogErrorV::InvalidSchema { reason: arity_text(t.pk.len(), pk.len()) })
    } else {
        given_key_error(table, t, pk, json, 0)
    }
}

fn arity_reason(want: usize, got: usize) -> (r: String)
    ensures
        r@ == arity_text(want as nat, got as nat),
{
    let mut out = "primary key takes ".to_owned();
    push_decimal(&mut out, want as u64);
    out.append(" value(s), got ");
    push_decimal(&mut out, got as u64);
    out
}

/// Validate caller-supplied primary-key values (arity and kinds). `json` holds,
/// for each value, the value layer's error on a JSON value that is not
/// well-formed.
pub fn check_pk(table: &str, def: &TableDef, pk: &Vec<Value>, json: &Vec<Option<TypeError>>) -> (r:
    Result<()>)
    requires
        json@.len() == pk@.len(),
    ensures
        passes(r, key_values_error(table@, def@, values(pk@), json@)),
{
    let ghost t = def@;
    let ghost vs = values(pk@);
    assert(t.pk.len() == def.pk@.len());
    if pk.len() != def.pk.len() {
        return Err(
            CatalogError::InvalidSchema { reason: arity_reason(def.pk.len(), pk.len()) },
        );
    }
    let mut i: usize = 0;
    while i < pk.len()
        invariant
            i <= pk@.len(),
            pk@.len() == def.pk@.len(),
            json@.len() == pk@.len(),
            t == def@,
            vs == values(pk@),
            given_key_error(table@, t, vs, json@, 0) == given_key_error(
                table@,
                t,
                vs,
                json@,
                i as int,
            ),
        decreases pk@.len() - i,
    {
        assert(t.pk[i as int] == def.pk@[i as int]@);
        assert(vs[i as int] == pk@[i as int]@);
        if let Some(ci) = def.col_index(def.pk[i].as_str()) {
            match check_cell_type(table, def, ci, &pk[i], &json[i]) {
                Ok(_) => {},
                Err(e) => {
                    return Err(e);
                },
            }
        }
        i = i + 1;
    }
    Ok(())
}

// --- stored rows -------------------------------------------------------------

/// What a column reads as in a row that was written before the column was added.
pub open spec fn padding(c: ColumnV) -> ValueV {
    match c.default {
        Some(DefaultV::Value(v)) => v,
        _ => ValueV::Null,
    }
}

/// A stored row, padded to the columns of its table.
pub open spec fn padded(t: TableV, row: Seq<ValueV>) -> Seq<ValueV> {
    Seq::new(
        t.columns.len(),
        |i: int|
            if i < row.len() {
                row[i]
            } else {
                padding(t.columns[i])
            },
    )
}

/// What a stored row reads as.
pub open spec fn read_row(t: TableV, decoded: core::result::Result<Seq<ValueV>, TypeError>) -> Res<
    Seq<ValueV>,
> {
    match decoded {
        Err(e) => Err(CatalogErrorV::Type(e)),
        Ok(row) => if row.len() > t.columns.len() {
            Err(CatalogErrorV::Corrupt(CatalogCorruption::RowWiderThanSchema))
        } else {
            Ok(padded(t, row))
        },
    }
}

/// What decoded values hold.
pub open spec fn decoded_view(d: core::result::Result<Vec<Value>, TypeError>) -> core::result::Result<
    Seq<ValueV>,
    TypeError,
> {
    match d {
        Ok(row) => Ok(values(row@)),
        Err(e) => Err(e),
    }
}

/// Pad a decoded stored row with trailing columns added after it was written
/// (constant default if any, else NULL).
pub fn decode_padded(def: &TableDef, decoded: core::result::Result<Vec<Value>, TypeError>) -> (r:
    Result<Vec<Value>>)
    ensures
        row_agrees(r, read_row(def@, decoded_view(decoded))),
{
    let mut row = match decoded {
        Ok(row) => row,
        Err(e) => {
            return Err(CatalogError::Type(e));
        },
    };
    let ghost t = def@;
    let ghost start = values(row@);
    assert(t.columns.len() == def.columns@.len());
    if row.len() > def.columns.len() {
        return Err(CatalogError::Corrupt(CatalogCorruption::RowWiderThanSchema));
    }
    while row.len() < def.columns.len()
        invariant
            start.len() <= row@.len() <= def.columns@.len(),
            t == def@,
            t.columns.len() == def.columns@.len(),
            values(row@) == padded(t, start).take(row@.len() as int),
        decreases def.columns@.len() - row@.len(),
    {
        let i: usize = row.len();
        assert(t.columns[i as int] == def.columns@[i as int]@);
        let v = match &def.columns[i].default {
            Some(d) => match d {
                DefaultSpec::Value(v) => v.copy(),
                _ => Value::Null,
            },
            None => Value::Null,
        };
        let ghost before = row@;
        row.push(v);
        assert(values(row@) =~= values(before).push(v@));
        assert(values(row@) =~= padded(t, start).take(row@.len() as int));
    }
    assert(values(row@) =~= padded(t, start));
    Ok(row)
}

// --- index columns -----------------------------------------------------------

/// The cell of the column with this name, or NULL.
pub open spec fn cell_or_null(t: TableV, row: Seq<ValueV>, name: Seq<char>) -> ValueV {
    match cell_named(t, row, name) {
        Some(v) => v,
        None => ValueV::Null,
    }
}

/// The cells of the columns with these names.
pub open spec fn cells_named(t: TableV, row: Seq<ValueV>, names: Seq<Seq<char>>) -> Seq<ValueV> {
    Seq::new(names.len(), |i: int| cell_or_null(t, row, names[i]))
}

/// The cells of the columns with these names; a missing one reads as NULL.
pub fn named_cells(def: &TableDef, row: &Vec<Value>, names: &Vec<String>) -> (r: Vec<Value>)
    ensures
        values(r@) == cells_named(def@, values(row@), views(names@)),
{
    let ghost vs = views(names@);
    let ghost cells = values(row@);
    let mut out: Vec<Value> = Vec::new();
    let mut i: usize = 0;
    while i < names.len()
        invariant
            i <= names@.len(),
            vs == views(names@),
            cells == values(row@),
            out@.len() == i,
            forall|j: int|
                0 <= j < i ==> (#[trigger] out@[j])@ == cell_or_null(def@, cells, vs[j]),
        decreases names@.len() - i,
    {
        assert(vs[i as int] == names@[i as int]@);
        let v = match find_cell(def, row, names[i].as_str()) {
            Some(v) => v.copy(),
            None => Value::Null,
        };
        out.push(v);
        i = i + 1;
    }
    assert(values(out@) =~= cells_named(def@, cells, vs));
    out
}

/// The values of an index's columns within a full row, in index order.
pub fn index_cols(def: &TableDef, idx: &IndexDef, row: &Vec<Value>) -> (r: Vec<Value>)
    ensures
        values(r@) == cells_named(def@, values(row@), idx@.columns),
{
    named_cells(def, row, &idx.columns)
}

} // verus!
