//! What a CHECK expression means, apart from how it is evaluated.
//!
//! An order on values is a number for each two of them: negative where the first
//! comes before the second, positive where it comes after, zero where neither
//! does. Under an order, an expression is definitely true of a row, definitely
//! false of it, or neither.

use vstd::prelude::*;
use super::check::{asked, asked_by_all, checks_violation, comparisons_in, comparisons_in_all};
use super::check::{and3, cell_named, or3, truth, truth_of_all, truth_of_any, violated, Relation};
use super::error::CatalogErrorV;
use super::schema::{column_at, lemma_column_at, CheckV, CmpOp, ColumnV, TableV};
use crate::value::ValueV;

verus! {

/// Whether column `i` is the first with this name.
pub open spec fn is_column(columns: Seq<ColumnV>, name: Seq<char>, i: int) -> bool {
    &&& 0 <= i < columns.len()
    &&& columns[i].name == name
    &&& forall|j: int| 0 <= j < i ==> (#[trigger] columns[j]).name != name
}

/// Whether some column has this name.
pub open spec fn has_column(columns: Seq<ColumnV>, name: Seq<char>) -> bool {
    exists|i: int| #[trigger] is_column(columns, name, i)
}

/// Whether `v` is what a row holds under the first column with this name.
pub open spec fn sits(
    columns: Seq<ColumnV>,
    row: Seq<ValueV>,
    name: Seq<char>,
    v: ValueV,
) -> bool {
    exists|i: int| #[trigger] is_column(columns, name, i) && i < row.len() && row[i] == v
}

/// A column is found by its name, where one has it: the first that does.
pub proof fn columns_are_found_by_name(columns: Seq<ColumnV>, name: Seq<char>)
    ensures
        forall|i: int|
            #[trigger] is_column(columns, name, i) <==> column_at(columns, name) == Some(i),
        column_at(columns, name) is None <==> (forall|i: int|
            0 <= i < columns.len() ==> (#[trigger] columns[i]).name != name),
{
    lemma_column_at(columns, name);
    assert forall|i: int| #[trigger] is_column(columns, name, i) implies column_at(columns, name)
        == Some(i) by {
        let k = column_at(columns, name)->Some_0;
        assert(columns[k].name == name && columns[i].name == name);
    }
}

/// The cell of a name is what the row holds under the first column so named.
pub proof fn cells_sit_under_their_columns(
    t: TableV,
    row: Seq<ValueV>,
    name: Seq<char>,
    v: ValueV,
)
    ensures
        cell_named(t, row, name) == Some(v) <==> sits(t.columns, row, name, v),
{
    columns_are_found_by_name(t.columns, name);
    if let Some(i) = column_at(t.columns, name) {
        assert(is_column(t.columns, name, i));
    }
}

/// What an operator asks of where two values stand in an order.
pub open spec fn holds_in_order(op: CmpOp, sign: int) -> bool {
    match op {
        CmpOp::Eq => sign == 0,
        CmpOp::Ne => sign != 0,
        CmpOp::Lt => sign < 0,
        CmpOp::Lte => sign <= 0,
        CmpOp::Gt => sign > 0,
        CmpOp::Gte => sign >= 0,
    }
}

/// Whether a relation is where two values stand in an order.
pub open spec fn is_sign(relation: Relation, sign: int) -> bool {
    &&& relation == Relation::Less <==> sign < 0
    &&& relation == Relation::Equal <==> sign == 0
    &&& relation == Relation::Greater <==> sign > 0
}

/// Whether an expression is definitely true of a row (`side`), or definitely
/// false of it (`!side`), under an order.
pub open spec fn definitely(
    c: CheckV,
    side: bool,
    t: TableV,
    row: Seq<ValueV>,
    order: spec_fn(ValueV, ValueV) -> int,
) -> bool
    decreases c,
{
    match c {
        CheckV::Cmp { col, op, value } => exists|cell: ValueV|
            {
                &&& #[trigger] sits(t.columns, row, col, cell)
                &&& !(cell is Null)
                &&& holds_in_order(op, order(cell, value)) == side
            },
        CheckV::IsNull { col } => exists|cell: ValueV|
            #[trigger] sits(t.columns, row, col, cell) && (cell is Null) == side,
        CheckV::IsNotNull { col } => exists|cell: ValueV|
            #[trigger] sits(t.columns, row, col, cell) && (cell is Null) != side,
        CheckV::And(items) => if side {
            forall|i: int|
                0 <= i < items.len() ==> definitely(#[trigger] items[i], true, t, row, order)
        } else {
            exists|i: int|
                0 <= i < items.len() && definitely(#[trigger] items[i], false, t, row, order)
        },
        CheckV::Or(items) => if side {
            exists|i: int|
                0 <= i < items.len() && definitely(#[trigger] items[i], true, t, row, order)
        } else {
            forall|i: int|
                0 <= i < items.len() ==> definitely(#[trigger] items[i], false, t, row, order)
        },
        CheckV::Not(inner) => definitely(*inner, !side, t, row, order),
    }
}

/// Whether `relations`, from `at` on, are where the compared values stand in an
/// order.
pub open spec fn answers(
    comparisons: Seq<Option<(ValueV, ValueV)>>,
    relations: Seq<Relation>,
    at: int,
    order: spec_fn(ValueV, ValueV) -> int,
) -> bool {
    forall|k: int|
        0 <= k < comparisons.len() ==> ((#[trigger] comparisons[k]) matches Some(p) ==> is_sign(
            relations[at + k],
            order(p.0, p.1),
        ))
}

proof fn lemma_answers_split(
    a: Seq<Option<(ValueV, ValueV)>>,
    b: Seq<Option<(ValueV, ValueV)>>,
    relations: Seq<Relation>,
    at: int,
    order: spec_fn(ValueV, ValueV) -> int,
)
    requires
        answers(a + b, relations, at, order),
    ensures
        answers(a, relations, at, order),
        answers(b, relations, at + a.len(), order),
{
    assert forall|k: int| 0 <= k < a.len() implies ((#[trigger] a[k]) matches Some(p) ==> is_sign(
        relations[at + k],
        order(p.0, p.1),
    )) by {
        assert((a + b)[k] == a[k]);
    }
    assert forall|k: int| 0 <= k < b.len() implies ((#[trigger] b[k]) matches Some(p) ==> is_sign(
        relations[at + a.len() + k],
        order(p.0, p.1),
    )) by {
        assert((a + b)[a.len() + k] == b[k]);
    }
}

/// An expression is found true exactly where it is definitely true, found false
/// exactly where it is definitely false, and unknown where it is neither: so a
/// conjunction is false as soon as one of its parts is, and true where all of
/// them are, whatever stands between.
pub proof fn checks_are_found_as_they_are(
    c: CheckV,
    side: bool,
    t: TableV,
    row: Seq<ValueV>,
    relations: Seq<Relation>,
    at: int,
    order: spec_fn(ValueV, ValueV) -> int,
)
    requires
        answers(asked(c, t, row), relations, at, order),
    ensures
        truth(c, t, row, relations, at) == Some(side) <==> definitely(c, side, t, row, order),
    decreases c,
{
    match c {
        CheckV::Cmp { col, op, value } => {
            lemma_the_cell(t, row, col);
            if let Some(cell) = cell_named(t, row, col) {
                assert(sits(t.columns, row, col, cell));
                if !(cell is Null) {
                    assert(asked(c, t, row)[0] == Some((cell, value)));
                    assert(is_sign(relations[at + 0], order(cell, value)));
                    assert(op.holds_of(relations[at]) == holds_in_order(op, order(cell, value)));
                }
            }
        },
        CheckV::IsNull { col } => {
            lemma_the_cell(t, row, col);
            if let Some(cell) = cell_named(t, row, col) {
                assert(sits(t.columns, row, col, cell));
            }
        },
        CheckV::IsNotNull { col } => {
            lemma_the_cell(t, row, col);
            if let Some(cell) = cell_named(t, row, col) {
                assert(sits(t.columns, row, col, cell));
            }
        },
        CheckV::And(items) => {
            lemma_all(items, t, row, relations, at, order);
        },
        CheckV::Or(items) => {
            lemma_any(items, t, row, relations, at, order);
        },
        CheckV::Not(inner) => {
            checks_are_found_as_they_are(*inner, !side, t, row, relations, at, order);
            checks_are_found_as_they_are(*inner, side, t, row, relations, at, order);
        },
    }
}

proof fn lemma_the_cell(t: TableV, row: Seq<ValueV>, col: Seq<char>)
    ensures
        match cell_named(t, row, col) {
            Some(cell) => forall|v: ValueV| #[trigger] sits(t.columns, row, col, v) <==> v == cell,
            None => forall|v: ValueV| !(#[trigger] sits(t.columns, row, col, v)),
        },
{
    assert forall|v: ValueV| #[trigger] sits(t.columns, row, col, v) <==> cell_named(t, row, col)
        == Some(v) by {
        cells_sit_under_their_columns(t, row, col, v);
    }
}

proof fn lemma_all(
    items: Seq<CheckV>,
    t: TableV,
    row: Seq<ValueV>,
    relations: Seq<Relation>,
    at: int,
    order: spec_fn(ValueV, ValueV) -> int,
)
    requires
        answers(asked_by_all(items, t, row), relations, at, order),
    ensures
        truth_of_all(items, t, row, relations, at) == Some(true) <==> (forall|i: int|
            0 <= i < items.len() ==> definitely(#[trigger] items[i], true, t, row, order)),
        truth_of_all(items, t, row, relations, at) == Some(false) <==> (exists|i: int|
            0 <= i < items.len() && definitely(#[trigger] items[i], false, t, row, order)),
    decreases items,
{
    if items.len() > 0 {
        let rest = items.drop_first();
        lemma_listed_here(items[0], t, row);
        lemma_answers_split(
            asked(items[0], t, row),
            asked_by_all(rest, t, row),
            relations,
            at,
            order,
        );
        checks_are_found_as_they_are(items[0], true, t, row, relations, at, order);
        checks_are_found_as_they_are(items[0], false, t, row, relations, at, order);
        lemma_all(rest, t, row, relations, at + comparisons_in(items[0]), order);
        assert forall|i: int| 0 <= i < rest.len() implies #[trigger] rest[i] == items[i + 1] by {}
        assert(truth_of_all(items, t, row, relations, at) == and3(
            truth(items[0], t, row, relations, at),
            truth_of_all(rest, t, row, relations, at + comparisons_in(items[0])),
        ));
        if truth_of_all(items, t, row, relations, at) == Some(true) {
            assert(truth(items[0], t, row, relations, at) == Some(true));
            assert(definitely(items[0], true, t, row, order));
            assert forall|i: int| 0 <= i < items.len() implies definitely(
                #[trigger] items[i],
                true,
                t,
                row,
                order,
            ) by {
                if i > 0 {
                    assert(items[i] == rest[i - 1]);
                    assert(definitely(rest[i - 1], true, t, row, order));
                }
            }
        }
        if exists|i: int|
            0 <= i < items.len() && definitely(#[trigger] items[i], false, t, row, order) {
            let i = choose|i: int|
                0 <= i < items.len() && definitely(#[trigger] items[i], false, t, row, order);
            assert(i > 0 ==> items[i] == rest[i - 1]);
        }
    }
}

proof fn lemma_any(
    items: Seq<CheckV>,
    t: TableV,
    row: Seq<ValueV>,
    relations: Seq<Relation>,
    at: int,
    order: spec_fn(ValueV, ValueV) -> int,
)
    requires
        answers(asked_by_all(items, t, row), relations, at, order),
    ensures
        truth_of_any(items, t, row, relations, at) == Some(false) <==> (forall|i: int|
            0 <= i < items.len() ==> definitely(#[trigger] items[i], false, t, row, order)),
        truth_of_any(items, t, row, relations, at) == Some(true) <==> (exists|i: int|
            0 <= i < items.len() && definitely(#[trigger] items[i], true, t, row, order)),
    decreases items,
{
    if items.len() > 0 {
        let rest = items.drop_first();
        lemma_listed_here(items[0], t, row);
        lemma_answers_split(
            asked(items[0], t, row),
            asked_by_all(rest, t, row),
            relations,
            at,
            order,
        );
        checks_are_found_as_they_are(items[0], true, t, row, relations, at, order);
        checks_are_found_as_they_are(items[0], false, t, row, relations, at, order);
        lemma_any(rest, t, row, relations, at + comparisons_in(items[0]), order);
        assert forall|i: int| 0 <= i < rest.len() implies #[trigger] rest[i] == items[i + 1] by {}
        assert(truth_of_any(items, t, row, relations, at) == or3(
            truth(items[0], t, row, relations, at),
            truth_of_any(rest, t, row, relations, at + comparisons_in(items[0])),
        ));
        if truth_of_any(items, t, row, relations, at) == Some(false) {
            assert(truth(items[0], t, row, relations, at) == Some(false));
            assert(definitely(items[0], false, t, row, order));
            assert forall|i: int| 0 <= i < items.len() implies definitely(
                #[trigger] items[i],
                false,
                t,
                row,
                order,
            ) by {
                if i > 0 {
                    assert(items[i] == rest[i - 1]);
                    assert(definitely(rest[i - 1], false, t, row, order));
                }
            }
        }
        if exists|i: int|
            0 <= i < items.len() && definitely(#[trigger] items[i], true, t, row, order) {
            let i = choose|i: int|
                0 <= i < items.len() && definitely(#[trigger] items[i], true, t, row, order);
            assert(i > 0 ==> items[i] == rest[i - 1]);
        }
    }
}

proof fn lemma_listed_here(c: CheckV, t: TableV, row: Seq<ValueV>)
    ensures
        asked(c, t, row).len() == comparisons_in(c),
{
    let one = seq![c];
    super::check::comparisons_are_listed(one, t, row);
    assert(one.drop_first() =~= Seq::empty());
    assert(asked_by_all(one.drop_first(), t, row) =~= Seq::empty());
    assert(asked_by_all(one, t, row) =~= asked(c, t, row));
    assert(comparisons_in_all(one.drop_first()) == 0);
}

/// Every comparison asked for is one of a cell of the row that is not NULL with a
/// literal.
pub proof fn null_is_not_compared(c: CheckV, t: TableV, row: Seq<ValueV>, k: int)
    requires
        0 <= k < asked(c, t, row).len(),
        asked(c, t, row)[k] is Some,
    ensures
        !(asked(c, t, row)[k]->Some_0.0 is Null),
        exists|i: int| 0 <= i < row.len() && #[trigger] row[i] == asked(c, t, row)[k]->Some_0.0,
    decreases c,
{
    match c {
        CheckV::Cmp { col, op, value } => {
            lemma_column_at(t.columns, col);
        },
        CheckV::And(items) => {
            lemma_not_compared(items, t, row, k);
        },
        CheckV::Or(items) => {
            lemma_not_compared(items, t, row, k);
        },
        CheckV::Not(inner) => {
            null_is_not_compared(*inner, t, row, k);
        },
        _ => {},
    }
}

proof fn lemma_not_compared(items: Seq<CheckV>, t: TableV, row: Seq<ValueV>, k: int)
    requires
        0 <= k < asked_by_all(items, t, row).len(),
        asked_by_all(items, t, row)[k] is Some,
    ensures
        !(asked_by_all(items, t, row)[k]->Some_0.0 is Null),
        exists|i: int|
            0 <= i < row.len() && #[trigger] row[i] == asked_by_all(items, t, row)[k]->Some_0.0,
    decreases items,
{
    if items.len() > 0 {
        let n = asked(items[0], t, row).len();
        if k < n {
            null_is_not_compared(items[0], t, row, k);
        } else {
            lemma_not_compared(items.drop_first(), t, row, k - n);
        }
    }
}

/// A row passes a table's CHECKs exactly where none of them is definitely false
/// of it; where it does not, the violation names the table and the first CHECK
/// that is.
pub proof fn rows_pass_where_no_check_is_false(
    t: TableV,
    row: Seq<ValueV>,
    relations: Seq<Relation>,
    order: spec_fn(ValueV, ValueV) -> int,
)
    requires
        answers(asked_by_all(t.checks, t, row), relations, 0, order),
    ensures
        checks_violation(t, row, relations) is None <==> (forall|k: int|
            0 <= k < t.checks.len() ==> !definitely(#[trigger] t.checks[k], false, t, row, order)),
        checks_violation(t, row, relations) matches Some(e) ==> exists|k: int|
            {
                &&& 0 <= k < t.checks.len()
                &&& definitely(#[trigger] t.checks[k], false, t, row, order)
                &&& e == (CatalogErrorV::CheckViolation { table: t.name, index: k as nat })
                &&& forall|j: int|
                    0 <= j < k ==> !definitely(#[trigger] t.checks[j], false, t, row, order)
            },
{
    lemma_violated(t.checks, t, row, relations, 0, 0, order);
    if let Some(k) = violated(t.checks, t, row, relations, 0, 0) {
        assert(definitely(t.checks[k as int], false, t, row, order));
    }
}

proof fn lemma_violated(
    checks: Seq<CheckV>,
    t: TableV,
    row: Seq<ValueV>,
    relations: Seq<Relation>,
    at: int,
    n: nat,
    order: spec_fn(ValueV, ValueV) -> int,
)
    requires
        answers(asked_by_all(checks, t, row), relations, at, order),
    ensures
        match violated(checks, t, row, relations, at, n) {
            None => forall|k: int|
                0 <= k < checks.len() ==> !definitely(#[trigger] checks[k], false, t, row, order),
            Some(k) => {
                &&& n <= k < n + checks.len()
                &&& definitely(checks[k - n], false, t, row, order)
                &&& forall|j: int|
                    0 <= j < k - n ==> !definitely(#[trigger] checks[j], false, t, row, order)
            },
        },
    decreases checks.len(),
{
    if checks.len() > 0 {
        let rest = checks.drop_first();
        lemma_listed_here(checks[0], t, row);
        lemma_answers_split(
            asked(checks[0], t, row),
            asked_by_all(rest, t, row),
            relations,
            at,
            order,
        );
        checks_are_found_as_they_are(checks[0], false, t, row, relations, at, order);
        lemma_violated(rest, t, row, relations, at + comparisons_in(checks[0]), n + 1, order);
        assert forall|i: int| 0 < i < checks.len() implies #[trigger] checks[i] == rest[i - 1] by {}
    }
}

} // verus!
