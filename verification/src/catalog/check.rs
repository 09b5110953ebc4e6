//! CHECK expressions: their three-valued evaluation and their validation.
//!
//! How two values of one type compare is the value layer's business. An
//! expression lists the comparisons that it needs, in the order in which they
//! stand in it, and its evaluation takes their outcomes in that order.

use vstd::prelude::*;
use super::error::{invalid, invalid_v, passes, CatalogError, CatalogErrorV, Result};
use super::schema::{column_at, lemma_column_at, CheckExpr, CheckV, CmpOp, TableDef, TableV};
use crate::value::{values, Value, ValueV};
use crate::views::views;

verus! {

/// The deepest CHECK nesting accepted.
pub const MAX_CHECK_DEPTH: usize = 16;

/// How one value stands to another.
#[derive(Debug, Clone, Copy, PartialEq, Eq, Structural)]
pub enum Relation {
    /// It comes before.
    Less,
    /// Neither comes before the other.
    Equal,
    /// It comes after.
    Greater,
}

impl CmpOp {
    /// Whether the operator holds of two values that stand so to each other.
    pub open spec fn holds_of(self, relation: Relation) -> bool {
        match self {
            CmpOp::Eq => relation == Relation::Equal,
            CmpOp::Ne => relation != Relation::Equal,
            CmpOp::Lt => relation == Relation::Less,
            CmpOp::Lte => relation != Relation::Greater,
            CmpOp::Gt => relation == Relation::Greater,
            CmpOp::Gte => relation != Relation::Less,
        }
    }

    /// Whether the operator holds of two values that stand so to each other.
    pub fn holds(self, relation: Relation) -> (r: bool)
        ensures
            r == self.holds_of(relation),
    {
        match self {
            CmpOp::Eq => relation == Relation::Equal,
            CmpOp::Ne => relation != Relation::Equal,
            CmpOp::Lt => relation == Relation::Less,
            CmpOp::Lte => relation != Relation::Greater,
            CmpOp::Gt => relation == Relation::Greater,
            CmpOp::Gte => relation != Relation::Less,
        }
    }
}

/// The cell of the column with this name.
pub open spec fn cell_named(t: TableV, row: Seq<ValueV>, name: Seq<char>) -> Option<ValueV> {
    match column_at(t.columns, name) {
        Some(i) => if i < row.len() {
            Some(row[i])
        } else {
            None
        },
        None => None,
    }
}

/// The cell of the column with this name.
pub fn find_cell<'a>(table: &TableDef, row: &'a Vec<Value>, name: &str) -> (r: Option<&'a Value>)
    ensures
        match r {
            Some(v) => cell_named(table@, values(row@), name@) == Some(v@),
            None => cell_named(table@, values(row@), name@) is None,
        },
{
    proof {
        lemma_column_at(table@.columns, name@);
    }
    match table.col_index(name) {
        Some(i) => if i < row.len() {
            assert(values(row@)[i as int] == row@[i as int]@);
            Some(&row[i])
        } else {
            None
        },
        None => None,
    }
}

/// Conjunction: false dominates, then unknown.
pub open spec fn and3(a: Option<bool>, b: Option<bool>) -> Option<bool> {
    if a == Some(false) || b == Some(false) {
        Some(false)
    } else if a is None || b is None {
        None
    } else {
        Some(true)
    }
}

/// Disjunction: true dominates, then unknown.
pub open spec fn or3(a: Option<bool>, b: Option<bool>) -> Option<bool> {
    if a == Some(true) || b == Some(true) {
        Some(true)
    } else if a is None || b is None {
        None
    } else {
        Some(false)
    }
}

/// Negation: unknown stays unknown.
pub open spec fn not3(a: Option<bool>) -> Option<bool> {
    match a {
        Some(b) => Some(!b),
        None => None,
    }
}

/// How many comparisons stand in an expression.
pub open spec fn comparisons_in(c: CheckV) -> nat
    decreases c,
{
    match c {
        CheckV::Cmp { .. } => 1,
        CheckV::IsNull { .. } => 0,
        CheckV::IsNotNull { .. } => 0,
        CheckV::And(items) => comparisons_in_all(items),
        CheckV::Or(items) => comparisons_in_all(items),
        CheckV::Not(inner) => comparisons_in(*inner),
    }
}

/// How many comparisons stand in expressions.
pub open spec fn comparisons_in_all(items: Seq<CheckV>) -> nat
    decreases items,
{
    if items.len() == 0 {
        0
    } else {
        comparisons_in(items[0]) + comparisons_in_all(items.drop_first())
    }
}

/// What an expression says of a row, where the outcomes of its comparisons stand
/// in `relations` from `at` on: true, false, or unknown.
pub open spec fn truth(
    c: CheckV,
    t: TableV,
    row: Seq<ValueV>,
    relations: Seq<Relation>,
    at: int,
) -> Option<bool>
    decreases c,
{
    match c {
        CheckV::Cmp { col, op, value } => match cell_named(t, row, col) {
            None => None,
            Some(cell) => if cell is Null {
                None
            } else {
                Some(op.holds_of(relations[at]))
            },
        },
        CheckV::IsNull { col } => match cell_named(t, row, col) {
            None => None,
            Some(cell) => Some(cell is Null),
        },
        CheckV::IsNotNull { col } => match cell_named(t, row, col) {
            None => None,
            Some(cell) => Some(!(cell is Null)),
        },
        CheckV::And(items) => truth_of_all(items, t, row, relations, at),
        CheckV::Or(items) => truth_of_any(items, t, row, relations, at),
        CheckV::Not(inner) => not3(truth(*inner, t, row, relations, at)),
    }
}

/// Whether every expression holds.
pub open spec fn truth_of_all(
    items: Seq<CheckV>,
    t: TableV,
    row: Seq<ValueV>,
    relations: Seq<Relation>,
    at: int,
) -> Option<bool>
    decreases items,
{
    if items.len() == 0 {
        Some(true)
    } else {
        and3(
            truth(items[0], t, row, relations, at),
            truth_of_all(items.drop_first(), t, row, relations, at + comparisons_in(items[0])),
        )
    }
}

/// Whether some expression holds.
pub open spec fn truth_of_any(
    items: Seq<CheckV>,
    t: TableV,
    row: Seq<ValueV>,
    relations: Seq<Relation>,
    at: int,
) -> Option<bool>
    decreases items,
{
    if items.len() == 0 {
        Some(false)
    } else {
        or3(
            truth(items[0], t, row, relations, at),
            truth_of_any(items.drop_first(), t, row, relations, at + comparisons_in(items[0])),
        )
    }
}

/// The comparisons that an expression makes on a row, one for each that stands in
/// it: a cell and a literal, or none where the cell is missing or NULL.
pub open spec fn asked(c: CheckV, t: TableV, row: Seq<ValueV>) -> Seq<Option<(ValueV, ValueV)>>
    decreases c,
{
    match c {
        CheckV::Cmp { col, op, value } => match cell_named(t, row, col) {
            None => seq![None],
            Some(cell) => if cell is Null {
                seq![None]
            } else {
                seq![Some((cell, value))]
            },
        },
        CheckV::IsNull { .. } => Seq::empty(),
        CheckV::IsNotNull { .. } => Seq::empty(),
        CheckV::And(items) => asked_by_all(items, t, row),
        CheckV::Or(items) => asked_by_all(items, t, row),
        CheckV::Not(inner) => asked(*inner, t, row),
    }
}

/// The comparisons that expressions make on a row.
pub open spec fn asked_by_all(items: Seq<CheckV>, t: TableV, row: Seq<ValueV>) -> Seq<
    Option<(ValueV, ValueV)>,
>
    decreases items,
{
    if items.len() == 0 {
        Seq::empty()
    } else {
        asked(items[0], t, row) + asked_by_all(items.drop_first(), t, row)
    }
}

/// There is one entry for each comparison that stands in the expressions.
pub proof fn comparisons_are_listed(items: Seq<CheckV>, t: TableV, row: Seq<ValueV>)
    ensures
        asked_by_all(items, t, row).len() == comparisons_in_all(items),
    decreases items,
{
    if items.len() > 0 {
        lemma_listed(items[0], t, row);
        comparisons_are_listed(items.drop_first(), t, row);
    }
}

proof fn lemma_listed(c: CheckV, t: TableV, row: Seq<ValueV>)
    ensures
        asked(c, t, row).len() == comparisons_in(c),
    decreases c,
{
    match c {
        CheckV::And(items) => comparisons_are_listed(items, t, row),
        CheckV::Or(items) => comparisons_are_listed(items, t, row),
        CheckV::Not(inner) => lemma_listed(*inner, t, row),
        _ => {},
    }
}

proof fn lemma_in_all_split(items: Seq<CheckV>, i: int)
    requires
        0 <= i < items.len(),
    ensures
        comparisons_in_all(items.skip(i)) == comparisons_in(items[i]) + comparisons_in_all(
            items.skip(i + 1),
        ),
        items.skip(i)[0] == items[i],
        items.skip(i).drop_first() == items.skip(i + 1),
{
    assert(items.skip(i).drop_first() =~= items.skip(i + 1));
}

/// What pairs of values hold.
pub open spec fn pair_views(s: Seq<Option<(Value, Value)>>) -> Seq<Option<(ValueV, ValueV)>> {
    Seq::new(
        s.len(),
        |i: int|
            match s[i] {
                Some(p) => Some((p.0@, p.1@)),
                None => None,
            },
    )
}

fn list_comparisons(
    check: &CheckExpr,
    table: &TableDef,
    row: &Vec<Value>,
    out: &mut Vec<Option<(Value, Value)>>,
)
    ensures
        pair_views(final(out)@) == pair_views(old(out)@) + asked(check@, table@, values(row@)),
    decreases check,
{
    proof {
        check.lemma_parts();
    }
    match check {
        CheckExpr::Cmp { col, value, .. } => {
            let item = match find_cell(table, row, col.as_str()) {
                None => None,
                Some(cell) => if cell.is_null() {
                    None
                } else {
                    Some((cell.copy(), value.copy()))
                },
            };
            out.push(item);
            assert(pair_views(out@) =~= pair_views(old(out)@) + asked(
                check@,
                table@,
                values(row@),
            ));
        },
        CheckExpr::IsNull { .. } => {
            assert(pair_views(out@) + Seq::empty() =~= pair_views(out@));
        },
        CheckExpr::IsNotNull { .. } => {
            assert(pair_views(out@) + Seq::empty() =~= pair_views(out@));
        },
        CheckExpr::And(items) => {
            assert(decreases_to!(check => items));
            list_all(items, table, row, out);
        },
        CheckExpr::Or(items) => {
            assert(decreases_to!(check => items));
            list_all(items, table, row, out);
        },
        CheckExpr::Not(inner) => {
            list_comparisons(inner, table, row, out);
        },
    }
}

fn list_all(
    items: &Vec<CheckExpr>,
    table: &TableDef,
    row: &Vec<Value>,
    out: &mut Vec<Option<(Value, Value)>>,
)
    ensures
        pair_views(final(out)@) == pair_views(old(out)@) + asked_by_all(
            views(items@),
            table@,
            values(row@),
        ),
    decreases items,
{
    let ghost vs = views(items@);
    let ghost start = pair_views(out@);
    let ghost t = table@;
    let ghost r = values(row@);
    let mut i: usize = 0;
    assert(vs.skip(0) =~= vs);
    while i < items.len()
        invariant
            i <= items@.len(),
            vs == views(items@),
            t == table@,
            r == values(row@),
            pair_views(out@) + asked_by_all(vs.skip(i as int), t, r) == start + asked_by_all(
                vs,
                t,
                r,
            ),
        decreases items@.len() - i,
    {
        let ghost before = pair_views(out@);
        proof {
            lemma_in_all_split(vs, i as int);
            assert(vs[i as int] == items@[i as int]@);
            assert(decreases_to!(items => items@[i as int]));
        }
        list_comparisons(&items[i], table, row, out);
        i = i + 1;
        assert(before + (asked(vs[i - 1], t, r) + asked_by_all(vs.skip(i as int), t, r))
            =~= pair_views(out@) + asked_by_all(vs.skip(i as int), t, r));
    }
    assert(vs.skip(i as int) =~= Seq::empty());
    assert(pair_views(out@) + Seq::empty() =~= pair_views(out@));
}

fn eval_at(
    check: &CheckExpr,
    table: &TableDef,
    row: &Vec<Value>,
    relations: &Vec<Relation>,
    at: usize,
) -> (r: (Option<bool>, usize))
    requires
        at + comparisons_in(check@) <= relations@.len(),
    ensures
        r.0 == truth(check@, table@, values(row@), relations@, at as int),
        r.1 == at + comparisons_in(check@),
    decreases check,
{
    proof {
        check.lemma_parts();
    }
    match check {
        CheckExpr::Cmp { col, op, value } => {
            let said = match find_cell(table, row, col.as_str()) {
                None => None,
                Some(cell) => if cell.is_null() {
                    None
                } else {
                    Some(op.holds(relations[at]))
                },
            };
            assert(relations@.len() == relations.len());
            (said, at + 1)
        },
        CheckExpr::IsNull { col } => (
            match find_cell(table, row, col.as_str()) {
                None => None,
                Some(cell) => Some(cell.is_null()),
            },
            at,
        ),
        CheckExpr::IsNotNull { col } => (
            match find_cell(table, row, col.as_str()) {
                None => None,
                Some(cell) => Some(!cell.is_null()),
            },
            at,
        ),
        CheckExpr::And(items) => {
            assert(decreases_to!(check => items));
            eval_items(items, true, table, row, relations, at)
        },
        CheckExpr::Or(items) => {
            assert(decreases_to!(check => items));
            eval_items(items, false, table, row, relations, at)
        },
        CheckExpr::Not(inner) => {
            let (said, next) = eval_at(inner, table, row, relations, at);
            (
                match said {
                    Some(b) => Some(!b),
                    None => None,
                },
                next,
            )
        },
    }
}

fn eval_items(
    items: &Vec<CheckExpr>,
    all: bool,
    table: &TableDef,
    row: &Vec<Value>,
    relations: &Vec<Relation>,
    at: usize,
) -> (r: (Option<bool>, usize))
    requires
        at + comparisons_in_all(views(items@)) <= relations@.len(),
    ensures
        all ==> r.0 == truth_of_all(views(items@), table@, values(row@), relations@, at as int),
        !all ==> r.0 == truth_of_any(views(items@), table@, values(row@), relations@, at as int),
        r.1 == at + comparisons_in_all(views(items@)),
    decreases items,
{
    let ghost vs = views(items@);
    let ghost t = table@;
    let ghost cells = values(row@);
    let ghost rel = relations@;
    let mut decided = false;
    let mut unknown = false;
    let mut next: usize = at;
    let mut i: usize = 0;
    assert(vs.skip(0) =~= vs);
    while i < items.len()
        invariant
            i <= items@.len(),
            vs == views(items@),
            t == table@,
            cells == values(row@),
            rel == relations@,
            next + comparisons_in_all(vs.skip(i as int)) == at + comparisons_in_all(vs),
            at + comparisons_in_all(vs) <= rel.len(),
            all ==> truth_of_all(vs, t, cells, rel, at as int) == and3(
                so_far(all, decided, unknown),
                truth_of_all(vs.skip(i as int), t, cells, rel, next as int),
            ),
            !all ==> truth_of_any(vs, t, cells, rel, at as int) == or3(
                so_far(all, decided, unknown),
                truth_of_any(vs.skip(i as int), t, cells, rel, next as int),
            ),
        decreases items@.len() - i,
    {
        proof {
            lemma_in_all_split(vs, i as int);
            assert(vs[i as int] == items@[i as int]@);
            assert(decreases_to!(items => items@[i as int]));
        }
        let (said, after) = eval_at(&items[i], table, row, relations, next);
        match said {
            None => {
                unknown = true;
            },
            Some(b) => {
                if b != all {
                    decided = true;
                }
            },
        }
        next = after;
        i = i + 1;
    }
    assert(vs.skip(i as int) =~= Seq::empty());
    let said = if decided {
        Some(!all)
    } else if unknown {
        None
    } else {
        Some(all)
    };
    (said, next)
}

/// What the items seen so far say together.
spec fn so_far(all: bool, decided: bool, unknown: bool) -> Option<bool> {
    if decided {
        Some(!all)
    } else if unknown {
        None
    } else {
        Some(all)
    }
}

/// The rule that an expression breaks, if it breaks one.
pub open spec fn check_error(c: CheckV, t: TableV, depth: nat) -> Option<CatalogErrorV>
    decreases c,
{
    if depth > MAX_CHECK_DEPTH {
        Some(invalid_v("check expression nests too deeply"@))
    } else {
        match c {
            CheckV::Cmp { col, op, value } => match column_at(t.columns, col) {
                None => Some(CatalogErrorV::UnknownColumn { table: t.name, column: col }),
                Some(i) => match value.kind() {
                    None => Some(
                        invalid_v("check comparisons against null never hold; use is_null"@),
                    ),
                    Some(kind) => if kind != t.columns[i].kind {
                        Some(invalid_v("check literal kind does not match the column's type"@))
                    } else {
                        None
                    },
                },
            },
            CheckV::IsNull { col } => if column_at(t.columns, col) is None {
                Some(CatalogErrorV::UnknownColumn { table: t.name, column: col })
            } else {
                None
            },
            CheckV::IsNotNull { col } => if column_at(t.columns, col) is None {
                Some(CatalogErrorV::UnknownColumn { table: t.name, column: col })
            } else {
                None
            },
            CheckV::And(items) => if items.len() == 0 {
                Some(invalid_v("empty boolean combinator in check"@))
            } else {
                checks_error(items, t, depth + 1)
            },
            CheckV::Or(items) => if items.len() == 0 {
                Some(invalid_v("empty boolean combinator in check"@))
            } else {
                checks_error(items, t, depth + 1)
            },
            CheckV::Not(inner) => check_error(*inner, t, depth + 1),
        }
    }
}

/// The first rule that expressions break, if they break one.
pub open spec fn checks_error(items: Seq<CheckV>, t: TableV, depth: nat) -> Option<CatalogErrorV>
    decreases items,
{
    if items.len() == 0 {
        None
    } else {
        match check_error(items[0], t, depth) {
            Some(e) => Some(e),
            None => checks_error(items.drop_first(), t, depth),
        }
    }
}

fn unknown_column(table: &TableDef, column: &str) -> (r: CatalogError)
    ensures
        r@ == (CatalogErrorV::UnknownColumn { table: table@.name, column: column@ }),
{
    CatalogError::UnknownColumn { table: table.name.clone(), column: column.to_owned() }
}

pub(crate) fn validate_checks(
    items: &Vec<CheckExpr>,
    table: &TableDef,
    depth: usize,
) -> (r: Result<()>)
    requires
        depth <= MAX_CHECK_DEPTH + 1,
    ensures
        passes(r, checks_error(views(items@), table@, depth as nat)),
    decreases items,
{
    let ghost vs = views(items@);
    let mut i: usize = 0;
    assert(vs.skip(0) =~= vs);
    while i < items.len()
        invariant
            i <= items@.len(),
            depth <= MAX_CHECK_DEPTH + 1,
            vs == views(items@),
            checks_error(vs, table@, depth as nat) == checks_error(
                vs.skip(i as int),
                table@,
                depth as nat,
            ),
        decreases items@.len() - i,
    {
        proof {
            lemma_in_all_split(vs, i as int);
            assert(vs[i as int] == items@[i as int]@);
            assert(decreases_to!(items => items@[i as int]));
        }
        match items[i].validate(table, depth) {
            Ok(_) => {},
            Err(e) => {
                return Err(e);
            },
        }
        i = i + 1;
    }
    assert(vs.skip(i as int) =~= Seq::empty());
    Ok(())
}

impl CheckExpr {
    /// The comparisons that the expression makes on a full row, in order: a cell
    /// and a literal, or none where the cell is missing or NULL.
    pub fn comparisons(&self, table: &TableDef, row: &Vec<Value>) -> (r: Vec<
        Option<(Value, Value)>,
    >)
        ensures
            pair_views(r@) == asked(self@, table@, values(row@)),
            r@.len() == comparisons_in(self@),
    {
        let mut out: Vec<Option<(Value, Value)>> = Vec::new();
        list_comparisons(self, table, row, &mut out);
        proof {
            lemma_listed(self@, table@, values(row@));
        }
        assert(pair_views(out@) =~= asked(self@, table@, values(row@)));
        out
    }

    /// Evaluate against a full row (`row[i]` is column `i`); `None` = unknown.
    /// `relations` holds the outcomes of the [`comparisons`](Self::comparisons)
    /// on that row; what stands there for one that is not made is not looked at.
    pub fn eval(
        &self,
        table: &TableDef,
        row: &Vec<Value>,
        relations: &Vec<Relation>,
    ) -> (r: Option<bool>)
        requires
            relations@.len() == comparisons_in(self@),
        ensures
            r == truth(self@, table@, values(row@), relations@, 0),
    {
        eval_at(self, table, row, relations, 0).0
    }

    /// Check the expression against a table: its columns exist, its literals have
    /// their columns' types, and it nests no deeper than allowed.
    pub fn validate(&self, table: &TableDef, depth: usize) -> (r: Result<()>)
        ensures
            passes(r, check_error(self@, table@, depth as nat)),
        decreases self,
    {
        proof {
            self.lemma_parts();
        }
        if depth > MAX_CHECK_DEPTH {
            return Err(invalid("check expression nests too deeply"));
        }
        match self {
            CheckExpr::Cmp { col, value, .. } => match table.col_index(col.as_str()) {
                None => Err(unknown_column(table, col.as_str())),
                Some(i) => {
                    assert(table@.columns[i as int] == table.columns@[i as int]@);
                    match value.kind() {
                        None => Err(
                            invalid("check comparisons against null never hold; use is_null"),
                        ),
                        Some(kind) => if kind != table.columns[i].kind {
                            Err(invalid("check literal kind does not match the column's type"))
                        } else {
                            Ok(())
                        },
                    }
                },
            },
            CheckExpr::IsNull { col } => if table.col_index(col.as_str()).is_none() {
                Err(unknown_column(table, col.as_str()))
            } else {
                Ok(())
            },
            CheckExpr::IsNotNull { col } => if table.col_index(col.as_str()).is_none() {
                Err(unknown_column(table, col.as_str()))
            } else {
                Ok(())
            },
            CheckExpr::And(items) => {
                if items.len() == 0 {
                    return Err(invalid("empty boolean combinator in check"));
                }
                assert(decreases_to!(self => items));
                validate_checks(items, table, depth + 1)
            },
            CheckExpr::Or(items) => {
                if items.len() == 0 {
                    return Err(invalid("empty boolean combinator in check"));
                }
                assert(decreases_to!(self => items));
                validate_checks(items, table, depth + 1)
            },
            CheckExpr::Not(inner) => inner.validate(table, depth + 1),
        }
    }
}

/// The comparisons that a table's CHECKs make on a row, in order.
pub fn comparisons_of(table: &TableDef, row: &Vec<Value>) -> (r: Vec<Option<(Value, Value)>>)
    ensures
        pair_views(r@) == asked_by_all(table@.checks, table@, values(row@)),
        r@.len() == comparisons_in_all(table@.checks),
{
    let mut out: Vec<Option<(Value, Value)>> = Vec::new();
    list_all(&table.checks, table, row, &mut out);
    proof {
        comparisons_are_listed(table@.checks, table@, values(row@));
    }
    assert(pair_views(out@) =~= asked_by_all(table@.checks, table@, values(row@)));
    out
}

/// The first check, from `k` on, that a row definitely violates.
pub open spec fn violated(
    checks: Seq<CheckV>,
    t: TableV,
    row: Seq<ValueV>,
    relations: Seq<Relation>,
    at: int,
    k: nat,
) -> Option<nat>
    decreases checks.len(),
{
    if checks.len() == 0 {
        None
    } else if truth(checks[0], t, row, relations, at) == Some(false) {
        Some(k)
    } else {
        violated(
            checks.drop_first(),
            t,
            row,
            relations,
            at + comparisons_in(checks[0]),
            k + 1,
        )
    }
}

/// The violation of a table's CHECKs by a row, if there is one.
pub open spec fn checks_violation(
    t: TableV,
    row: Seq<ValueV>,
    relations: Seq<Relation>,
) -> Option<CatalogErrorV> {
    match violated(t.checks, t, row, relations, 0, 0) {
        Some(k) => Some(CatalogErrorV::CheckViolation { table: t.name, index: k }),
        None => None,
    }
}

/// Evaluate every CHECK; violated only when one is definitively false.
/// `relations` holds the outcomes of the table's comparisons on the row.
pub fn run_checks(def: &TableDef, row: &Vec<Value>, relations: &Vec<Relation>) -> (r: Result<()>)
    requires
        relations@.len() == comparisons_in_all(def@.checks),
    ensures
        passes(r, checks_violation(def@, values(row@), relations@)),
{
    let ghost vs = def@.checks;
    let ghost cells = values(row@);
    let ghost rel = relations@;
    let mut at: usize = 0;
    let mut i: usize = 0;
    assert(vs.skip(0) =~= vs);
    while i < def.checks.len()
        invariant
            i <= def.checks@.len(),
            vs == views(def.checks@),
            vs == def@.checks,
            cells == values(row@),
            rel == relations@,
            at + comparisons_in_all(vs.skip(i as int)) == rel.len(),
            violated(vs, def@, cells, rel, 0, 0) == violated(
                vs.skip(i as int),
                def@,
                cells,
                rel,
                at as int,
                i as nat,
            ),
        decreases def.checks@.len() - i,
    {
        proof {
            lemma_in_all_split(vs, i as int);
            assert(vs[i as int] == def.checks@[i as int]@);
        }
        let (said, next) = eval_at(&def.checks[i], def, row, relations, at);
        if let Some(b) = said {
            if !b {
                return Err(CatalogError::CheckViolation { table: def.name.clone(), index: i });
            }
        }
        at = next;
        i = i + 1;
    }
    assert(vs.skip(i as int) =~= Seq::empty());
    Ok(())
}

/// Unknown passes: a CHECK whose comparisons all meet NULL is not violated.
pub proof fn unknown_checks_pass(
    col: Seq<char>,
    op: CmpOp,
    value: ValueV,
    t: TableV,
    row: Seq<ValueV>,
    relations: Seq<Relation>,
)
    requires
        cell_named(t, row, col) == Some(ValueV::Null),
    ensures
        violated(seq![CheckV::Cmp { col, op, value }], t, row, relations, 0, 0) is None,
{
    let checks = seq![CheckV::Cmp { col, op, value }];
    assert(checks.drop_first() =~= Seq::empty());
    assert(violated(checks.drop_first(), t, row, relations, 1, 1) is None);
}

} // verus!
