//! Caller-supplied policies for conditional multi-row writes.
//!
//! A policy runs against live committed rows inside the writer, so a guarded
//! read-check-write is one atomic step that a client cannot split. Rows are presented
//! in schema column order.

use vstd::prelude::*;
use super::error::{CatalogError, Result};
use super::fk::StoredRow;
use super::plan::{lemma_rows_after, row_at, rows_after};
use super::row::Cell;
use super::schema::TableDef;
use super::write::{KeyedV, MoveV};
use crate::common::error::{CategorizedError, ErrorCategory};
use crate::value::Value;

verus! {

/// A policy error.
#[derive(Debug, Clone, PartialEq, Eq)]
pub struct PolicyError {
    /// The category it belongs to.
    pub category: ErrorCategory,
    /// What it says.
    pub text: String,
}

impl CategorizedError for PolicyError {
    open spec fn category_of(&self) -> ErrorCategory {
        self.category
    }

    fn category(&self) -> ErrorCategory {
        self.category
    }
}

/// Selects rows for a conditional write.
pub trait RowFilter {
    /// Whether `row` (schema column order) is targeted by the write.
    fn matches(&self, def: &TableDef, row: &Vec<Value>) -> core::result::Result<bool, PolicyError>;
}

/// Computes the new absolute column values for a matched row: the evaluated `set` list
/// of an update.
pub trait RowUpdater: RowFilter {
    /// The `(column, new value)` pairs for a matched row.
    fn new_values(&self, def: &TableDef, row: &Vec<Value>) -> core::result::Result<
        Vec<Cell>,
        PolicyError,
    >;
}

/// The refusal of a write that a policy rejected: with the category and the text of the
/// rejection.
pub open spec fn rejected(e: PolicyError) -> CatalogError {
    CatalogError::Policy { category: e.category, text: e.text }
}

fn reject(e: PolicyError) -> (r: CatalogError)
    ensures
        r == rejected(e),
{
    CatalogError::Policy { category: e.category, text: e.text }
}

/// Whether `r` is what a filter's answer `m` comes to.
pub open spec fn answered(m: core::result::Result<bool, PolicyError>, r: Result<bool>) -> bool {
    match m {
        Ok(b) => r == Ok::<bool, CatalogError>(b),
        Err(e) => r == Err::<bool, CatalogError>(rejected(e)),
    }
}

/// Whether `r` is what asking `filter` about this very row of `def` comes to.
pub open spec fn asked<F: RowFilter>(
    filter: F,
    def: TableDef,
    row: Vec<Value>,
    r: Result<bool>,
) -> bool {
    exists|m: core::result::Result<bool, PolicyError>| #[trigger]
        answered(m, r) && call_ensures(F::matches, (&filter, &def, &row), m)
}

/// Ask a filter about one row. A rejection keeps its category and its text.
pub fn is_selected<F: RowFilter>(filter: &F, def: &TableDef, row: &Vec<Value>) -> (r: Result<bool>)
    ensures
        asked(*filter, *def, *row, r),
{
    let m = filter.matches(def, row);
    let ghost told = m;
    let r = match m {
        Ok(b) => Ok(b),
        Err(e) => Err(reject(e)),
    };
    assert(answered(told, r));
    r
}

/// Whether `r` is what an updater's answers come to: `m` to whether the row is matched,
/// and, where it is, `v` to what its new values are.
pub open spec fn settled(
    m: core::result::Result<bool, PolicyError>,
    v: core::result::Result<Vec<Cell>, PolicyError>,
    r: Result<Option<Vec<Cell>>>,
) -> bool {
    match m {
        Err(e) => r == Err::<Option<Vec<Cell>>, CatalogError>(rejected(e)),
        Ok(false) => r == Ok::<Option<Vec<Cell>>, CatalogError>(None),
        Ok(true) => match v {
            Err(e) => r == Err::<Option<Vec<Cell>>, CatalogError>(rejected(e)),
            Ok(sets) => r == Ok::<Option<Vec<Cell>>, CatalogError>(Some(sets)),
        },
    }
}

/// Whether `r` is what asking `policy` about this very row of `def` comes to. Its new
/// values are asked for only where it matches the row.
pub open spec fn consulted<U: RowUpdater>(
    policy: U,
    def: TableDef,
    row: Vec<Value>,
    r: Result<Option<Vec<Cell>>>,
) -> bool {
    exists|
        m: core::result::Result<bool, PolicyError>,
        v: core::result::Result<Vec<Cell>, PolicyError>,
    | #[trigger]
        settled(m, v, r) && call_ensures(U::matches, (&policy, &def, &row), m) && (m == Ok::<
            bool,
            PolicyError,
        >(true) ==> call_ensures(U::new_values, (&policy, &def, &row), v))
}

/// Ask an updater about one row: its new values if the row is matched. A rejection
/// keeps its category and its text.
pub fn proposed<U: RowUpdater>(policy: &U, def: &TableDef, row: &Vec<Value>) -> (r: Result<
    Option<Vec<Cell>>,
>)
    ensures
        consulted(*policy, *def, *row, r),
{
    let m = policy.matches(def, row);
    let ghost told = m;
    match m {
        Err(e) => {
            let r: Result<Option<Vec<Cell>>> = Err(reject(e));
            assert(settled(told, arbitrary(), r));
            r
        },
        Ok(b) => if b {
            let v = policy.new_values(def, row);
            let ghost given = v;
            let r = match v {
                Err(e) => Err(reject(e)),
                Ok(sets) => Ok(Some(sets)),
            };
            assert(settled(told, given, r));
            r
        } else {
            let r: Result<Option<Vec<Cell>>> = Ok(None);
            assert(settled(told, arbitrary(), r));
            r
        },
    }
}

// --- the rows of a conditional write ------------------------------------------

/// Whether the first rows of `n` gave these outcomes, one each and in order, all of them
/// without error but the last where `stop` is one: then it is that error, and no row was
/// asked about after it.
pub open spec fn asked_until<T>(
    outcomes: Seq<Result<T>>,
    n: nat,
    stop: Option<CatalogError>,
) -> bool {
    match stop {
        None => outcomes.len() == n && forall|i: int|
            0 <= i < outcomes.len() ==> #[trigger] outcomes[i] is Ok,
        Some(e) => {
            &&& 0 < outcomes.len() <= n
            &&& outcomes.last() == Err::<T, CatalogError>(e)
            &&& forall|i: int| 0 <= i < outcomes.len() - 1 ==> #[trigger] outcomes[i] is Ok
        },
    }
}

/// Whether `at` are the positions of the outcomes `Ok(true)`, in order.
pub open spec fn positions_of(outcomes: Seq<Result<bool>>, at: Seq<usize>) -> bool {
    &&& forall|a: int, b: int| 0 <= a < b < at.len() ==> #[trigger] at[a] < #[trigger] at[b]
    &&& forall|a: int|
        0 <= a < at.len() ==> (#[trigger] at[a]) < outcomes.len() && outcomes[at[a] as int] == Ok::<
            bool,
            CatalogError,
        >(true)
    &&& forall|i: int|
        0 <= i < outcomes.len() && #[trigger] outcomes[i] == Ok::<bool, CatalogError>(true)
            ==> at.contains(i as usize)
}

/// Whether a selection is what `filter` makes of the rows of a table: the rows that it
/// matches, in scan order, up to the first that it rejects.
pub open spec fn selects<F: RowFilter>(
    filter: F,
    def: TableDef,
    rows: Seq<StoredRow>,
    at: Seq<usize>,
    stop: Option<CatalogError>,
) -> bool {
    exists|outcomes: Seq<Result<bool>>| #[trigger]
        asked_until(outcomes, rows.len(), stop) && positions_of(outcomes, at) && forall|i: int|
            0 <= i < outcomes.len() ==> asked(filter, def, rows[i].row, #[trigger] outcomes[i])
}

/// The rows that a conditional removal takes: the positions of those that `filter`
/// matches, in scan order, and the rejection at which it stopped, if it did.
pub fn selected<F: RowFilter>(filter: &F, def: &TableDef, rows: &Vec<StoredRow>) -> (r: (
    Vec<usize>,
    Option<CatalogError>,
))
    ensures
        selects(*filter, *def, rows@, r.0@, r.1),
{
    let mut at: Vec<usize> = Vec::new();
    let ghost mut outcomes: Seq<Result<bool>> = Seq::empty();
    let mut i: usize = 0;
    while i < rows.len()
        invariant
            i <= rows@.len(),
            outcomes.len() == i,
            positions_of(outcomes, at@),
            forall|j: int| 0 <= j < i ==> #[trigger] outcomes[j] is Ok,
            forall|j: int|
                0 <= j < i ==> asked(*filter, *def, rows@[j].row, #[trigger] outcomes[j]),
        decreases rows@.len() - i,
    {
        let r = is_selected(filter, def, &rows[i].row);
        let ghost before = outcomes;
        let ghost at0 = at@;
        proof {
            outcomes = outcomes.push(r);
        }
        match r {
            Err(e) => {
                proof {
                    lemma_positions_skip(before, at0, r);
                    assert(asked_until(outcomes, rows@.len(), Some(e)));
                }
                return (at, Some(e));
            },
            Ok(b) => {
                if b {
                    at.push(i);
                    proof {
                        lemma_positions_take(before, at0);
                    }
                } else {
                    proof {
                        lemma_positions_skip(before, at0, r);
                    }
                }
            },
        }
        i = i + 1;
    }
    assert(asked_until(outcomes, rows@.len(), None));
    (at, None)
}

proof fn lemma_positions_skip(outcomes: Seq<Result<bool>>, at: Seq<usize>, r: Result<bool>)
    requires
        positions_of(outcomes, at),
        r != Ok::<bool, CatalogError>(true),
    ensures
        positions_of(outcomes.push(r), at),
{
    let after = outcomes.push(r);
    assert forall|i: int|
        0 <= i < after.len() && #[trigger] after[i] == Ok::<bool, CatalogError>(true) implies
        at.contains(i as usize) by {
        assert(after[i] == outcomes[i]);
    }
}

proof fn lemma_positions_take(outcomes: Seq<Result<bool>>, at: Seq<usize>)
    requires
        positions_of(outcomes, at),
        outcomes.len() <= usize::MAX,
    ensures
        positions_of(
            outcomes.push(Ok::<bool, CatalogError>(true)),
            at.push(outcomes.len() as usize),
        ),
{
    let n = outcomes.len() as usize;
    let after = outcomes.push(Ok::<bool, CatalogError>(true));
    let at2 = at.push(n);
    assert forall|i: int|
        0 <= i < after.len() && #[trigger] after[i] == Ok::<bool, CatalogError>(true) implies
        at2.contains(i as usize) by {
        if i < outcomes.len() {
            assert(after[i] == outcomes[i]);
            let q = at.index_of(i as usize);
            assert(at2[q] == i as usize);
        } else {
            assert(at2[at.len() as int] == n);
        }
    }
}

/// A row that an updater matched, by its position, and its new values.
#[derive(Debug)]
pub struct Proposal {
    /// The position of the row.
    pub at: usize,
    /// The `(column, new value)` pairs.
    pub sets: Vec<Cell>,
}

/// Whether `list` are the new values in these outcomes, each with its position, in order.
pub open spec fn proposals_of(outcomes: Seq<Result<Option<Vec<Cell>>>>, list: Seq<Proposal>) -> bool {
    &&& forall|a: int, b: int|
        0 <= a < b < list.len() ==> (#[trigger] list[a]).at < (#[trigger] list[b]).at
    &&& forall|a: int|
        0 <= a < list.len() ==> (#[trigger] list[a]).at < outcomes.len()
            && outcomes[list[a].at as int] == Ok::<Option<Vec<Cell>>, CatalogError>(
            Some(list[a].sets),
        )
    &&& forall|i: int|
        0 <= i < outcomes.len() && (#[trigger] outcomes[i] matches Ok(Some(_))) ==> exists|a: int|
            0 <= a < list.len() && (#[trigger] list[a]).at == i
}

/// Whether proposals are what `policy` makes of the rows of a table: for each row that it
/// matches, in scan order, the new values it gives, up to the first that it rejects.
pub open spec fn proposes<U: RowUpdater>(
    policy: U,
    def: TableDef,
    rows: Seq<StoredRow>,
    list: Seq<Proposal>,
    stop: Option<CatalogError>,
) -> bool {
    exists|outcomes: Seq<Result<Option<Vec<Cell>>>>| #[trigger]
        asked_until(outcomes, rows.len(), stop) && proposals_of(outcomes, list) && forall|i: int|
            0 <= i < outcomes.len() ==> consulted(policy, def, rows[i].row, #[trigger] outcomes[i])
}

/// The rows that a conditional update changes: those that `policy` matches, in scan
/// order, with their new values, and the rejection at which it stopped, if it did.
pub fn proposals<U: RowUpdater>(policy: &U, def: &TableDef, rows: &Vec<StoredRow>) -> (r: (
    Vec<Proposal>,
    Option<CatalogError>,
))
    ensures
        proposes(*policy, *def, rows@, r.0@, r.1),
{
    let mut list: Vec<Proposal> = Vec::new();
    let ghost mut outcomes: Seq<Result<Option<Vec<Cell>>>> = Seq::empty();
    let mut i: usize = 0;
    while i < rows.len()
        invariant
            i <= rows@.len(),
            outcomes.len() == i,
            proposals_of(outcomes, list@),
            forall|j: int| 0 <= j < i ==> #[trigger] outcomes[j] is Ok,
            forall|j: int|
                0 <= j < i ==> consulted(*policy, *def, rows@[j].row, #[trigger] outcomes[j]),
        decreases rows@.len() - i,
    {
        let r = proposed(policy, def, &rows[i].row);
        let ghost before = outcomes;
        let ghost list0 = list@;
        proof {
            outcomes = outcomes.push(r);
        }
        match r {
            Err(e) => {
                proof {
                    lemma_proposals_skip(before, list0, r);
                    assert(asked_until(outcomes, rows@.len(), Some(e)));
                }
                return (list, Some(e));
            },
            Ok(None) => {
                proof {
                    lemma_proposals_skip(before, list0, r);
                }
            },
            Ok(Some(sets)) => {
                proof {
                    lemma_proposals_take(before, list0, Proposal { at: i, sets });
                }
                list.push(Proposal { at: i, sets });
            },
        }
        i = i + 1;
    }
    assert(asked_until(outcomes, rows@.len(), None));
    (list, None)
}

proof fn lemma_proposals_skip(
    outcomes: Seq<Result<Option<Vec<Cell>>>>,
    list: Seq<Proposal>,
    r: Result<Option<Vec<Cell>>>,
)
    requires
        proposals_of(outcomes, list),
        !(r matches Ok(Some(_))),
    ensures
        proposals_of(outcomes.push(r), list),
{
    let after = outcomes.push(r);
    assert forall|i: int|
        0 <= i < after.len() && (#[trigger] after[i] matches Ok(Some(_))) implies exists|a: int|
        0 <= a < list.len() && (#[trigger] list[a]).at == i by {
        assert(after[i] == outcomes[i]);
    }
}

proof fn lemma_proposals_take(
    outcomes: Seq<Result<Option<Vec<Cell>>>>,
    list: Seq<Proposal>,
    p: Proposal,
)
    requires
        proposals_of(outcomes, list),
        p.at == outcomes.len(),
    ensures
        proposals_of(
            outcomes.push(Ok::<Option<Vec<Cell>>, CatalogError>(Some(p.sets))),
            list.push(p),
        ),
{
    let after = outcomes.push(Ok::<Option<Vec<Cell>>, CatalogError>(Some(p.sets)));
    let list2 = list.push(p);
    assert forall|i: int|
        0 <= i < after.len() && (#[trigger] after[i] matches Ok(Some(_))) implies exists|a: int|
        0 <= a < list2.len() && (#[trigger] list2[a]).at == i by {
        if i < outcomes.len() {
            assert(after[i] == outcomes[i]);
            let a = choose|a: int| 0 <= a < list.len() && (#[trigger] list[a]).at == i;
            assert(list2[a].at == i);
        } else {
            assert(list2[list.len() as int].at == i);
        }
    }
}

/// A conditional removal touches the rows that its filter matched, and no others: where the
/// moved rows are those selected, a row that was not matched is as it was, and one that
/// was matched is what its move makes of it.
///
/// `base` are the committed rows, by primary key; `rows` are the same rows as scanned.
pub proof fn conditional_removals_touch_the_matched_rows_only(
    rows: Seq<StoredRow>,
    outcomes: Seq<Result<bool>>,
    at: Seq<usize>,
    base: Map<Seq<u8>, KeyedV>,
    moves: Seq<MoveV>,
    i: int,
)
    requires
        rows.len() <= usize::MAX,
        asked_until(outcomes, rows.len(), None),
        positions_of(outcomes, at),
        forall|a: int, b: int|
            0 <= a < b < rows.len() ==> (#[trigger] rows[a]).pk_key@ != (#[trigger] rows[b]).pk_key@,
        moves.len() == at.len(),
        forall|k: int|
            0 <= k < moves.len() ==> (#[trigger] moves[k]).pk_key == rows[at[k] as int].pk_key@,
        0 <= i < rows.len(),
    ensures
        outcomes[i] == Ok::<bool, CatalogError>(false) ==> row_at(
            rows_after(base, moves),
            rows[i].pk_key@,
        ) == row_at(base, rows[i].pk_key@),
        outcomes[i] == Ok::<bool, CatalogError>(true) ==> exists|k: int|
            0 <= k < moves.len() && (#[trigger] moves[k]).pk_key == rows[i].pk_key@ && row_at(
                rows_after(base, moves),
                rows[i].pk_key@,
            ) == moves[k].new,
{
    let pk = rows[i].pk_key@;
    assert forall|a: int, b: int| 0 <= a < b < moves.len() implies (#[trigger] moves[a]).pk_key != (
    #[trigger] moves[b]).pk_key by {
        assert(at[a] < at[b]);
    }
    lemma_rows_after(base, moves, pk);
    if outcomes[i] == Ok::<bool, CatalogError>(true) {
        assert(at.contains(i as usize));
        let k = at.index_of(i as usize);
        assert(moves[k].pk_key == pk);
    } else {
        assert forall|k: int| 0 <= k < moves.len() implies (#[trigger] moves[k]).pk_key != pk by {
            let j = at[k] as int;
            assert(outcomes[j] == Ok::<bool, CatalogError>(true));
            assert(j != i);
        }
    }
}

/// A conditional update touches the rows that its policy matched, and no others: where the
/// moved rows are those that it proposed new values for, a row that was not matched is as
/// it was, and one that was matched is what the move that goes with its proposal makes of
/// it.
///
/// `base` are the committed rows, by primary key; `rows` are the same rows as scanned.
pub proof fn conditional_updates_touch_the_matched_rows_only(
    rows: Seq<StoredRow>,
    outcomes: Seq<Result<Option<Vec<Cell>>>>,
    list: Seq<Proposal>,
    base: Map<Seq<u8>, KeyedV>,
    moves: Seq<MoveV>,
    i: int,
)
    requires
        asked_until(outcomes, rows.len(), None),
        proposals_of(outcomes, list),
        forall|a: int, b: int|
            0 <= a < b < rows.len() ==> (#[trigger] rows[a]).pk_key@ != (#[trigger] rows[b]).pk_key@,
        moves.len() == list.len(),
        forall|k: int|
            0 <= k < moves.len() ==> (#[trigger] moves[k]).pk_key
                == rows[list[k].at as int].pk_key@,
        0 <= i < rows.len(),
    ensures
        outcomes[i] == Ok::<Option<Vec<Cell>>, CatalogError>(None) ==> row_at(
            rows_after(base, moves),
            rows[i].pk_key@,
        ) == row_at(base, rows[i].pk_key@),
        outcomes[i] matches Ok(Some(sets)) ==> exists|k: int|
            0 <= k < moves.len() && (#[trigger] list[k]).at == i && list[k].sets == sets && row_at(
                rows_after(base, moves),
                rows[i].pk_key@,
            ) == moves[k].new,
{
    let pk = rows[i].pk_key@;
    assert forall|a: int, b: int| 0 <= a < b < moves.len() implies (#[trigger] moves[a]).pk_key != (
    #[trigger] moves[b]).pk_key by {
        assert(list[a].at < list[b].at);
    }
    lemma_rows_after(base, moves, pk);
    if outcomes[i] matches Ok(Some(_)) {
        let k = choose|k: int| 0 <= k < list.len() && (#[trigger] list[k]).at == i;
        assert(moves[k].pk_key == pk);
    } else {
        assert forall|k: int| 0 <= k < moves.len() implies (#[trigger] moves[k]).pk_key != pk by {
            let j = list[k].at as int;
            assert(outcomes[j] == Ok::<Option<Vec<Cell>>, CatalogError>(Some(list[k].sets)));
            assert(j != i);
        }
    }
}

/// A row is selected exactly where the filter, asked about it, matched it; where the filter
/// rejected one, the rejection is passed on as it was, and no row from there on is selected.
pub proof fn selections_follow_the_filter<F: RowFilter>(
    filter: F,
    def: TableDef,
    rows: Seq<StoredRow>,
    at: Seq<usize>,
    stop: Option<CatalogError>,
    i: int,
)
    requires
        selects(filter, def, rows, at, stop),
        0 <= i < rows.len() <= usize::MAX,
    ensures
        at.contains(i as usize) ==> call_ensures(
            F::matches,
            (&filter, &def, &rows[i].row),
            Ok::<bool, PolicyError>(true),
        ),
        stop is None && !at.contains(i as usize) ==> call_ensures(
            F::matches,
            (&filter, &def, &rows[i].row),
            Ok::<bool, PolicyError>(false),
        ),
        stop matches Some(e) ==> exists|k: int, p: PolicyError|
            {
                &&& 0 <= k < rows.len()
                &&& #[trigger] call_ensures(
                    F::matches,
                    (&filter, &def, &rows[k].row),
                    Err::<bool, PolicyError>(p),
                )
                &&& e == (CatalogError::Policy { category: p.category, text: p.text })
                &&& i >= k ==> !at.contains(i as usize)
            },
{
    let outcomes = choose|outcomes: Seq<Result<bool>>| #[trigger]
        asked_until(outcomes, rows.len(), stop) && positions_of(outcomes, at) && forall|i: int|
            0 <= i < outcomes.len() ==> asked(filter, def, rows[i].row, #[trigger] outcomes[i]);
    if at.contains(i as usize) {
        let a = at.index_of(i as usize);
        assert(at[a] == i);
        assert(outcomes[i] == Ok::<bool, CatalogError>(true));
        assert(asked(filter, def, rows[i].row, outcomes[i]));
    }
    if stop is None && !at.contains(i as usize) {
        assert(outcomes[i] is Ok);
        assert(asked(filter, def, rows[i].row, outcomes[i]));
        assert(outcomes[i] != Ok::<bool, CatalogError>(true));
    }
    if let Some(e) = stop {
        let k = outcomes.len() - 1;
        assert(asked(filter, def, rows[k].row, outcomes[k]));
        let m = choose|m: core::result::Result<bool, PolicyError>| #[trigger]
            answered(m, outcomes[k]) && call_ensures(F::matches, (&filter, &def, &rows[k].row), m);
        assert(m == Err::<bool, PolicyError>(m->Err_0));
        assert(call_ensures(
            F::matches,
            (&filter, &def, &rows[k].row),
            Err::<bool, PolicyError>(m->Err_0),
        ));
        if i >= k && at.contains(i as usize) {
            let a = at.index_of(i as usize);
            assert(at[a] == i);
        }
    }
}

/// A row is to be changed exactly where the policy, asked about it, matched it, and then to
/// the values that the policy gave for it.
pub proof fn proposals_follow_the_policy<U: RowUpdater>(
    policy: U,
    def: TableDef,
    rows: Seq<StoredRow>,
    list: Seq<Proposal>,
    stop: Option<CatalogError>,
    i: int,
)
    requires
        proposes(policy, def, rows, list, stop),
        0 <= i < rows.len(),
    ensures
        forall|a: int|
            0 <= a < list.len() && (#[trigger] list[a]).at == i ==> call_ensures(
                U::matches,
                (&policy, &def, &rows[i].row),
                Ok::<bool, PolicyError>(true),
            ) && call_ensures(
                U::new_values,
                (&policy, &def, &rows[i].row),
                Ok::<Vec<Cell>, PolicyError>(list[a].sets),
            ),
        stop is None && (forall|a: int| 0 <= a < list.len() ==> (#[trigger] list[a]).at != i)
            ==> call_ensures(
            U::matches,
            (&policy, &def, &rows[i].row),
            Ok::<bool, PolicyError>(false),
        ),
{
    let outcomes = choose|outcomes: Seq<Result<Option<Vec<Cell>>>>| #[trigger]
        asked_until(outcomes, rows.len(), stop) && proposals_of(outcomes, list) && forall|i: int|
            0 <= i < outcomes.len() ==> consulted(policy, def, rows[i].row, #[trigger] outcomes[i]);
    if i < outcomes.len() {
        assert(consulted(policy, def, rows[i].row, outcomes[i]));
    }
    assert forall|a: int| 0 <= a < list.len() && (#[trigger] list[a]).at == i implies call_ensures(
        U::matches,
        (&policy, &def, &rows[i].row),
        Ok::<bool, PolicyError>(true),
    ) && call_ensures(
        U::new_values,
        (&policy, &def, &rows[i].row),
        Ok::<Vec<Cell>, PolicyError>(list[a].sets),
    ) by {
        assert(outcomes[i] == Ok::<Option<Vec<Cell>>, CatalogError>(Some(list[a].sets)));
    }
    if stop is None && (forall|a: int| 0 <= a < list.len() ==> (#[trigger] list[a]).at != i) {
        assert(outcomes[i] is Ok);
        assert(!(outcomes[i] matches Ok(Some(_))));
    }
}

} // verus!
