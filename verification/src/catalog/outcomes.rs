//! What write transactions come to, told by their rows: which rows are let in, and
//! what stands afterwards.

use vstd::prelude::*;
use super::cells::{rows_pass_where_cells_are_taken, takes};
use super::check::asked_by_all;
use super::error::CatalogErrorV;
use super::fk::StoredRowV;
use super::job::{
    changed_error, deleted, deleted_where, doomed_keys, doomed_rows, fresh_error, inserted,
    removed_rows, staged_keys, updated_rows, updated_where, Changed, Doomed, Fresh,
};
use super::meaning::{answers, definitely, rows_pass_where_no_check_is_false};
use super::plan::{in_step, moves_start, rows_after, staged_as, taken_is_true};
use super::refs::{
    changed_rows_have_their_parents, changes_leave_no_reference_behind,
    fresh_rows_have_their_parents, has_key, holds_on, is_met, is_sound, is_still_met, pulls_away,
    refers, removals_leave_no_reference_behind,
};
use super::schema::TableV;
use super::unique::{
    accepted_batches_keep_unique_rows_apart, is_full, rows_are_staged_where_nothing_keeps_them_out,
};
use super::write::{clash_error, is_staged, removal, staged, ChangeV, KeyedV, Mode, MoveV};
use crate::value::{rows_alike, ValueV};

verus! {

// --- inserts -----------------------------------------------------------------

/// The moves of fresh rows.
pub open spec fn fresh_moves(rows: Seq<Fresh>) -> Seq<MoveV> {
    Seq::new(rows.len(), |i: int| rows[i].m@)
}

/// The keys of the first `n` of fresh rows.
pub open spec fn fresh_keys(rows: Seq<Fresh>, n: int) -> Seq<Seq<u8>> {
    Seq::new(n as nat, |i: int| rows[i].m@.pk_key)
}

/// Whether fresh row `i` may stand in its table: each column takes its cell, no
/// CHECK is definitely false of it, each foreign key is met by a committed row or,
/// on the table's own key, by an earlier row, and its key is new.
pub open spec fn may_stand(
    t: TableV,
    rows: Seq<Fresh>,
    i: int,
    order: spec_fn(ValueV, ValueV) -> int,
) -> bool {
    let row = rows[i].m@.new->Some_0.row;
    &&& forall|c: int|
        0 <= c < row.len() ==> takes(t, c, #[trigger] row[c], rows[i].json@[c])
    &&& forall|k: int|
        0 <= k < t.checks.len() ==> !definitely(#[trigger] t.checks[k], false, t, row, order)
    &&& forall|k: int|
        0 <= k < t.foreign_keys.len() ==> is_met(
            t,
            #[trigger] t.foreign_keys[k],
            row,
            fresh_keys(rows, i),
            rows[i].probes@[k],
        )
    &&& rows[i].pk_error is None
    &&& !rows[i].pk_taken
    &&& forall|j: int| 0 <= j < i ==> (#[trigger] rows[j]).m@.pk_key != rows[i].m@.pk_key
}

/// Whether the comparisons that fresh rows need are answered by an order.
pub open spec fn are_compared(
    t: TableV,
    rows: Seq<Fresh>,
    order: spec_fn(ValueV, ValueV) -> int,
) -> bool {
    forall|i: int|
        0 <= i < rows.len() ==> {
            &&& (#[trigger] rows[i]).complete(t)
            &&& rows[i].m@.new->Some_0.row.len() == t.columns.len()
            &&& answers(
                asked_by_all(t.checks, t, rows[i].m@.new->Some_0.row),
                rows[i].relations@,
                0,
                order,
            )
        }
}

proof fn lemma_fresh(
    table: Seq<char>,
    t: TableV,
    rows: Seq<Fresh>,
    cs: Seq<ChangeV>,
    i: int,
    order: spec_fn(ValueV, ValueV) -> int,
)
    requires
        are_compared(t, rows, order),
        0 <= i < rows.len(),
        staged_keys(cs) == fresh_keys(rows, i),
    ensures
        fresh_error(table, t, cs, rows[i]) is None <==> may_stand(t, rows, i, order),
{
    let f = rows[i];
    let row = f.m@.new->Some_0.row;
    assert(f.complete(t));
    rows_pass_where_cells_are_taken(t, row, f.json@);
    rows_pass_where_no_check_is_false(t, row, f.relations@, order);
    fresh_rows_have_their_parents(t, row, staged_keys(cs), f.probes@);
    assert(is_staged(cs, f.m@.pk_key) <==> exists|j: int|
        0 <= j < i && (#[trigger] rows[j]).m@.pk_key == f.m@.pk_key) by {
        assert(cs.len() == i) by {
            assert(staged_keys(cs).len() == fresh_keys(rows, i).len());
        }
        assert forall|j: int| 0 <= j < i implies #[trigger] cs[j].pk_key == rows[j].m@.pk_key by {
            assert(staged_keys(cs)[j] == fresh_keys(rows, i)[j]);
        }
        if is_staged(cs, f.m@.pk_key) {
            let c = choose|c: int| 0 <= c < cs.len() && (#[trigger] cs[c]).pk_key == f.m@.pk_key;
            assert(cs[c].pk_key == rows[c].m@.pk_key);
        }
        if exists|j: int| 0 <= j < i && (#[trigger] rows[j]).m@.pk_key == f.m@.pk_key {
            let j = choose|j: int| 0 <= j < i && (#[trigger] rows[j]).m@.pk_key == f.m@.pk_key;
            assert(cs[j].pk_key == f.m@.pk_key);
        }
    }
}

proof fn lemma_inserted(
    table: Seq<char>,
    t: TableV,
    rows: Seq<Fresh>,
    n: nat,
    order: spec_fn(ValueV, ValueV) -> int,
)
    requires
        n <= rows.len(),
        are_compared(t, rows, order),
    ensures
        match inserted(table, t, rows, n) {
            Ok(cs) => {
                &&& staged_keys(cs) == fresh_keys(rows, n as int)
                &&& staged_as(table, t, Mode::Insert, fresh_moves(rows).take(n as int), cs)
                &&& forall|i: int| 0 <= i < n ==> #[trigger] may_stand(t, rows, i, order)
            },
            Err(_) => exists|i: int, cs: Seq<ChangeV>|
                {
                    &&& 0 <= i < n
                    &&& #[trigger] staged_as(
                        table,
                        t,
                        Mode::Insert,
                        #[trigger] fresh_moves(rows).take(i),
                        cs,
                    )
                    &&& !may_stand(t, rows, i, order) || staged(
                        table,
                        t,
                        Mode::Insert,
                        cs,
                        rows[i].m@,
                    ) is Err
                },
        },
    decreases n,
{
    let moves = fresh_moves(rows);
    if n == 0 {
        assert(staged_keys(Seq::empty()) =~= fresh_keys(rows, 0));
    } else {
        let l = n - 1;
        lemma_inserted(table, t, rows, (n - 1) as nat, order);
        if let Ok(cs) = inserted(table, t, rows, (n - 1) as nat) {
            lemma_fresh(table, t, rows, cs, l, order);
            assert(staged_as(table, t, Mode::Insert, moves.take(l), cs));
            if fresh_error(table, t, cs, rows[l]) is None {
                if let Ok(c) = staged(table, t, Mode::Insert, cs, rows[l].m@) {
                    lemma_staged_push(table, t, Mode::Insert, moves, cs, c, l);
                    rows_are_staged_where_nothing_keeps_them_out(
                        table,
                        t,
                        Mode::Insert,
                        cs,
                        rows[l].m@,
                    );
                    assert forall|j: int| 0 <= j < n implies #[trigger] staged_keys(cs.push(c))[j]
                        == fresh_keys(rows, n as int)[j] by {
                        if j < l {
                            assert(staged_keys(cs)[j] == fresh_keys(rows, l)[j]);
                        }
                    }
                    assert(staged_keys(cs).len() == fresh_keys(rows, l).len());
                    assert(staged_keys(cs.push(c)) =~= fresh_keys(rows, n as int));
                }
            }
        }
    }
}

proof fn lemma_staged_push(
    table: Seq<char>,
    t: TableV,
    mode: Mode,
    moves: Seq<MoveV>,
    cs: Seq<ChangeV>,
    c: ChangeV,
    l: int,
)
    requires
        0 <= l < moves.len(),
        staged_as(table, t, mode, moves.take(l), cs),
        staged(table, t, mode, cs, moves[l]) == Ok::<ChangeV, CatalogErrorV>(c),
    ensures
        staged_as(table, t, mode, moves.take(l + 1), cs.push(c)),
{
    let after = cs.push(c);
    let all = moves.take(l + 1);
    assert(cs.len() == l);
    assert forall|k: int| 0 <= k < all.len() implies #[trigger] staged(
        table,
        t,
        mode,
        after.take(k),
        all[k],
    ) == Ok::<ChangeV, CatalogErrorV>(after[k]) by {
        if k < l {
            assert(after.take(k) =~= cs.take(k));
            assert(all[k] == moves.take(l)[k]);
            assert(staged(table, t, mode, cs.take(k), moves.take(l)[k]) == Ok::<
                ChangeV,
                CatalogErrorV,
            >(cs[k]));
        } else {
            assert(after.take(k) =~= cs);
        }
    }
}

/// Rows are inserted exactly where each of them may stand and can be staged behind
/// those before it; they are then all staged, in order.
pub proof fn inserts_let_in_rows_that_may_stand(
    table: Seq<char>,
    t: TableV,
    rows: Seq<Fresh>,
    order: spec_fn(ValueV, ValueV) -> int,
)
    requires
        are_compared(t, rows, order),
    ensures
        match inserted(table, t, rows, rows.len()) {
            Ok(cs) => {
                &&& staged_as(table, t, Mode::Insert, fresh_moves(rows), cs)
                &&& forall|i: int|
                    0 <= i < rows.len() ==> #[trigger] may_stand(t, rows, i, order)
            },
            Err(_) => exists|i: int, cs: Seq<ChangeV>|
                {
                    &&& 0 <= i < rows.len()
                    &&& #[trigger] staged_as(
                        table,
                        t,
                        Mode::Insert,
                        #[trigger] fresh_moves(rows).take(i),
                        cs,
                    )
                    &&& !may_stand(t, rows, i, order) || staged(
                        table,
                        t,
                        Mode::Insert,
                        cs,
                        rows[i].m@,
                    ) is Err
                },
        },
{
    lemma_inserted(table, t, rows, rows.len(), order);
    assert(fresh_moves(rows).take(rows.len() as int) =~= fresh_moves(rows));
}

/// After an insert that was let through, two different rows never have the same
/// encoding under the columns of a unique index, but where a cell is NULL.
pub proof fn inserts_keep_unique_rows_apart(
    table: Seq<char>,
    t: TableV,
    rows: Seq<Fresh>,
    base: Map<Seq<u8>, KeyedV>,
    m: Map<Seq<u8>, Seq<u8>>,
    i: int,
    a: Seq<u8>,
    b: Seq<u8>,
    order: spec_fn(ValueV, ValueV) -> int,
)
    requires
        inserted(table, t, rows, rows.len()) is Ok,
        are_compared(t, rows, order),
        0 <= i < t.indexes.len(),
        t.indexes[i].unique,
        in_step(t, i, base, m),
        moves_start(base, fresh_moves(rows)),
        taken_is_true(t, i, m, fresh_moves(rows)),
        rows_after(base, fresh_moves(rows)).contains_key(a),
        rows_after(base, fresh_moves(rows)).contains_key(b),
        a != b,
        is_full(t, t.indexes[i], rows_after(base, fresh_moves(rows))[a].row),
        is_full(t, t.indexes[i], rows_after(base, fresh_moves(rows))[b].row),
        rows_after(base, fresh_moves(rows))[a].keys[i] is Ok,
    ensures
        rows_after(base, fresh_moves(rows))[a].keys[i] != rows_after(
            base,
            fresh_moves(rows),
        )[b].keys[i],
{
    inserts_let_in_rows_that_may_stand(table, t, rows, order);
    let cs = inserted(table, t, rows, rows.len())->Ok_0;
    accepted_batches_keep_unique_rows_apart(
        table,
        t,
        Mode::Insert,
        base,
        m,
        fresh_moves(rows),
        cs,
        i,
        a,
        b,
    );
}

// --- updates -----------------------------------------------------------------

/// The moves of changed rows.
pub open spec fn changed_moves(rows: Seq<Changed>) -> Seq<MoveV> {
    Seq::new(rows.len(), |i: int| rows[i].m@)
}

/// Whether a changed row may stand in its table: no CHECK is definitely false of
/// it, each foreign key is met, and, where the table has a unique index, no row
/// references it by a key that it no longer has.
pub open spec fn may_become(
    t: TableV,
    c: Changed,
    tables: Seq<TableV>,
    contents: Seq<Seq<StoredRowV>>,
    order: spec_fn(ValueV, ValueV) -> int,
) -> bool {
    let was = c.m@.old->Some_0.row;
    let row = c.m@.new->Some_0.row;
    &&& forall|k: int|
        0 <= k < t.checks.len() ==> !definitely(#[trigger] t.checks[k], false, t, row, order)
    &&& forall|k: int|
        0 <= k < t.foreign_keys.len() ==> is_still_met(
            t,
            #[trigger] t.foreign_keys[k],
            was,
            row,
            c.found@[k],
        )
    &&& (exists|i: int| 0 <= i < t.indexes.len() && (#[trigger] t.indexes[i]).unique) ==> forall|
        d: int,
        k: int,
    |
        !(#[trigger] pulls_away(t, was, row, tables, contents, d, k))
}

/// Whether the comparisons that changed rows need are answered by an order.
pub open spec fn changes_are_compared(
    t: TableV,
    rows: Seq<Changed>,
    order: spec_fn(ValueV, ValueV) -> int,
) -> bool {
    forall|i: int|
        0 <= i < rows.len() ==> answers(
            asked_by_all(t.checks, t, (#[trigger] rows[i]).m@.new->Some_0.row),
            rows[i].relations@,
            0,
            order,
        )
}

proof fn lemma_changed(
    t: TableV,
    c: Changed,
    tables: Seq<TableV>,
    contents: Seq<Seq<StoredRowV>>,
    order: spec_fn(ValueV, ValueV) -> int,
)
    requires
        answers(
            asked_by_all(t.checks, t, c.m@.new->Some_0.row),
            c.relations@,
            0,
            order,
        ),
    ensures
        changed_error(t, c, tables, contents) is None <==> may_become(
            t,
            c,
            tables,
            contents,
            order,
        ),
{
    let was = c.m@.old->Some_0.row;
    let row = c.m@.new->Some_0.row;
    rows_pass_where_no_check_is_false(t, row, c.relations@, order);
    changed_rows_have_their_parents(t, was, row, c.found@);
    changes_leave_no_reference_behind(t, was, row, tables, contents);
}

/// Rows are updated exactly where each may become what it is to become and can be
/// staged behind those before it; they are then all staged, in order.
pub proof fn updates_let_in_rows_that_may_become(
    table: Seq<char>,
    t: TableV,
    mode: Mode,
    rows: Seq<Changed>,
    tables: Seq<TableV>,
    contents: Seq<Seq<StoredRowV>>,
    n: nat,
    order: spec_fn(ValueV, ValueV) -> int,
)
    requires
        n <= rows.len(),
        changes_are_compared(t, rows, order),
    ensures
        match updated_rows(table, t, mode, rows, tables, contents, n) {
            Ok(cs) => {
                &&& staged_as(table, t, mode, changed_moves(rows).take(n as int), cs)
                &&& forall|i: int|
                    0 <= i < n ==> may_become(t, #[trigger] rows[i], tables, contents, order)
            },
            Err(_) => exists|i: int, cs: Seq<ChangeV>|
                {
                    &&& 0 <= i < n
                    &&& #[trigger] staged_as(
                        table,
                        t,
                        mode,
                        #[trigger] changed_moves(rows).take(i),
                        cs,
                    )
                    &&& !may_become(t, rows[i], tables, contents, order) || staged(
                        table,
                        t,
                        mode,
                        cs,
                        rows[i].m@,
                    ) is Err
                },
        },
    decreases n,
{
    let moves = changed_moves(rows);
    if n > 0 {
        let l = n - 1;
        updates_let_in_rows_that_may_become(
            table,
            t,
            mode,
            rows,
            tables,
            contents,
            (n - 1) as nat,
            order,
        );
        if let Ok(cs) = updated_rows(table, t, mode, rows, tables, contents, (n - 1) as nat) {
            assert(rows[l] == rows[l]);
            lemma_changed(t, rows[l], tables, contents, order);
            assert(staged_as(table, t, mode, moves.take(l), cs));
            if changed_error(t, rows[l], tables, contents) is None {
                if let Ok(c) = staged(table, t, mode, cs, rows[l].m@) {
                    lemma_staged_push(table, t, mode, moves, cs, c, l);
                }
            }
        }
    }
}

/// A conditional update goes through exactly where its rows are updated, nothing
/// stopped the matching of others, and no committed entry is left at a place that
/// a row moves to.
pub proof fn conditional_updates_settle_their_rows(
    table: Seq<char>,
    t: TableV,
    rows: Seq<Changed>,
    tables: Seq<TableV>,
    contents: Seq<Seq<StoredRowV>>,
    stopped: Option<CatalogErrorV>,
)
    ensures
        match updated_where(table, t, rows, tables, contents, stopped) {
            Ok(cs) => {
                &&& updated_rows(table, t, Mode::Many, rows, tables, contents, rows.len()) == Ok::<
                    Seq<ChangeV>,
                    CatalogErrorV,
                >(cs)
                &&& stopped is None
                &&& clash_error(table, t, cs, 0) is None
            },
            Err(e) => {
                let found = updated_rows(table, t, Mode::Many, rows, tables, contents, rows.len());
                ||| found == Err::<Seq<ChangeV>, CatalogErrorV>(e)
                ||| found is Ok && stopped == Some(e)
                ||| found is Ok && stopped is None && clash_error(table, t, found->Ok_0, 0) == Some(
                    e,
                )
            },
        },
{
}

/// After a conditional update that was let through, two different rows never have
/// the same encoding under the columns of a unique index, but where a cell is NULL,
/// even where the rows handed their values on to each other.
pub proof fn conditional_updates_keep_unique_rows_apart(
    table: Seq<char>,
    t: TableV,
    rows: Seq<Changed>,
    tables: Seq<TableV>,
    contents: Seq<Seq<StoredRowV>>,
    base: Map<Seq<u8>, KeyedV>,
    m: Map<Seq<u8>, Seq<u8>>,
    i: int,
    a: Seq<u8>,
    b: Seq<u8>,
    order: spec_fn(ValueV, ValueV) -> int,
)
    requires
        updated_where(table, t, rows, tables, contents, None) is Ok,
        changes_are_compared(t, rows, order),
        0 <= i < t.indexes.len(),
        t.indexes[i].unique,
        in_step(t, i, base, m),
        moves_start(base, changed_moves(rows)),
        taken_is_true(t, i, m, changed_moves(rows)),
        rows_after(base, changed_moves(rows)).contains_key(a),
        rows_after(base, changed_moves(rows)).contains_key(b),
        a != b,
        is_full(t, t.indexes[i], rows_after(base, changed_moves(rows))[a].row),
        is_full(t, t.indexes[i], rows_after(base, changed_moves(rows))[b].row),
        rows_after(base, changed_moves(rows))[a].keys[i] is Ok,
    ensures
        rows_after(base, changed_moves(rows))[a].keys[i] != rows_after(
            base,
            changed_moves(rows),
        )[b].keys[i],
{
    updates_let_in_rows_that_may_become(
        table,
        t,
        Mode::Many,
        rows,
        tables,
        contents,
        rows.len(),
        order,
    );
    assert(changed_moves(rows).take(rows.len() as int) =~= changed_moves(rows));
    let cs = updated_where(table, t, rows, tables, contents, None)->Ok_0;
    accepted_batches_keep_unique_rows_apart(
        table,
        t,
        Mode::Many,
        base,
        m,
        changed_moves(rows),
        cs,
        i,
        a,
        b,
    );
}

/// Where the cells of a table's own key stay, no row loses what it references by
/// them: only a unique index can take a referenced key away.
pub proof fn kept_keys_keep_their_references(
    parent: TableV,
    old_row: Seq<ValueV>,
    new_row: Seq<ValueV>,
    tables: Seq<TableV>,
    contents: Seq<Seq<StoredRowV>>,
    c: int,
    k: int,
)
    requires
        0 <= c < tables.len(),
        0 <= k < tables[c].foreign_keys.len(),
        is_sound(tables[c], tables[c].foreign_keys[k], parent),
        forall|i: int| 0 <= i < parent.indexes.len() ==> !(#[trigger] parent.indexes[i]).unique,
        forall|key: Seq<ValueV>|
            #[trigger] has_key(parent, old_row, parent.pk, key) ==> has_key(
                parent,
                new_row,
                parent.pk,
                key,
            ),
    ensures
        !pulls_away(parent, old_row, new_row, tables, contents, c, k),
{
    let fk = tables[c].foreign_keys[k];
    if pulls_away(parent, old_row, new_row, tables, contents, c, k) {
        let i = choose|i: int|
            0 <= i < contents[c].len() && refers(
                tables[c],
                fk,
                (#[trigger] contents[c][i]).row,
                parent,
                old_row,
            );
        let (own, key) = choose|own: Seq<ValueV>, key: Seq<ValueV>|
            {
                &&& #[trigger] has_key(tables[c], contents[c][i].row, fk.columns, own)
                &&& #[trigger] has_key(parent, old_row, fk.parent_columns, key)
                &&& rows_alike(own, key)
            };
        assert(has_key(parent, new_row, fk.parent_columns, key));
        assert(rows_alike(key, key)) by {
            assert forall|j: int| 0 <= j < key.len() implies crate::value::alike(
                #[trigger] key[j],
                key[j],
            ) by {
                assert(crate::value::alike(own[j], key[j]));
            }
        }
    }
}

// --- deletes -----------------------------------------------------------------

/// The moves of doomed rows.
pub open spec fn doomed_moves(t: TableV, rows: Seq<Doomed>) -> Seq<MoveV> {
    Seq::new(rows.len(), |i: int| removal(t.indexes.len(), rows[i].pk_key@, rows[i].row@))
}

proof fn lemma_removed(table: Seq<char>, t: TableV, rows: Seq<Doomed>, n: nat)
    requires
        n <= rows.len(),
    ensures
        match removed_rows(table, t, rows, n) {
            Ok(cs) => staged_as(table, t, Mode::Many, doomed_moves(t, rows).take(n as int), cs),
            Err(e) => exists|i: int, cs: Seq<ChangeV>|
                {
                    &&& 0 <= i < n
                    &&& #[trigger] staged_as(
                        table,
                        t,
                        Mode::Many,
                        #[trigger] doomed_moves(t, rows).take(i),
                        cs,
                    )
                    &&& staged(table, t, Mode::Many, cs, doomed_moves(t, rows)[i]) == Err::<
                        ChangeV,
                        CatalogErrorV,
                    >(e)
                },
        },
    decreases n,
{
    if n > 0 {
        let l = n - 1;
        let moves = doomed_moves(t, rows);
        lemma_removed(table, t, rows, (n - 1) as nat);
        if let Ok(cs) = removed_rows(table, t, rows, (n - 1) as nat) {
            assert(staged_as(table, t, Mode::Many, moves.take(l), cs));
            if let Ok(c) = staged(table, t, Mode::Many, cs, moves[l]) {
                lemma_staged_push(table, t, Mode::Many, moves, cs, c, l);
            }
        }
    }
}

/// A removal starts from the committed row, under its own key, and leaves nothing.
pub proof fn removals_leave_nothing(n: nat, pk: Seq<u8>, row: KeyedV)
    ensures
        removal(n, pk, row).pk_key == pk,
        removal(n, pk, row).old == Some(row),
        removal(n, pk, row).new is None,
        removal(n, pk, row).taken.len() == n,
{
}

/// The rows that are to go.
pub open spec fn rows_of(rows: Seq<Doomed>) -> Seq<Seq<ValueV>> {
    Seq::new(rows.len(), |i: int| rows[i].row@.row)
}

/// The keys of the rows that are to go.
pub open spec fn keys_of(rows: Seq<Doomed>) -> Seq<Seq<u8>> {
    Seq::new(rows.len(), |i: int| rows[i].pk_key@)
}

/// A row that is deleted leaves no row behind that references it, in any table;
/// it is refused so where one would stay, whatever else there is to say of it.
pub proof fn deletes_leave_no_reference_behind(
    table: Seq<char>,
    t: TableV,
    doomed: Doomed,
    tables: Seq<TableV>,
    contents: Seq<Seq<StoredRowV>>,
)
    ensures
        ({
            let rows = seq![doomed];
            let held = exists|c: int, k: int|
                #[trigger] holds_on(t, rows_of(rows), keys_of(rows), tables, contents, c, k);
            match deleted(table, t, doomed, tables, contents) {
                Ok(cs) => !held && staged_as(table, t, Mode::Many, doomed_moves(t, rows), cs),
                Err(e) => {
                    ||| held && e is ReferencedByChildren
                    ||| !held && staged(
                        table,
                        t,
                        Mode::Many,
                        Seq::empty(),
                        doomed_moves(t, rows)[0],
                    ) == Err::<ChangeV, CatalogErrorV>(e)
                },
            }
        }),
{
    let rows = seq![doomed];
    assert(doomed_rows(rows) =~= rows_of(rows));
    assert(doomed_keys(rows) =~= keys_of(rows));
    removals_leave_no_reference_behind(t, rows_of(rows), keys_of(rows), tables, contents);
    lemma_removed(table, t, rows, 1);
    assert(doomed_moves(t, rows).take(1) =~= doomed_moves(t, rows));
    if removed_rows(table, t, rows, 1) is Err {
        let (i, cs) = choose|i: int, cs: Seq<ChangeV>|
            {
                &&& 0 <= i < 1
                &&& #[trigger] staged_as(
                    table,
                    t,
                    Mode::Many,
                    #[trigger] doomed_moves(t, rows).take(i),
                    cs,
                )
                &&& staged(table, t, Mode::Many, cs, doomed_moves(t, rows)[i]) == Err::<
                    ChangeV,
                    CatalogErrorV,
                >(removed_rows(table, t, rows, 1)->Err_0)
            };
        assert(cs =~= Seq::empty());
    }
}

/// Rows that are deleted together leave no row behind that references one of them;
/// rows among them may reference each other.
pub proof fn conditional_deletes_leave_no_reference_behind(
    table: Seq<char>,
    t: TableV,
    rows: Seq<Doomed>,
    tables: Seq<TableV>,
    contents: Seq<Seq<StoredRowV>>,
    stopped: Option<CatalogErrorV>,
)
    ensures
        ({
            let held = exists|c: int, k: int|
                #[trigger] holds_on(t, rows_of(rows), keys_of(rows), tables, contents, c, k);
            match deleted_where(table, t, rows, tables, contents, stopped) {
                Ok(cs) => {
                    &&& !held
                    &&& stopped is None
                    &&& staged_as(table, t, Mode::Many, doomed_moves(t, rows), cs)
                },
                Err(e) => {
                    let found = removed_rows(table, t, rows, rows.len());
                    ||| found == Err::<Seq<ChangeV>, CatalogErrorV>(e)
                    ||| found is Ok && stopped == Some(e)
                    ||| found is Ok && stopped is None && held && e is ReferencedByChildren
                },
            }
        }),
{
    assert(doomed_rows(rows) =~= rows_of(rows));
    assert(doomed_keys(rows) =~= keys_of(rows));
    removals_leave_no_reference_behind(t, rows_of(rows), keys_of(rows), tables, contents);
    lemma_removed(table, t, rows, rows.len());
    assert(doomed_moves(t, rows).take(rows.len() as int) =~= doomed_moves(t, rows));
}

} // verus!
