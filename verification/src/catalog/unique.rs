//! What indexes keep of their rows: every row stands where its cells and their
//! encoding put it, and in a unique index no two rows stand at one place.

use vstd::prelude::*;
use super::apply::filled;
use super::audit::expected;
use super::ddl::{backfill, built_unique_indexes_hold_no_key_twice, has_entry_key};
use super::error::CatalogErrorV;
use super::fk::{full_key, StoredRowV};
use super::plan::{
    batches_keep_indexes_in_step, in_step, index_after, key_at, moves_start, rows_after, staged_as,
    taken_is_true,
};
use super::refs::{full_keys_hold_no_null, has_key};
use super::row::cells_named;
use super::schema::{IndexV, TableV};
use super::write::{
    arriving, brings, clash_error, contribution, delta_at, deltas_from, staged, too_large, ChangeV,
    DeltaV, KeyedV, Mode, MoveV,
};
use crate::index::{entry_of, EntryV, IndexError};
use crate::value::{TypeError, ValueV};

verus! {

/// Whether a row has a cell under each column of an index, none of them NULL.
pub open spec fn is_full(t: TableV, x: IndexV, row: Seq<ValueV>) -> bool {
    exists|cells: Seq<ValueV>| #[trigger] has_key(t, row, x.columns, cells)
}

/// Whether a row stands at a key of an index: at the encoding of its cells in a
/// unique one, where none of them is NULL, and at the encoding with the row's own
/// key behind it in another.
pub open spec fn is_filed(
    t: TableV,
    x: IndexV,
    row: Seq<ValueV>,
    encoded: core::result::Result<Seq<u8>, TypeError>,
    pk: Seq<u8>,
    key: Seq<u8>,
) -> bool {
    &&& encoded matches Ok(bytes) && key == if x.unique {
        bytes
    } else {
        bytes + pk
    }
    &&& x.unique ==> is_full(t, x, row)
}

/// A row's entry is where the row stands; it has none exactly where the index is
/// unique and a cell is NULL or missing, and otherwise fails exactly as its
/// encoding does.
pub proof fn entries_are_where_rows_stand(
    t: TableV,
    x: IndexV,
    row: Seq<ValueV>,
    encoded: core::result::Result<Seq<u8>, TypeError>,
    pk: Seq<u8>,
)
    ensures
        match entry_of(cells_named(t, row, x.columns), encoded, pk, x.unique) {
            Ok(Some(e)) => e.value == pk && is_filed(t, x, row, encoded, pk, e.key),
            Ok(None) => x.unique && !is_full(t, x, row),
            Err(e) => {
                &&& encoded matches Err(te) && e == IndexError::Type(te)
                &&& x.unique ==> is_full(t, x, row)
            },
        },
        forall|key: Seq<u8>| #[trigger]
            is_filed(t, x, row, encoded, pk, key) ==> entry_of(
                cells_named(t, row, x.columns),
                encoded,
                pk,
                x.unique,
            ) == Ok::<Option<EntryV>, IndexError>(Some(EntryV { key, value: pk })),
{
    let cells = cells_named(t, row, x.columns);
    assert forall|key: Seq<ValueV>| #[trigger] has_key(t, row, x.columns, key) implies full_key(
        t,
        row,
        x.columns,
    ) == Some(key) by {
        full_keys_hold_no_null(t, row, x.columns, key);
    }
    if let Some(key) = full_key(t, row, x.columns) {
        full_keys_hold_no_null(t, row, x.columns, key);
    }
    crate::index::entries_are_keyed_by_their_encoding(cells, encoded, pk, x.unique);
}

// --- indexes beside their tables ---------------------------------------------

proof fn lemma_key_at(t: TableV, i: int, pk: Seq<u8>, row: KeyedV)
    ensures
        forall|key: Seq<u8>| #[trigger]
            is_filed(t, t.indexes[i], row.row, row.keys[i], pk, key) <==> key_at(
                t,
                i,
                pk,
                Some(row),
            ) == Some(key),
{
    entries_are_where_rows_stand(t, t.indexes[i], row.row, row.keys[i], pk);
    assert forall|key: Seq<u8>| key_at(t, i, pk, Some(row)) == Some(key) implies #[trigger] is_filed(
        t,
        t.indexes[i],
        row.row,
        row.keys[i],
        pk,
        key,
    ) by {}
}

/// An index is in step with its table exactly where it points at each row from
/// where the row stands, and from nowhere else.
pub proof fn indexes_in_step_point_at_rows(
    t: TableV,
    i: int,
    base: Map<Seq<u8>, KeyedV>,
    m: Map<Seq<u8>, Seq<u8>>,
)
    ensures
        in_step(t, i, base, m) <==> {
            &&& forall|pk: Seq<u8>, key: Seq<u8>|
                base.contains_key(pk) && #[trigger] is_filed(
                    t,
                    t.indexes[i],
                    base[pk].row,
                    base[pk].keys[i],
                    pk,
                    key,
                ) ==> m.contains_key(key) && m[key] == pk
            &&& forall|key: Seq<u8>| #[trigger]
                m.contains_key(key) ==> base.contains_key(m[key]) && is_filed(
                    t,
                    t.indexes[i],
                    base[m[key]].row,
                    base[m[key]].keys[i],
                    m[key],
                    key,
                )
        },
{
    assert forall|pk: Seq<u8>, key: Seq<u8>| #[trigger]
        is_filed(t, t.indexes[i], base[pk].row, base[pk].keys[i], pk, key) <==> key_at(
            t,
            i,
            pk,
            Some(base[pk]),
        ) == Some(key) by {
        lemma_key_at(t, i, pk, base[pk]);
    }
    if in_step(t, i, base, m) {
        assert forall|key: Seq<u8>| #[trigger] m.contains_key(key) implies base.contains_key(m[key])
            && is_filed(
            t,
            t.indexes[i],
            base[m[key]].row,
            base[m[key]].keys[i],
            m[key],
            key,
        ) by {}
    } else {
        if forall|pk: Seq<u8>, key: Seq<u8>|
            base.contains_key(pk) && #[trigger] is_filed(
                t,
                t.indexes[i],
                base[pk].row,
                base[pk].keys[i],
                pk,
                key,
            ) ==> m.contains_key(key) && m[key] == pk {
            assert forall|pk: Seq<u8>| #[trigger] base.contains_key(pk) implies match key_at(
                t,
                i,
                pk,
                Some(base[pk]),
            ) {
                Some(k) => m.contains_key(k) && m[k] == pk,
                None => true,
            } by {
                if let Some(k) = key_at(t, i, pk, Some(base[pk])) {
                    assert(is_filed(t, t.indexes[i], base[pk].row, base[pk].keys[i], pk, k));
                }
            }
        }
    }
}

/// Two rows of a table that a unique index is in step with never have the same
/// encoding under the index's columns, but where one of their cells is NULL.
pub proof fn rows_of_unique_indexes_differ(
    t: TableV,
    i: int,
    base: Map<Seq<u8>, KeyedV>,
    m: Map<Seq<u8>, Seq<u8>>,
    a: Seq<u8>,
    b: Seq<u8>,
)
    requires
        t.indexes[i].unique,
        in_step(t, i, base, m),
        base.contains_key(a),
        base.contains_key(b),
        a != b,
        is_full(t, t.indexes[i], base[a].row),
        is_full(t, t.indexes[i], base[b].row),
        base[a].keys[i] is Ok,
    ensures
        base[a].keys[i] != base[b].keys[i],
{
    indexes_in_step_point_at_rows(t, i, base, m);
    let key = base[a].keys[i]->Ok_0;
    assert(is_filed(t, t.indexes[i], base[a].row, base[a].keys[i], a, key));
    if base[a].keys[i] == base[b].keys[i] {
        assert(is_filed(t, t.indexes[i], base[b].row, base[b].keys[i], b, key));
    }
}

/// After a batch that was let through, two different rows never have the same
/// encoding under the columns of a unique index, but where one of their cells is
/// NULL: however many columns the index has, and whether the rows were there, came
/// with the batch or were changed by it.
pub proof fn accepted_batches_keep_unique_rows_apart(
    table: Seq<char>,
    t: TableV,
    mode: Mode,
    base: Map<Seq<u8>, KeyedV>,
    m: Map<Seq<u8>, Seq<u8>>,
    moves: Seq<MoveV>,
    cs: Seq<ChangeV>,
    i: int,
    a: Seq<u8>,
    b: Seq<u8>,
)
    requires
        0 <= i < t.indexes.len(),
        t.indexes[i].unique,
        in_step(t, i, base, m),
        moves_start(base, moves),
        staged_as(table, t, mode, moves, cs),
        taken_is_true(t, i, m, moves),
        mode == Mode::Update ==> moves.len() <= 1,
        mode == Mode::Many ==> clash_error(table, t, cs, 0) is None,
        rows_after(base, moves).contains_key(a),
        rows_after(base, moves).contains_key(b),
        a != b,
        is_full(t, t.indexes[i], rows_after(base, moves)[a].row),
        is_full(t, t.indexes[i], rows_after(base, moves)[b].row),
        rows_after(base, moves)[a].keys[i] is Ok,
    ensures
        rows_after(base, moves)[a].keys[i] != rows_after(base, moves)[b].keys[i],
{
    batches_keep_indexes_in_step(table, t, mode, base, m, moves, cs, i);
    rows_of_unique_indexes_differ(
        t,
        i,
        rows_after(base, moves),
        index_after(m, cs, i as nat),
        a,
        b,
    );
}

// --- fresh indexes -----------------------------------------------------------

/// Whether row `a` stands at a key of an index.
pub open spec fn stands(
    t: TableV,
    x: IndexV,
    rows: Seq<StoredRowV>,
    keys: Seq<core::result::Result<Seq<u8>, TypeError>>,
    a: int,
    key: Seq<u8>,
) -> bool {
    0 <= a < rows.len() && is_filed(t, x, rows[a].row, keys[a], rows[a].pk_key, key)
}

/// Whether an entry is that of one of the first `n` rows, at its place.
pub open spec fn is_entry_of(
    t: TableV,
    x: IndexV,
    rows: Seq<StoredRowV>,
    keys: Seq<core::result::Result<Seq<u8>, TypeError>>,
    n: nat,
    e: EntryV,
) -> bool {
    exists|a: int|
        a < n && #[trigger] stands(t, x, rows, keys, a, e.key) && e.value == rows[a].pk_key
}

/// Whether entries are those of the first `n` rows: one for each that stands in
/// the index, at its place, and no other.
pub open spec fn are_entries_of(
    t: TableV,
    x: IndexV,
    rows: Seq<StoredRowV>,
    keys: Seq<core::result::Result<Seq<u8>, TypeError>>,
    n: nat,
    es: Seq<EntryV>,
) -> bool {
    &&& forall|a: int, key: Seq<u8>|
        a < n && #[trigger] stands(t, x, rows, keys, a, key) ==> es.contains(
            EntryV { key, value: rows[a].pk_key },
        )
    &&& forall|k: int|
        0 <= k < es.len() ==> is_entry_of(t, x, rows, keys, n, #[trigger] es[k])
}

/// Whether a row keeps an index from being built: its cells have no encoding, an
/// earlier row stands at its place in a unique index, or its entry could never fit
/// a node.
pub open spec fn is_in_the_way(
    t: TableV,
    x: IndexV,
    rows: Seq<StoredRowV>,
    keys: Seq<core::result::Result<Seq<u8>, TypeError>>,
    a: int,
) -> bool {
    ||| (x.unique ==> is_full(t, x, rows[a].row)) && keys[a] is Err
    ||| exists|key: Seq<u8>|
        {
            &&& #[trigger] stands(t, x, rows, keys, a, key)
            &&& {
                ||| x.unique && exists|b: int|
                    0 <= b < a && #[trigger] stands(t, x, rows, keys, b, key)
                ||| too_large(key, rows[a].pk_key) is Some
            }
        }
}

proof fn lemma_backfill(
    t: TableV,
    x: IndexV,
    rows: Seq<StoredRowV>,
    keys: Seq<core::result::Result<Seq<u8>, TypeError>>,
    n: nat,
)
    requires
        n <= rows.len(),
    ensures
        match backfill(t, x, rows, keys, n) {
            Ok(es) => {
                &&& are_entries_of(t, x, rows, keys, n, es)
                &&& forall|a: int|
                    0 <= a < n ==> !(#[trigger] is_in_the_way(t, x, rows, keys, a))
            },
            Err(_) => exists|a: int|
                0 <= a < n && #[trigger] is_in_the_way(t, x, rows, keys, a),
        },
    decreases n,
{
    if n > 0 {
        let l = n - 1;
        lemma_backfill(t, x, rows, keys, (n - 1) as nat);
        entries_are_where_rows_stand(t, x, rows[l].row, keys[l], rows[l].pk_key);
        if let Ok(es) = backfill(t, x, rows, keys, (n - 1) as nat) {
            match entry_of(
                cells_named(t, rows[l].row, x.columns),
                keys[l],
                rows[l].pk_key,
                x.unique,
            ) {
                Err(e) => {
                    assert(is_in_the_way(t, x, rows, keys, l));
                },
                Ok(None) => {
                    assert(forall|key: Seq<u8>| !(#[trigger] stands(t, x, rows, keys, l, key)));
                },
                Ok(Some(e)) => {
                    assert(stands(t, x, rows, keys, l, e.key));
                    if x.unique && has_entry_key(es, e.key) {
                        let k = choose|k: int| 0 <= k < es.len() && (#[trigger] es[k]).key == e.key;
                        assert(is_entry_of(t, x, rows, keys, l as nat, es[k]));
                        let b = choose|b: int|
                            b < l && #[trigger] stands(t, x, rows, keys, b, es[k].key)
                                && es[k].value == rows[b].pk_key;
                        assert(stands(t, x, rows, keys, b, e.key));
                        assert(is_in_the_way(t, x, rows, keys, l));
                    } else if too_large(e.key, e.value) is Some {
                        assert(is_in_the_way(t, x, rows, keys, l));
                    } else {
                        lemma_backfill_one(t, x, rows, keys, l, es, e);
                    }
                },
            }
        }
    }
}

proof fn lemma_backfill_one(
    t: TableV,
    x: IndexV,
    rows: Seq<StoredRowV>,
    keys: Seq<core::result::Result<Seq<u8>, TypeError>>,
    l: int,
    es: Seq<EntryV>,
    e: EntryV,
)
    requires
        0 <= l < rows.len(),
        stands(t, x, rows, keys, l, e.key),
        e.value == rows[l].pk_key,
        keys[l] is Ok,
        too_large(e.key, e.value) is None,
        !(x.unique && has_entry_key(es, e.key)),
        are_entries_of(t, x, rows, keys, l as nat, es),
    ensures
        are_entries_of(t, x, rows, keys, (l + 1) as nat, es.push(e)),
        !is_in_the_way(t, x, rows, keys, l),
{
    lemma_expected_one(t, x, rows, keys, l, es, e);
    assert forall|key: Seq<u8>| #[trigger] stands(t, x, rows, keys, l, key) implies key == e.key by {}
    assert forall|b: int| 0 <= b < l && x.unique implies !(#[trigger] stands(
        t,
        x,
        rows,
        keys,
        b,
        e.key,
    )) by {
        if stands(t, x, rows, keys, b, e.key) {
            let want = EntryV { key: e.key, value: rows[b].pk_key };
            assert(es.contains(want));
            let k = es.index_of(want);
            assert(es[k].key == e.key);
        }
    }
}

/// A fresh index is built exactly where no row is in the way. It then holds an
/// entry for each row that stands in it, at its place, and no other; so no two
/// rows of a unique one have the same encoding, but where a cell is NULL.
pub proof fn fresh_indexes_hold_their_rows(
    t: TableV,
    x: IndexV,
    rows: Seq<StoredRowV>,
    keys: Seq<core::result::Result<Seq<u8>, TypeError>>,
)
    ensures
        backfill(t, x, rows, keys, rows.len()) is Ok <==> (forall|a: int|
            0 <= a < rows.len() ==> !(#[trigger] is_in_the_way(t, x, rows, keys, a))),
        backfill(t, x, rows, keys, rows.len()) matches Ok(es) ==> {
            &&& are_entries_of(t, x, rows, keys, rows.len(), es)
            &&& forall|a: int, b: int|
                0 <= a < b < rows.len() && x.unique && is_full(t, x, #[trigger] rows[a].row)
                    && is_full(t, x, #[trigger] rows[b].row) && keys[a] is Ok ==> keys[a] != keys[b]
        },
{
    lemma_backfill(t, x, rows, keys, rows.len());
    if let Ok(es) = backfill(t, x, rows, keys, rows.len()) {
        assert forall|a: int, b: int|
            0 <= a < b < rows.len() && x.unique && is_full(t, x, #[trigger] rows[a].row)
                && is_full(t, x, #[trigger] rows[b].row) && keys[a] is Ok implies keys[a]
            != keys[b] by {
            if keys[a] == keys[b] {
                let key = keys[a]->Ok_0;
                assert(stands(t, x, rows, keys, a, key));
                assert(stands(t, x, rows, keys, b, key));
                assert(!is_in_the_way(t, x, rows, keys, b));
            }
        }
    }
}

/// Whether no two entries have the same key.
pub open spec fn are_apart(es: Seq<EntryV>) -> bool {
    forall|a: int, b: int|
        0 <= a < b < es.len() ==> (#[trigger] es[a]).key != (#[trigger] es[b]).key
}

proof fn lemma_filled(es: Seq<EntryV>)
    requires
        are_apart(es),
    ensures
        forall|j: int|
            0 <= j < es.len() ==> filled(es).contains_key((#[trigger] es[j]).key) && filled(
                es,
            )[es[j].key] == es[j].value,
        forall|k: Seq<u8>| #[trigger]
            filled(es).contains_key(k) ==> exists|j: int|
                0 <= j < es.len() && (#[trigger] es[j]).key == k,
    decreases es.len(),
{
    if es.len() > 0 {
        let front = es.drop_last();
        let l = es.len() - 1;
        assert forall|a: int, b: int| 0 <= a < b < front.len() implies (#[trigger] front[a]).key
            != (#[trigger] front[b]).key by {
            assert(es[a].key != es[b].key);
        }
        lemma_filled(front);
        assert forall|j: int| 0 <= j < es.len() implies filled(es).contains_key(
            (#[trigger] es[j]).key,
        ) && filled(es)[es[j].key] == es[j].value by {
            if j < l {
                assert(front[j] == es[j]);
                assert(es[j].key != es[l].key);
            }
        }
        assert forall|k: Seq<u8>| #[trigger] filled(es).contains_key(k) implies exists|j: int|
            0 <= j < es.len() && (#[trigger] es[j]).key == k by {
            if k == es.last().key {
                assert(es[l].key == k);
            } else {
                assert(filled(front).contains_key(k));
                let j = choose|j: int| 0 <= j < front.len() && (#[trigger] front[j]).key == k;
                assert(es[j].key == k);
            }
        }
    }
}

/// A fresh index is in step with its table: the tree that its entries fill points at each
/// row from where the row stands, and from nowhere else. In a plain index, which nothing is
/// compared in, the entries of different rows have different keys.
pub proof fn fresh_indexes_are_in_step(
    t: TableV,
    i: int,
    rows: Seq<StoredRowV>,
    keys: Seq<core::result::Result<Seq<u8>, TypeError>>,
    base: Map<Seq<u8>, KeyedV>,
)
    requires
        backfill(t, t.indexes[i], rows, keys, rows.len()) is Ok,
        forall|a: int|
            0 <= a < rows.len() ==> base.contains_key((#[trigger] rows[a]).pk_key)
                && base[rows[a].pk_key].row == rows[a].row && base[rows[a].pk_key].keys[i]
                == keys[a],
        forall|pk: Seq<u8>| #[trigger]
            base.contains_key(pk) ==> exists|a: int|
                0 <= a < rows.len() && (#[trigger] rows[a]).pk_key == pk,
        !t.indexes[i].unique ==> are_apart(
            backfill(t, t.indexes[i], rows, keys, rows.len())->Ok_0,
        ),
    ensures
        in_step(
            t,
            i,
            base,
            filled(backfill(t, t.indexes[i], rows, keys, rows.len())->Ok_0),
        ),
{
    let x = t.indexes[i];
    let es = backfill(t, x, rows, keys, rows.len())->Ok_0;
    let m = filled(es);
    assert forall|a: int, b: int| 0 <= a < b < es.len() implies (#[trigger] es[a]).key != (
    #[trigger] es[b]).key by {
        if x.unique {
            built_unique_indexes_hold_no_key_twice(t, x, rows, keys, rows.len(), a, b);
        }
    }
    lemma_filled(es);
    fresh_indexes_hold_their_rows(t, x, rows, keys);
    assert forall|pk: Seq<u8>, key: Seq<u8>|
        base.contains_key(pk) && #[trigger] is_filed(
            t,
            x,
            base[pk].row,
            base[pk].keys[i],
            pk,
            key,
        ) implies m.contains_key(key) && m[key] == pk by {
        let a = choose|a: int| 0 <= a < rows.len() && (#[trigger] rows[a]).pk_key == pk;
        assert(stands(t, x, rows, keys, a, key));
        let want = EntryV { key, value: pk };
        assert(es.contains(want));
        let j = es.index_of(want);
        assert(es[j] == want);
    }
    assert forall|key: Seq<u8>| #[trigger] m.contains_key(key) implies base.contains_key(m[key])
        && is_filed(t, x, base[m[key]].row, base[m[key]].keys[i], m[key], key) by {
        let j = choose|j: int| 0 <= j < es.len() && (#[trigger] es[j]).key == key;
        assert(is_entry_of(t, x, rows, keys, rows.len(), es[j]));
        let a = choose|a: int|
            a < rows.len() && #[trigger] stands(t, x, rows, keys, a, es[j].key) && es[j].value
                == rows[a].pk_key;
        assert(rows[a].pk_key == m[key]);
    }
    indexes_in_step_point_at_rows(t, i, base, m);
}

// --- the cross-check ---------------------------------------------------------

/// The entries expected of an index are those of its rows, each at its place; they
/// can be told exactly where the cells of each row that would stand in it have an
/// encoding.
pub proof fn expected_entries_are_those_of_rows(
    t: TableV,
    x: IndexV,
    rows: Seq<StoredRowV>,
    keys: Seq<core::result::Result<Seq<u8>, TypeError>>,
    n: nat,
)
    requires
        n <= rows.len(),
    ensures
        match expected(t, x, rows, keys, n) {
            Ok(es) => {
                &&& are_entries_of(t, x, rows, keys, n, es)
                &&& forall|a: int|
                    0 <= a < n && (x.unique ==> is_full(t, x, rows[a].row)) ==> (
                    #[trigger] keys[a]) is Ok
                &&& es.len() <= n
            },
            Err(e) => exists|a: int|
                {
                    &&& 0 <= a < n
                    &&& x.unique ==> is_full(t, x, rows[a].row)
                    &&& (#[trigger] keys[a]) matches Err(te) && e == CatalogErrorV::Index(IndexError::Type(te))
                },
        },
    decreases n,
{
    if n > 0 {
        let l = n - 1;
        expected_entries_are_those_of_rows(t, x, rows, keys, (n - 1) as nat);
        entries_are_where_rows_stand(t, x, rows[l].row, keys[l], rows[l].pk_key);
        if let Ok(es) = expected(t, x, rows, keys, (n - 1) as nat) {
            match entry_of(
                cells_named(t, rows[l].row, x.columns),
                keys[l],
                rows[l].pk_key,
                x.unique,
            ) {
                Err(e) => {
                    assert(keys[l] is Err);
                },
                Ok(None) => {
                    assert(forall|key: Seq<u8>| !(#[trigger] stands(t, x, rows, keys, l, key)));
                },
                Ok(Some(e)) => {
                    assert(stands(t, x, rows, keys, l, e.key));
                    lemma_expected_one(t, x, rows, keys, l, es, e);
                },
            }
        }
    }
}

proof fn lemma_expected_one(
    t: TableV,
    x: IndexV,
    rows: Seq<StoredRowV>,
    keys: Seq<core::result::Result<Seq<u8>, TypeError>>,
    l: int,
    es: Seq<EntryV>,
    e: EntryV,
)
    requires
        0 <= l < rows.len(),
        stands(t, x, rows, keys, l, e.key),
        e.value == rows[l].pk_key,
        are_entries_of(t, x, rows, keys, l as nat, es),
    ensures
        are_entries_of(t, x, rows, keys, (l + 1) as nat, es.push(e)),
{
    let after = es.push(e);
    let n = (l + 1) as nat;
    assert forall|a: int, key: Seq<u8>|
        a < n && #[trigger] stands(t, x, rows, keys, a, key) implies after.contains(
        EntryV { key, value: rows[a].pk_key },
    ) by {
        let want = EntryV { key, value: rows[a].pk_key };
        if a < l {
            assert(es.contains(want));
            let k = es.index_of(want);
            assert(after[k] == want);
        } else {
            assert(want == e);
            assert(after[es.len() as int] == e);
        }
    }
    assert forall|k: int| 0 <= k < after.len() implies is_entry_of(
        t,
        x,
        rows,
        keys,
        n,
        #[trigger] after[k],
    ) by {
        if k < es.len() {
            assert(is_entry_of(t, x, rows, keys, l as nat, es[k]));
        } else {
            assert(stands(t, x, rows, keys, l, after[k].key));
        }
    }
}

// --- staging -----------------------------------------------------------------

/// Whether a staged row brings an entry with this key to index `i`.
pub open spec fn comes(changes: Seq<ChangeV>, i: int, key: Seq<u8>) -> bool {
    exists|c: int, d: int|
        #![trigger changes[c].deltas[d]]
        {
            &&& 0 <= c < changes.len()
            &&& 0 <= d < changes[c].deltas.len()
            &&& changes[c].deltas[d].index == i
            &&& changes[c].deltas[d].new matches Some(e) && e.key == key
        }
}

/// Whether a row has cells under the columns of index `i`, but they have no
/// encoding.
pub open spec fn has_no_encoding(t: TableV, i: int, row: Option<KeyedV>) -> bool {
    row matches Some(k) && k.keys[i] is Err && (t.indexes[i].unique ==> is_full(
        t,
        t.indexes[i],
        k.row,
    ))
}

/// Whether a row, if there is one, stands at a key of index `i`.
pub open spec fn is_at(t: TableV, i: int, pk: Seq<u8>, row: Option<KeyedV>, key: Seq<u8>) -> bool {
    row matches Some(k) && is_filed(t, t.indexes[i], k.row, k.keys[i], pk, key)
}

/// Whether the place of a moved row in unique index `i` is another row's: that of a
/// committed one, in single writes, or that of one staged before, in batches.
pub open spec fn is_occupied(
    mode: Mode,
    changes: Seq<ChangeV>,
    taken: bool,
    i: int,
    key: Seq<u8>,
) -> bool {
    ||| mode != Mode::Many && taken
    ||| mode != Mode::Update && comes(changes, i, key)
}

/// Whether index `i` keeps a row from being staged: what it holds or held has no
/// encoding, or its new place is occupied or could never fit a node.
pub open spec fn keeps_out(
    t: TableV,
    mode: Mode,
    changes: Seq<ChangeV>,
    m: MoveV,
    i: int,
) -> bool {
    ||| has_no_encoding(t, i, m.old)
    ||| has_no_encoding(t, i, m.new)
    ||| exists|key: Seq<u8>|
        {
            &&& #[trigger] is_at(t, i, m.pk_key, m.new, key)
            &&& !is_at(t, i, m.pk_key, m.old, key)
            &&& {
                ||| t.indexes[i].unique && is_occupied(mode, changes, m.taken[i], i, key)
                ||| too_large(key, m.pk_key) is Some
            }
        }
}

proof fn lemma_delta(
    table: Seq<char>,
    t: TableV,
    mode: Mode,
    changes: Seq<ChangeV>,
    m: MoveV,
    i: int,
)
    requires
        0 <= i,
    ensures
        delta_at(table, t, mode, changes, m, i) is Ok <==> !keeps_out(t, mode, changes, m, i),
        forall|at: Seq<char>, name: Seq<char>|
            delta_at(table, t, mode, changes, m, i) == Err::<Option<DeltaV>, CatalogErrorV>(
                #[trigger] violation(at, name),
            ) ==> at == table && name == t.indexes[i].name && t.indexes[i].unique && exists|
                key: Seq<u8>,
            |
                #[trigger] is_at(t, i, m.pk_key, m.new, key) && is_occupied(
                    mode,
                    changes,
                    m.taken[i],
                    i,
                    key,
                ),
{
    if let Some(k) = m.old {
        entries_are_where_rows_stand(t, t.indexes[i], k.row, k.keys[i], m.pk_key);
    }
    if let Some(k) = m.new {
        entries_are_where_rows_stand(t, t.indexes[i], k.row, k.keys[i], m.pk_key);
    }
    assert forall|key: Seq<u8>| #[trigger] comes(changes, i, key) == arriving(
        changes,
        i as nat,
        key,
    ) by {
        if arriving(changes, i as nat, key) {
            let c = choose|c: int| 0 <= c < changes.len() && brings(#[trigger] changes[c], i as nat, key);
            let d = choose|d: int|
                0 <= d < changes[c].deltas.len() && (#[trigger] changes[c].deltas[d]).index == i
                    && changes[c].deltas[d].new is Some && changes[c].deltas[d].new->Some_0.key
                    == key;
            assert(changes[c].deltas[d].index == i);
        }
        if comes(changes, i, key) {
            let (c, d) = choose|c: int, d: int|
                #![trigger changes[c].deltas[d]]
                {
                    &&& 0 <= c < changes.len()
                    &&& 0 <= d < changes[c].deltas.len()
                    &&& changes[c].deltas[d].index == i
                    &&& changes[c].deltas[d].new matches Some(e) && e.key == key
                };
            assert(brings(changes[c], i as nat, key));
        }
    }
    if let Ok(Some(e)) = contribution(t, i, m.pk_key, m.new) {
        assert(is_at(t, i, m.pk_key, m.new, e.key));
        assert(comes(changes, i, e.key) == arriving(changes, i as nat, e.key));
        assert forall|key: Seq<u8>| #[trigger] is_at(t, i, m.pk_key, m.new, key) implies key
            == e.key by {}
        if let Ok(Some(o)) = contribution(t, i, m.pk_key, m.old) {
            assert(is_at(t, i, m.pk_key, m.old, o.key));
            assert(is_at(t, i, m.pk_key, m.old, e.key) <==> o.key == e.key);
        } else {
            assert(!is_at(t, i, m.pk_key, m.old, e.key));
        }
    } else {
        assert(forall|key: Seq<u8>| !(#[trigger] is_at(t, i, m.pk_key, m.new, key)));
    }
}

/// The violation of a unique index.
pub open spec fn violation(table: Seq<char>, index: Seq<char>) -> CatalogErrorV {
    CatalogErrorV::UniqueViolation { table, index }
}

proof fn lemma_deltas_from(
    table: Seq<char>,
    t: TableV,
    mode: Mode,
    changes: Seq<ChangeV>,
    m: MoveV,
    n: int,
)
    requires
        0 <= n,
    ensures
        deltas_from(table, t, mode, changes, m, n) is Ok <==> (forall|i: int|
            n <= i < t.indexes.len() ==> !(#[trigger] keeps_out(t, mode, changes, m, i))),
        forall|at: Seq<char>, name: Seq<char>|
            deltas_from(table, t, mode, changes, m, n) == Err::<Seq<DeltaV>, CatalogErrorV>(
                #[trigger] violation(at, name),
            ) ==> at == table && exists|i: int|
                #[trigger] is_violated(t, mode, changes, m, i) && t.indexes[i].name == name,
    decreases t.indexes.len() - n,
{
    if n < t.indexes.len() {
        lemma_delta(table, t, mode, changes, m, n);
        lemma_deltas_from(table, t, mode, changes, m, n + 1);
        assert forall|at: Seq<char>, name: Seq<char>|
            deltas_from(table, t, mode, changes, m, n) == Err::<Seq<DeltaV>, CatalogErrorV>(
                #[trigger] violation(at, name),
            ) implies at == table && exists|i: int|
            #[trigger] is_violated(t, mode, changes, m, i) && t.indexes[i].name == name by {
            if delta_at(table, t, mode, changes, m, n) is Err {
                assert(delta_at(table, t, mode, changes, m, n) == Err::<
                    Option<DeltaV>,
                    CatalogErrorV,
                >(violation(at, name)));
                assert(is_violated(t, mode, changes, m, n));
            }
        }
    }
}

/// Whether the new place of a moved row in index `i`, a unique one, is occupied.
pub open spec fn is_violated(
    t: TableV,
    mode: Mode,
    changes: Seq<ChangeV>,
    m: MoveV,
    i: int,
) -> bool {
    &&& 0 <= i < t.indexes.len()
    &&& t.indexes[i].unique
    &&& exists|key: Seq<u8>|
        #[trigger] is_at(t, i, m.pk_key, m.new, key) && is_occupied(
            mode,
            changes,
            m.taken[i],
            i,
            key,
        )
}

/// A row is staged exactly where no index keeps it out and the row itself, if it
/// stays, has bytes that fit a node; it is then staged under its own key, with
/// those bytes. A unique violation comes only where a place is occupied, and names
/// that index.
pub proof fn rows_are_staged_where_nothing_keeps_them_out(
    table: Seq<char>,
    t: TableV,
    mode: Mode,
    changes: Seq<ChangeV>,
    m: MoveV,
)
    ensures
        staged(table, t, mode, changes, m) is Ok <==> {
            &&& forall|i: int|
                0 <= i < t.indexes.len() ==> !(#[trigger] keeps_out(t, mode, changes, m, i))
            &&& m.new is Some ==> m.bytes is Ok && too_large(m.pk_key, m.bytes->Ok_0) is None
        },
        staged(table, t, mode, changes, m) matches Ok(c) ==> {
            &&& c.pk_key == m.pk_key
            &&& m.new is None ==> c.bytes is None
            &&& m.new is Some ==> c.bytes == Some(m.bytes->Ok_0)
        },
        forall|at: Seq<char>, name: Seq<char>|
            staged(table, t, mode, changes, m) == Err::<ChangeV, CatalogErrorV>(
                #[trigger] violation(at, name),
            ) ==> at == table && exists|i: int|
                #[trigger] is_violated(t, mode, changes, m, i) && t.indexes[i].name == name,
{
    lemma_deltas_from(table, t, mode, changes, m, 0);
    assert forall|at: Seq<char>, name: Seq<char>|
        staged(table, t, mode, changes, m) == Err::<ChangeV, CatalogErrorV>(
            #[trigger] violation(at, name),
        ) implies at == table && exists|i: int|
        #[trigger] is_violated(t, mode, changes, m, i) && t.indexes[i].name == name by {
        assert(deltas_from(table, t, mode, changes, m, 0) is Err ==> deltas_from(
            table,
            t,
            mode,
            changes,
            m,
            0,
        ) == Err::<Seq<DeltaV>, CatalogErrorV>(violation(at, name)));
    }
}

} // verus!
