//! What foreign keys keep: no row that references another stays behind without
//! it, and nothing is refused but where one would.

use vstd::prelude::*;
use super::cells::named_cells_sit_under_their_columns;
use super::error::CatalogErrorV;
use super::fk::{
    change_error, change_orphans, drop_error, fks_error, full_key, insert_fk_error,
    insert_fks_error, key_rule_error, key_to, kind_at, orphaned_by, references, removal_error,
    removal_orphans, target_of, unique_over, update_dangles, update_fks_error, Probe, StoredRowV,
    Target,
};
use super::meaning::{columns_are_found_by_name, is_column, sits};
use super::row::cells_named;
use super::schema::{column_at, ForeignKeyV, RefAction, TableV};
use crate::value::{rows_alike, ValueV};

verus! {

/// Whether a row has these cells under some columns, none of them NULL.
pub open spec fn has_key(
    t: TableV,
    row: Seq<ValueV>,
    names: Seq<Seq<char>>,
    key: Seq<ValueV>,
) -> bool {
    &&& key.len() == names.len()
    &&& forall|j: int|
        0 <= j < names.len() ==> !((#[trigger] key[j]) is Null) && sits(
            t.columns,
            row,
            names[j],
            key[j],
        )
}

/// The full key of a row is its cells, where each of them is there and none is
/// NULL.
pub proof fn full_keys_hold_no_null(
    t: TableV,
    row: Seq<ValueV>,
    names: Seq<Seq<char>>,
    key: Seq<ValueV>,
)
    ensures
        full_key(t, row, names) == Some(key) <==> has_key(t, row, names, key),
{
    let cells = cells_named(t, row, names);
    assert forall|j: int| 0 <= j < names.len() implies !((#[trigger] cells[j]) is Null) ==> sits(
        t.columns,
        row,
        names[j],
        cells[j],
    ) by {
        named_cells_sit_under_their_columns(t, row, names, j);
    }
    if has_key(t, row, names, key) {
        assert forall|j: int| 0 <= j < names.len() implies #[trigger] cells[j] == key[j] by {
            named_cells_sit_under_their_columns(t, row, names, j);
            assert(sits(t.columns, row, names[j], key[j]));
        }
        assert(cells =~= key);
    }
}

/// Whether a row references another one through a foreign key: the cells of the
/// one, none of them NULL, equal those of the other.
pub open spec fn refers(
    child: TableV,
    fk: ForeignKeyV,
    row: Seq<ValueV>,
    parent: TableV,
    other: Seq<ValueV>,
) -> bool {
    exists|own: Seq<ValueV>, key: Seq<ValueV>|
        {
            &&& #[trigger] has_key(child, row, fk.columns, own)
            &&& #[trigger] has_key(parent, other, fk.parent_columns, key)
            &&& rows_alike(own, key)
        }
}

/// Whether a row stays when rows of `parent` with these keys go: every row of
/// another table does.
pub open spec fn stays(
    parent: TableV,
    child: TableV,
    row: StoredRowV,
    excluded: Seq<Seq<u8>>,
) -> bool {
    child.name != parent.name || !excluded.contains(row.pk_key)
}

/// Whether a row that stays references one that goes, through foreign key `k` of
/// table `c`.
pub open spec fn holds_on(
    parent: TableV,
    removed: Seq<Seq<ValueV>>,
    excluded: Seq<Seq<u8>>,
    tables: Seq<TableV>,
    contents: Seq<Seq<StoredRowV>>,
    c: int,
    k: int,
) -> bool {
    let fk = tables[c].foreign_keys[k];
    &&& 0 <= c < tables.len()
    &&& 0 <= k < tables[c].foreign_keys.len()
    &&& fk.parent == parent.name
    &&& exists|i: int, r: int|
        {
            &&& 0 <= i < contents[c].len()
            &&& 0 <= r < removed.len()
            &&& stays(parent, tables[c], contents[c][i], excluded)
            &&& refers(
                tables[c],
                fk,
                (#[trigger] contents[c][i]).row,
                parent,
                #[trigger] removed[r],
            )
        }
}

/// Whether foreign key `k` of table `c` comes before key `l` of table `d`.
pub open spec fn comes_before(c: int, k: int, d: int, l: int) -> bool {
    c < d || (c == d && k < l)
}

proof fn lemma_refers(
    child: TableV,
    fk: ForeignKeyV,
    row: StoredRowV,
    parent: TableV,
    other: Seq<ValueV>,
    excluded: Seq<Seq<u8>>,
)
    ensures
        match full_key(parent, other, fk.parent_columns) {
            Some(key) => references(child, fk, row, key, excluded, child.name == parent.name)
                <==> stays(parent, child, row, excluded) && refers(
                child,
                fk,
                row.row,
                parent,
                other,
            ),
            None => !refers(child, fk, row.row, parent, other),
        },
{
    assert forall|own: Seq<ValueV>| #[trigger] has_key(child, row.row, fk.columns, own) implies full_key(
        child,
        row.row,
        fk.columns,
    ) == Some(own) by {
        full_keys_hold_no_null(child, row.row, fk.columns, own);
    }
    assert forall|key: Seq<ValueV>| #[trigger] has_key(
        parent,
        other,
        fk.parent_columns,
        key,
    ) implies full_key(parent, other, fk.parent_columns) == Some(key) by {
        full_keys_hold_no_null(parent, other, fk.parent_columns, key);
    }
    if let Some(own) = full_key(child, row.row, fk.columns) {
        full_keys_hold_no_null(child, row.row, fk.columns, own);
    }
    if let Some(key) = full_key(parent, other, fk.parent_columns) {
        full_keys_hold_no_null(parent, other, fk.parent_columns, key);
    }
}

proof fn lemma_holds_on(
    parent: TableV,
    removed: Seq<Seq<ValueV>>,
    excluded: Seq<Seq<u8>>,
    tables: Seq<TableV>,
    contents: Seq<Seq<StoredRowV>>,
    c: int,
    k: int,
)
    requires
        0 <= c < tables.len(),
        0 <= k < tables[c].foreign_keys.len(),
    ensures
        holds_on(parent, removed, excluded, tables, contents, c, k) <==> removal_orphans(
            parent,
            removed,
            excluded,
            tables[c],
            tables[c].foreign_keys[k],
            contents[c],
        ),
{
    let child = tables[c];
    let fk = child.foreign_keys[k];
    let rows = contents[c];
    assert forall|r: int| 0 <= r < removed.len() implies (orphaned_by(
        parent,
        #[trigger] removed[r],
        excluded,
        child,
        fk,
        rows,
    ) <==> exists|i: int|
        {
            &&& 0 <= i < rows.len()
            &&& stays(parent, child, rows[i], excluded)
            &&& refers(child, fk, (#[trigger] rows[i]).row, parent, removed[r])
        }) by {
        assert forall|i: int| 0 <= i < rows.len() implies match full_key(
            parent,
            removed[r],
            fk.parent_columns,
        ) {
            Some(key) => references(
                child,
                fk,
                #[trigger] rows[i],
                key,
                excluded,
                child.name == parent.name,
            ) <==> stays(parent, child, rows[i], excluded) && refers(
                child,
                fk,
                rows[i].row,
                parent,
                removed[r],
            ),
            None => !refers(child, fk, rows[i].row, parent, removed[r]),
        } by {
            lemma_refers(child, fk, rows[i], parent, removed[r], excluded);
        }
    }
}

/// A removal is let through exactly where no row that stays, whatever its key and
/// whichever its table, references a row that goes. Otherwise the refusal names
/// the first foreign key through which one does.
pub proof fn removals_leave_no_reference_behind(
    parent: TableV,
    removed: Seq<Seq<ValueV>>,
    excluded: Seq<Seq<u8>>,
    tables: Seq<TableV>,
    contents: Seq<Seq<StoredRowV>>,
)
    ensures
        removal_error(parent, removed, excluded, tables, contents, 0, 0) is None <==> (forall|
            c: int,
            k: int,
        |
            !(#[trigger] holds_on(parent, removed, excluded, tables, contents, c, k))),
        removal_error(parent, removed, excluded, tables, contents, 0, 0) matches Some(e) ==> exists|
            c: int,
            k: int,
        |
            {
                &&& #[trigger] holds_on(parent, removed, excluded, tables, contents, c, k)
                &&& e == (CatalogErrorV::ReferencedByChildren {
                    table: tables[c].name,
                    constraint: tables[c].foreign_keys[k].name,
                })
                &&& forall|d: int, l: int|
                    comes_before(d, l, c, k) ==> !(#[trigger] holds_on(
                        parent,
                        removed,
                        excluded,
                        tables,
                        contents,
                        d,
                        l,
                    ))
            },
{
    lemma_removal(parent, removed, excluded, tables, contents, 0, 0);
}

proof fn lemma_removal(
    parent: TableV,
    removed: Seq<Seq<ValueV>>,
    excluded: Seq<Seq<u8>>,
    tables: Seq<TableV>,
    contents: Seq<Seq<StoredRowV>>,
    c0: int,
    k0: int,
)
    requires
        0 <= c0,
        0 <= k0,
    ensures
        match removal_error(parent, removed, excluded, tables, contents, c0, k0) {
            None => forall|c: int, k: int|
                !comes_before(c, k, c0, k0) ==> !(#[trigger] holds_on(
                    parent,
                    removed,
                    excluded,
                    tables,
                    contents,
                    c,
                    k,
                )),
            Some(e) => exists|c: int, k: int|
                {
                    &&& #[trigger] holds_on(parent, removed, excluded, tables, contents, c, k)
                    &&& !comes_before(c, k, c0, k0)
                    &&& e == (CatalogErrorV::ReferencedByChildren {
                        table: tables[c].name,
                        constraint: tables[c].foreign_keys[k].name,
                    })
                    &&& forall|d: int, l: int|
                        comes_before(d, l, c, k) && !comes_before(d, l, c0, k0) ==> !(
                        #[trigger] holds_on(parent, removed, excluded, tables, contents, d, l))
                },
        },
    decreases
            tables.len() - c0,
            if 0 <= c0 < tables.len() {
                tables[c0].foreign_keys.len() - k0
            } else {
                0
            },
{
    if c0 < tables.len() {
        if k0 >= tables[c0].foreign_keys.len() {
            lemma_removal(parent, removed, excluded, tables, contents, c0 + 1, 0);
        } else {
            lemma_holds_on(parent, removed, excluded, tables, contents, c0, k0);
            if !holds_on(parent, removed, excluded, tables, contents, c0, k0) {
                lemma_removal(parent, removed, excluded, tables, contents, c0, k0 + 1);
            }
        }
    }
}

// --- changed parent rows -----------------------------------------------------

/// Whether a changed row of `parent` no longer has a key by which a row
/// references it, through foreign key `k` of table `c`.
pub open spec fn pulls_away(
    parent: TableV,
    old_row: Seq<ValueV>,
    new_row: Seq<ValueV>,
    tables: Seq<TableV>,
    contents: Seq<Seq<StoredRowV>>,
    c: int,
    k: int,
) -> bool {
    let fk = tables[c].foreign_keys[k];
    &&& 0 <= c < tables.len()
    &&& 0 <= k < tables[c].foreign_keys.len()
    &&& fk.parent == parent.name
    &&& !(exists|was: Seq<ValueV>, is: Seq<ValueV>|
        {
            &&& #[trigger] has_key(parent, old_row, fk.parent_columns, was)
            &&& #[trigger] has_key(parent, new_row, fk.parent_columns, is)
            &&& rows_alike(was, is)
        })
    &&& exists|i: int|
        0 <= i < contents[c].len() && refers(
            tables[c],
            fk,
            (#[trigger] contents[c][i]).row,
            parent,
            old_row,
        )
}

proof fn lemma_pulls_away(
    parent: TableV,
    old_row: Seq<ValueV>,
    new_row: Seq<ValueV>,
    tables: Seq<TableV>,
    contents: Seq<Seq<StoredRowV>>,
    c: int,
    k: int,
)
    requires
        0 <= c < tables.len(),
        0 <= k < tables[c].foreign_keys.len(),
    ensures
        pulls_away(parent, old_row, new_row, tables, contents, c, k) <==> change_orphans(
            parent,
            old_row,
            new_row,
            tables[c],
            tables[c].foreign_keys[k],
            contents[c],
        ),
{
    let child = tables[c];
    let fk = child.foreign_keys[k];
    let rows = contents[c];
    let none = Seq::<Seq<u8>>::empty();
    assert forall|i: int| 0 <= i < rows.len() implies match full_key(
        parent,
        old_row,
        fk.parent_columns,
    ) {
        Some(key) => references(
            child,
            fk,
            #[trigger] rows[i],
            key,
            none,
            child.name == parent.name,
        ) <==> refers(child, fk, rows[i].row, parent, old_row),
        None => !refers(child, fk, rows[i].row, parent, old_row),
    } by {
        lemma_refers(child, fk, rows[i], parent, old_row, none);
    }
    assert forall|was: Seq<ValueV>| #[trigger] has_key(
        parent,
        old_row,
        fk.parent_columns,
        was,
    ) implies full_key(parent, old_row, fk.parent_columns) == Some(was) by {
        full_keys_hold_no_null(parent, old_row, fk.parent_columns, was);
    }
    assert forall|is: Seq<ValueV>| #[trigger] has_key(
        parent,
        new_row,
        fk.parent_columns,
        is,
    ) implies full_key(parent, new_row, fk.parent_columns) == Some(is) by {
        full_keys_hold_no_null(parent, new_row, fk.parent_columns, is);
    }
    if let Some(was) = full_key(parent, old_row, fk.parent_columns) {
        full_keys_hold_no_null(parent, old_row, fk.parent_columns, was);
    }
    if let Some(is) = full_key(parent, new_row, fk.parent_columns) {
        full_keys_hold_no_null(parent, new_row, fk.parent_columns, is);
    }
}

/// A changed row is let through exactly where no row references it by a key that
/// it no longer has. Otherwise the refusal names the first foreign key through
/// which one does.
pub proof fn changes_leave_no_reference_behind(
    parent: TableV,
    old_row: Seq<ValueV>,
    new_row: Seq<ValueV>,
    tables: Seq<TableV>,
    contents: Seq<Seq<StoredRowV>>,
)
    ensures
        change_error(parent, old_row, new_row, tables, contents, 0, 0) is None <==> (forall|
            c: int,
            k: int,
        |
            !(#[trigger] pulls_away(parent, old_row, new_row, tables, contents, c, k))),
        change_error(parent, old_row, new_row, tables, contents, 0, 0) matches Some(e) ==> exists|
            c: int,
            k: int,
        |
            {
                &&& #[trigger] pulls_away(parent, old_row, new_row, tables, contents, c, k)
                &&& e == (CatalogErrorV::ReferencedByChildren {
                    table: tables[c].name,
                    constraint: tables[c].foreign_keys[k].name,
                })
                &&& forall|d: int, l: int|
                    comes_before(d, l, c, k) ==> !(#[trigger] pulls_away(
                        parent,
                        old_row,
                        new_row,
                        tables,
                        contents,
                        d,
                        l,
                    ))
            },
{
    lemma_change(parent, old_row, new_row, tables, contents, 0, 0);
}

proof fn lemma_change(
    parent: TableV,
    old_row: Seq<ValueV>,
    new_row: Seq<ValueV>,
    tables: Seq<TableV>,
    contents: Seq<Seq<StoredRowV>>,
    c0: int,
    k0: int,
)
    requires
        0 <= c0,
        0 <= k0,
    ensures
        match change_error(parent, old_row, new_row, tables, contents, c0, k0) {
            None => forall|c: int, k: int|
                !comes_before(c, k, c0, k0) ==> !(#[trigger] pulls_away(
                    parent,
                    old_row,
                    new_row,
                    tables,
                    contents,
                    c,
                    k,
                )),
            Some(e) => exists|c: int, k: int|
                {
                    &&& #[trigger] pulls_away(parent, old_row, new_row, tables, contents, c, k)
                    &&& !comes_before(c, k, c0, k0)
                    &&& e == (CatalogErrorV::ReferencedByChildren {
                        table: tables[c].name,
                        constraint: tables[c].foreign_keys[k].name,
                    })
                    &&& forall|d: int, l: int|
                        comes_before(d, l, c, k) && !comes_before(d, l, c0, k0) ==> !(
                        #[trigger] pulls_away(parent, old_row, new_row, tables, contents, d, l))
                },
        },
    decreases
            tables.len() - c0,
            if 0 <= c0 < tables.len() {
                tables[c0].foreign_keys.len() - k0
            } else {
                0
            },
{
    if c0 < tables.len() {
        if k0 >= tables[c0].foreign_keys.len() {
            lemma_change(parent, old_row, new_row, tables, contents, c0 + 1, 0);
        } else {
            lemma_pulls_away(parent, old_row, new_row, tables, contents, c0, k0);
            if !pulls_away(parent, old_row, new_row, tables, contents, c0, k0) {
                lemma_change(parent, old_row, new_row, tables, contents, c0, k0 + 1);
            }
        }
    }
}

// --- rows that reference -----------------------------------------------------

/// Whether a foreign key of a fresh row is met: a cell of it is NULL or missing, a
/// parent row is there, or, for a key on the table's own primary key, an earlier
/// row of the batch has it.
pub open spec fn is_met(
    t: TableV,
    fk: ForeignKeyV,
    row: Seq<ValueV>,
    staged: Seq<Seq<u8>>,
    probe: Probe,
) -> bool {
    ||| forall|key: Seq<ValueV>| !(#[trigger] has_key(t, row, fk.columns, key))
    ||| {
        let own = fk.parent == t.name && fk.parent_columns == t.pk;
        match probe.key {
            Ok(k) => probe.found || (own && staged.contains(k@)),
            Err(_) => probe.found && !own,
        }
    }
}

/// A fresh row is let through exactly where each of its foreign keys is met;
/// otherwise the refusal names the first that is not, or says why its values have
/// no key.
pub proof fn fresh_rows_have_their_parents(
    t: TableV,
    row: Seq<ValueV>,
    staged: Seq<Seq<u8>>,
    probes: Seq<Probe>,
)
    ensures
        insert_fks_error(t, row, staged, probes, 0) is None <==> (forall|i: int|
            0 <= i < t.foreign_keys.len() ==> is_met(
                t,
                #[trigger] t.foreign_keys[i],
                row,
                staged,
                probes[i],
            )),
        insert_fks_error(t, row, staged, probes, 0) matches Some(e) ==> exists|i: int|
            {
                &&& 0 <= i < t.foreign_keys.len()
                &&& !is_met(t, #[trigger] t.foreign_keys[i], row, staged, probes[i])
                &&& is_unmet(t, t.foreign_keys[i], probes[i], e)
                &&& forall|j: int|
                    0 <= j < i ==> is_met(t, #[trigger] t.foreign_keys[j], row, staged, probes[j])
            },
{
    lemma_fresh(t, row, staged, probes, 0);
}

/// Whether `e` is the refusal of a foreign key that is not met.
pub open spec fn is_unmet(t: TableV, fk: ForeignKeyV, probe: Probe, e: CatalogErrorV) -> bool {
    match probe.key {
        Err(te) => if fk.parent == t.name && fk.parent_columns == t.pk {
            e == CatalogErrorV::Type(te)
        } else {
            e == (CatalogErrorV::ForeignKeyViolation { table: t.name, constraint: fk.name })
        },
        Ok(_) => e == (CatalogErrorV::ForeignKeyViolation { table: t.name, constraint: fk.name }),
    }
}

proof fn lemma_fresh(
    t: TableV,
    row: Seq<ValueV>,
    staged: Seq<Seq<u8>>,
    probes: Seq<Probe>,
    n: int,
)
    requires
        0 <= n,
    ensures
        match insert_fks_error(t, row, staged, probes, n) {
            None => forall|i: int|
                n <= i < t.foreign_keys.len() ==> is_met(
                    t,
                    #[trigger] t.foreign_keys[i],
                    row,
                    staged,
                    probes[i],
                ),
            Some(e) => exists|i: int|
                {
                    &&& n <= i < t.foreign_keys.len()
                    &&& !is_met(t, #[trigger] t.foreign_keys[i], row, staged, probes[i])
                    &&& is_unmet(t, t.foreign_keys[i], probes[i], e)
                    &&& forall|j: int|
                        n <= j < i ==> is_met(
                            t,
                            #[trigger] t.foreign_keys[j],
                            row,
                            staged,
                            probes[j],
                        )
                },
        },
    decreases t.foreign_keys.len() - n,
{
    if n < t.foreign_keys.len() {
        let fk = t.foreign_keys[n];
        assert forall|key: Seq<ValueV>| #[trigger] has_key(t, row, fk.columns, key) implies full_key(
            t,
            row,
            fk.columns,
        ) == Some(key) by {
            full_keys_hold_no_null(t, row, fk.columns, key);
        }
        if let Some(key) = full_key(t, row, fk.columns) {
            full_keys_hold_no_null(t, row, fk.columns, key);
        }
        assert(insert_fk_error(t, fk, row, staged, probes[n]) is None <==> is_met(
            t,
            fk,
            row,
            staged,
            probes[n],
        ));
        if insert_fk_error(t, fk, row, staged, probes[n]) is None {
            lemma_fresh(t, row, staged, probes, n + 1);
        } else {
            assert(!is_met(t, t.foreign_keys[n], row, staged, probes[n]));
        }
    }
}

/// Whether a foreign key of a changed row is met: a cell of it is NULL or missing,
/// it equals what it was, or a parent row is there.
pub open spec fn is_still_met(
    t: TableV,
    fk: ForeignKeyV,
    old_row: Seq<ValueV>,
    new_row: Seq<ValueV>,
    found: bool,
) -> bool {
    ||| forall|key: Seq<ValueV>| !(#[trigger] has_key(t, new_row, fk.columns, key))
    ||| exists|was: Seq<ValueV>, now: Seq<ValueV>|
        {
            &&& #[trigger] has_key(t, old_row, fk.columns, was)
            &&& #[trigger] has_key(t, new_row, fk.columns, now)
            &&& rows_alike(was, now)
        }
    ||| found
}

/// A changed row is let through exactly where each of its foreign keys is met;
/// otherwise the refusal names the first that is not.
pub proof fn changed_rows_have_their_parents(
    t: TableV,
    old_row: Seq<ValueV>,
    new_row: Seq<ValueV>,
    found: Seq<bool>,
)
    ensures
        update_fks_error(t, old_row, new_row, found, 0) is None <==> (forall|i: int|
            0 <= i < t.foreign_keys.len() ==> is_still_met(
                t,
                #[trigger] t.foreign_keys[i],
                old_row,
                new_row,
                found[i],
            )),
        update_fks_error(t, old_row, new_row, found, 0) matches Some(e) ==> exists|i: int|
            {
                &&& 0 <= i < t.foreign_keys.len()
                &&& !is_still_met(t, #[trigger] t.foreign_keys[i], old_row, new_row, found[i])
                &&& e == (CatalogErrorV::ForeignKeyViolation {
                    table: t.name,
                    constraint: t.foreign_keys[i].name,
                })
                &&& forall|j: int|
                    0 <= j < i ==> is_still_met(
                        t,
                        #[trigger] t.foreign_keys[j],
                        old_row,
                        new_row,
                        found[j],
                    )
            },
{
    lemma_changed(t, old_row, new_row, found, 0);
}

proof fn lemma_changed(
    t: TableV,
    old_row: Seq<ValueV>,
    new_row: Seq<ValueV>,
    found: Seq<bool>,
    n: int,
)
    requires
        0 <= n,
    ensures
        match update_fks_error(t, old_row, new_row, found, n) {
            None => forall|i: int|
                n <= i < t.foreign_keys.len() ==> is_still_met(
                    t,
                    #[trigger] t.foreign_keys[i],
                    old_row,
                    new_row,
                    found[i],
                ),
            Some(e) => exists|i: int|
                {
                    &&& n <= i < t.foreign_keys.len()
                    &&& !is_still_met(t, #[trigger] t.foreign_keys[i], old_row, new_row, found[i])
                    &&& e == (CatalogErrorV::ForeignKeyViolation {
                        table: t.name,
                        constraint: t.foreign_keys[i].name,
                    })
                    &&& forall|j: int|
                        n <= j < i ==> is_still_met(
                            t,
                            #[trigger] t.foreign_keys[j],
                            old_row,
                            new_row,
                            found[j],
                        )
                },
        },
    decreases t.foreign_keys.len() - n,
{
    if n < t.foreign_keys.len() {
        let fk = t.foreign_keys[n];
        assert forall|key: Seq<ValueV>| #[trigger] has_key(t, old_row, fk.columns, key) implies full_key(
            t,
            old_row,
            fk.columns,
        ) == Some(key) by {
            full_keys_hold_no_null(t, old_row, fk.columns, key);
        }
        assert forall|key: Seq<ValueV>| #[trigger] has_key(t, new_row, fk.columns, key) implies full_key(
            t,
            new_row,
            fk.columns,
        ) == Some(key) by {
            full_keys_hold_no_null(t, new_row, fk.columns, key);
        }
        if let Some(key) = full_key(t, old_row, fk.columns) {
            full_keys_hold_no_null(t, old_row, fk.columns, key);
        }
        if let Some(key) = full_key(t, new_row, fk.columns) {
            full_keys_hold_no_null(t, new_row, fk.columns, key);
        }
        assert(update_dangles(t, fk, old_row, new_row, found[n]) <==> !is_still_met(
            t,
            fk,
            old_row,
            new_row,
            found[n],
        ));
        if update_dangles(t, fk, old_row, new_row, found[n]) {
            assert(!is_still_met(t, t.foreign_keys[n], old_row, new_row, found[n]));
        } else {
            lemma_changed(t, old_row, new_row, found, n + 1);
        }
    }
}

// --- tables that reference ---------------------------------------------------

/// A table may go exactly where no foreign key of another table references it;
/// otherwise the refusal names the first table that has one, and the first that it
/// has.
pub proof fn referenced_tables_stay(tables: Seq<TableV>, table: Seq<char>)
    ensures
        drop_error(tables, table, 0) is None <==> (forall|c: int, k: int|
            0 <= c < tables.len() && 0 <= k < tables[c].foreign_keys.len() && tables[c].name
                != table ==> (#[trigger] tables[c].foreign_keys[k]).parent != table),
        drop_error(tables, table, 0) matches Some(e) ==> exists|c: int, k: int|
            {
                &&& 0 <= c < tables.len()
                &&& 0 <= k < tables[c].foreign_keys.len()
                &&& tables[c].name != table
                &&& (#[trigger] tables[c].foreign_keys[k]).parent == table
                &&& e == (CatalogErrorV::TableReferenced {
                    table,
                    by: tables[c].name,
                    constraint: tables[c].foreign_keys[k].name,
                })
                &&& forall|d: int, l: int|
                    0 <= d && 0 <= l && comes_before(d, l, c, k) && l
                        < tables[d].foreign_keys.len() && tables[d].name != table ==> (
                    #[trigger] tables[d].foreign_keys[l]).parent != table
            },
{
    lemma_drop(tables, table, 0);
}

proof fn lemma_drop(tables: Seq<TableV>, table: Seq<char>, n: int)
    requires
        0 <= n,
    ensures
        match drop_error(tables, table, n) {
            None => forall|c: int, k: int|
                n <= c < tables.len() && 0 <= k < tables[c].foreign_keys.len() && tables[c].name
                    != table ==> (#[trigger] tables[c].foreign_keys[k]).parent != table,
            Some(e) => exists|c: int, k: int|
                {
                    &&& n <= c < tables.len()
                    &&& 0 <= k < tables[c].foreign_keys.len()
                    &&& tables[c].name != table
                    &&& (#[trigger] tables[c].foreign_keys[k]).parent == table
                    &&& e == (CatalogErrorV::TableReferenced {
                        table,
                        by: tables[c].name,
                        constraint: tables[c].foreign_keys[k].name,
                    })
                    &&& forall|d: int, l: int|
                        n <= d && 0 <= l && comes_before(d, l, c, k) && l
                            < tables[d].foreign_keys.len() && tables[d].name != table ==> (
                        #[trigger] tables[d].foreign_keys[l]).parent != table
                },
        },
    decreases tables.len() - n,
{
    if n < tables.len() {
        lemma_key_to(tables[n].foreign_keys, table, 0);
        if tables[n].name == table || key_to(tables[n].foreign_keys, table, 0) is None {
            lemma_drop(tables, table, n + 1);
        } else {
            let k = key_to(tables[n].foreign_keys, table, 0)->Some_0;
            assert(tables[n].foreign_keys[k].parent == table);
        }
    }
}

proof fn lemma_key_to(keys: Seq<ForeignKeyV>, table: Seq<char>, n: int)
    requires
        0 <= n,
    ensures
        match key_to(keys, table, n) {
            None => forall|k: int| n <= k < keys.len() ==> (#[trigger] keys[k]).parent != table,
            Some(k) => {
                &&& n <= k < keys.len()
                &&& keys[k].parent == table
                &&& forall|l: int| n <= l < k ==> (#[trigger] keys[l]).parent != table
            },
        },
    decreases keys.len() - n,
{
    if n < keys.len() && keys[n].parent != table {
        lemma_key_to(keys, table, n + 1);
    }
}

/// A foreign key's target is the parent's primary key where it is over the same
/// columns, otherwise the first unique index that is.
pub proof fn targets_are_unique(parent: TableV, columns: Seq<Seq<char>>)
    requires
        parent.indexes.len() <= usize::MAX,
    ensures
        match target_of(parent, columns) {
            Some(Target::PrimaryKey) => parent.pk == columns,
            Some(Target::Index(i)) => {
                &&& parent.pk != columns
                &&& i < parent.indexes.len()
                &&& parent.indexes[i as int].unique
                &&& parent.indexes[i as int].columns == columns
                &&& forall|j: int|
                    0 <= j < i ==> !((#[trigger] parent.indexes[j]).unique
                        && parent.indexes[j].columns == columns)
            },
            None => {
                &&& parent.pk != columns
                &&& forall|j: int|
                    0 <= j < parent.indexes.len() ==> !((#[trigger] parent.indexes[j]).unique
                        && parent.indexes[j].columns == columns)
            },
        },
{
    lemma_unique_over(parent, columns, 0);
}

proof fn lemma_unique_over(parent: TableV, columns: Seq<Seq<char>>, n: int)
    requires
        0 <= n,
    ensures
        match unique_over(parent.indexes, columns, n) {
            Some(i) => {
                &&& n <= i < parent.indexes.len()
                &&& parent.indexes[i].unique
                &&& parent.indexes[i].columns == columns
                &&& forall|j: int|
                    n <= j < i ==> !((#[trigger] parent.indexes[j]).unique
                        && parent.indexes[j].columns == columns)
            },
            None => forall|j: int|
                n <= j < parent.indexes.len() ==> !((#[trigger] parent.indexes[j]).unique
                    && parent.indexes[j].columns == columns),
        },
    decreases parent.indexes.len() - n,
{
    if n < parent.indexes.len() && !(parent.indexes[n].unique && parent.indexes[n].columns
        == columns) {
        lemma_unique_over(parent, columns, n + 1);
    }
}

/// Whether a foreign key of a table can be declared on a parent: it restricts, and
/// references the primary key or a unique index, with columns of the same types.
pub open spec fn is_sound(t: TableV, fk: ForeignKeyV, parent: TableV) -> bool {
    &&& fk.on_delete == RefAction::Restrict
    &&& fk.on_update == RefAction::Restrict
    &&& {
        ||| parent.pk == fk.parent_columns
        ||| exists|i: int|
            0 <= i < parent.indexes.len() && (#[trigger] parent.indexes[i]).unique
                && parent.indexes[i].columns == fk.parent_columns
    }
    &&& forall|j: int|
        0 <= j < fk.columns.len() && j < fk.parent_columns.len() ==> types_agree(
            t,
            #[trigger] fk.columns[j],
            parent,
            fk.parent_columns[j],
        )
}

/// Whether two tables have columns with these names, of one type.
pub open spec fn types_agree(a: TableV, own: Seq<char>, b: TableV, other: Seq<char>) -> bool {
    exists|i: int, j: int|
        {
            &&& #[trigger] is_column(a.columns, own, i)
            &&& #[trigger] is_column(b.columns, other, j)
            &&& a.columns[i].kind == b.columns[j].kind
        }
}

proof fn lemma_sound(t: TableV, fk: ForeignKeyV, stored: Option<TableV>)
    requires
        t.indexes.len() <= usize::MAX,
        stored matches Some(p) ==> p.indexes.len() <= usize::MAX,
    ensures
        key_rule_error(t, fk, stored) is None <==> (if fk.parent == t.name {
            is_sound(t, fk, t)
        } else {
            stored matches Some(p) && is_sound(t, fk, p)
        }),
        key_rule_error(t, fk, stored) matches Some(e) ==> e is InvalidSchema,
{
    let parent = if fk.parent == t.name {
        t
    } else {
        stored->Some_0
    };
    if fk.parent == t.name || stored is Some {
        targets_are_unique(parent, fk.parent_columns);
        assert forall|j: int|
            0 <= j < fk.columns.len() && j < fk.parent_columns.len() implies types_agree(
            t,
            #[trigger] fk.columns[j],
            parent,
            fk.parent_columns[j],
        ) == (kind_at(t, fk.columns[j]) is Some && kind_at(t, fk.columns[j]) == kind_at(
            parent,
            fk.parent_columns[j],
        )) by {
            columns_are_found_by_name(t.columns, fk.columns[j]);
            columns_are_found_by_name(parent.columns, fk.parent_columns[j]);
            if let Some(a) = column_at(t.columns, fk.columns[j]) {
                assert(is_column(t.columns, fk.columns[j], a));
                if let Some(b) = column_at(parent.columns, fk.parent_columns[j]) {
                    assert(is_column(parent.columns, fk.parent_columns[j], b));
                }
            }
        }
    }
}

/// The foreign keys of a table pass exactly where each of them can be declared on
/// the table itself, where it names it, or on a stored one.
pub proof fn declared_keys_are_sound(t: TableV, stored: Seq<Option<TableV>>)
    requires
        t.indexes.len() <= usize::MAX,
        forall|i: int|
            0 <= i < stored.len() ==> ((#[trigger] stored[i]) matches Some(p) ==> p.indexes.len()
                <= usize::MAX),
        stored.len() == t.foreign_keys.len(),
    ensures
        fks_error(t, stored, 0) is None <==> (forall|i: int|
            0 <= i < t.foreign_keys.len() ==> {
                let fk = #[trigger] t.foreign_keys[i];
                if fk.parent == t.name {
                    is_sound(t, fk, t)
                } else {
                    stored[i] matches Some(p) && is_sound(t, fk, p)
                }
            }),
{
    lemma_declared(t, stored, 0);
}

proof fn lemma_declared(t: TableV, stored: Seq<Option<TableV>>, n: int)
    requires
        0 <= n,
        t.indexes.len() <= usize::MAX,
        forall|i: int|
            0 <= i < stored.len() ==> ((#[trigger] stored[i]) matches Some(p) ==> p.indexes.len()
                <= usize::MAX),
        stored.len() == t.foreign_keys.len(),
    ensures
        fks_error(t, stored, n) is None <==> (forall|i: int|
            n <= i < t.foreign_keys.len() ==> {
                let fk = #[trigger] t.foreign_keys[i];
                if fk.parent == t.name {
                    is_sound(t, fk, t)
                } else {
                    stored[i] matches Some(p) && is_sound(t, fk, p)
                }
            }),
    decreases t.foreign_keys.len() - n,
{
    if n < t.foreign_keys.len() {
        assert(stored[n] matches Some(p) ==> p.indexes.len() <= usize::MAX);
        lemma_sound(t, t.foreign_keys[n], stored[n]);
        lemma_declared(t, stored, n + 1);
    }
}

} // verus!
