//! The write transactions: row DML under the validate-then-apply contract.
//!
//! Each one takes what was found out about its rows in the committed trees, makes
//! every check in order, and leaves the staged rows or the first refusal. A refused
//! transaction has changed nothing.

use vstd::prelude::*;
use super::check::{checks_violation, comparisons_in_all, run_checks, Relation};
use super::error::{CatalogError, CatalogErrorV, Res, Result};
use super::fk::{
    change_error, check_insert_fks, check_restrict_on_key_change, check_restrict_on_remove,
    check_update_fks, contents_views, insert_fks_error, removal_error, row_views, update_fks_error,
    Probe, StoredRow, StoredRowV,
};
use super::row::{check_row, row_error};
use super::schema::{TableDef, TableV};
use super::write::{clash_error, is_staged, removal, staged, Batch, ChangeV, Keyed, Mode, Move};
use crate::bytes::to_vec;
use crate::order::strings;
use crate::value::{copy_row, values, TypeError, Value, ValueV};
use crate::views::views;

verus! {

/// A freshly built row, and what was found out about it.
#[derive(Debug, PartialEq, Eq)]
pub struct Fresh {
    /// For each cell, the value layer's error on a JSON cell that is not well-formed.
    pub json: Vec<Option<TypeError>>,
    /// The outcomes of the table's CHECK comparisons on the row.
    pub relations: Vec<Relation>,
    /// For each foreign key, its encoded values and whether a parent row has them.
    pub probes: Vec<Probe>,
    /// The value layer's error on the primary key, if it cannot be encoded.
    pub pk_error: Option<TypeError>,
    /// Whether a committed row has the primary key.
    pub pk_taken: bool,
    /// The row, as it is to be staged.
    pub m: Move,
}

impl Fresh {
    /// The row.
    pub open spec fn row(self) -> Seq<ValueV> {
        self.m@.new->Some_0.row
    }

    /// Whether there is something for each cell, comparison, foreign key and index.
    pub open spec fn complete(self, t: TableV) -> bool {
        &&& self.m.new is Some
        &&& self.m.complete(t.indexes.len())
        &&& self.json@.len() == self.row().len()
        &&& self.relations@.len() == comparisons_in_all(t.checks)
        &&& self.probes@.len() == t.foreign_keys.len()
    }
}

/// The primary keys of staged rows.
pub open spec fn staged_keys(cs: Seq<ChangeV>) -> Seq<Seq<u8>> {
    Seq::new(cs.len(), |i: int| cs[i].pk_key)
}

/// What refuses a fresh row before it is staged.
pub open spec fn fresh_error(
    table: Seq<char>,
    t: TableV,
    cs: Seq<ChangeV>,
    f: Fresh,
) -> Option<CatalogErrorV> {
    match row_error(t, f.row(), f.json@, 0) {
        Some(e) => Some(e),
        None => match checks_violation(t, f.row(), f.relations@) {
            Some(e) => Some(e),
            None => match insert_fks_error(t, f.row(), staged_keys(cs), f.probes@, 0) {
                Some(e) => Some(e),
                None => match f.pk_error {
                    Some(e) => Some(CatalogErrorV::Type(e)),
                    None => if f.pk_taken || is_staged(cs, f.m@.pk_key) {
                        Some(CatalogErrorV::DuplicateKey { table })
                    } else {
                        None
                    },
                },
            },
        },
    }
}

/// The staged rows after the first `n` of an insert, or the first refusal.
pub open spec fn inserted(table: Seq<char>, t: TableV, rows: Seq<Fresh>, n: nat) -> Res<
    Seq<ChangeV>,
>
    decreases n,
{
    if n == 0 || n > rows.len() {
        Ok(Seq::empty())
    } else {
        match inserted(table, t, rows, (n - 1) as nat) {
            Err(e) => Err(e),
            Ok(cs) => match fresh_error(table, t, cs, rows[n - 1]) {
                Some(e) => Err(e),
                None => match staged(table, t, Mode::Insert, cs, rows[n - 1].m@) {
                    Err(e) => Err(e),
                    Ok(c) => Ok(cs.push(c)),
                },
            },
        }
    }
}

/// Whether a transaction gives what `want` says, unless something else stopped it
/// behind its rows.
pub open spec fn outcome(
    r: Result<Batch>,
    want: Res<Seq<ChangeV>>,
    then: Option<CatalogErrorV>,
) -> bool {
    match want {
        Err(e) => r is Err && r->Err_0@ == e,
        Ok(cs) => match then {
            Some(e) => r is Err && r->Err_0@ == e,
            None => r is Ok && r->Ok_0@ == cs,
        },
    }
}

proof fn lemma_inserted_err(table: Seq<char>, t: TableV, rows: Seq<Fresh>, n: nat, all: nat)
    requires
        n <= all <= rows.len(),
        inserted(table, t, rows, n) is Err,
    ensures
        inserted(table, t, rows, all) == inserted(table, t, rows, n),
    decreases all,
{
    if n < all {
        lemma_inserted_err(table, t, rows, n, (all - 1) as nat);
    }
}

fn check_fresh(table: &str, def: &TableDef, batch: &Batch, f: &Fresh) -> (r: Result<()>)
    requires
        f.complete(def@),
    ensures
        super::error::passes(
            r,
            match row_error(def@, f.row(), f.json@, 0) {
                Some(e) => Some(e),
                None => match checks_violation(def@, f.row(), f.relations@) {
                    Some(e) => Some(e),
                    None => match insert_fks_error(
                        def@,
                        f.row(),
                        staged_keys(batch@),
                        f.probes@,
                        0,
                    ) {
                        Some(e) => Some(e),
                        None => match f.pk_error {
                            Some(e) => Some(CatalogErrorV::Type(e)),
                            None => None,
                        },
                    },
                },
            },
        ),
{
    match &f.m.new {
        None => Ok(()),
        Some(k) => {
            match check_row(def, &k.row, &f.json) {
                Ok(_) => {},
                Err(e) => {
                    return Err(e);
                },
            }
            match run_checks(def, &k.row, &f.relations) {
                Ok(_) => {},
                Err(e) => {
                    return Err(e);
                },
            }
            let keys = batch.keys();
            match check_insert_fks(def, &k.row, &keys, &f.probes) {
                Ok(_) => {},
                Err(e) => {
                    return Err(e);
                },
            }
            match &f.pk_error {
                Some(e) => Err(CatalogError::Type(e.copy())),
                None => Ok(()),
            }
        },
    }
}

fn copy_encoded(e: &super::form::Encoded) -> (r: super::form::Encoded)
    ensures
        crate::index::encoded_view(r) == crate::index::encoded_view(*e),
{
    match e {
        Ok(b) => Ok(to_vec(b.as_slice())),
        Err(x) => Err(x.copy()),
    }
}

impl Keyed {
    /// A copy of the row and its encodings.
    pub fn copy(&self) -> (r: Keyed)
        ensures
            r@ == self@,
            r.keys@.len() == self.keys@.len(),
    {
        let mut keys: Vec<super::form::Encoded> = Vec::new();
        let mut i: usize = 0;
        while i < self.keys.len()
            invariant
                i <= self.keys@.len(),
                keys@.len() == i,
                forall|j: int|
                    0 <= j < i ==> crate::index::encoded_view(#[trigger] keys@[j])
                        == crate::index::encoded_view(self.keys@[j]),
            decreases self.keys@.len() - i,
        {
            keys.push(copy_encoded(&self.keys[i]));
            i = i + 1;
        }
        let r = Keyed { row: copy_row(&self.row), keys };
        assert(r@.keys =~= self@.keys);
        r
    }
}

fn copy_keyed(k: &Option<Keyed>) -> (r: Option<Keyed>)
    ensures
        crate::views::opt(r) == crate::views::opt(*k),
        r is Some == k is Some,
        r matches Some(x) ==> x.keys@.len() == k->Some_0.keys@.len(),
{
    match k {
        Some(k) => Some(k.copy()),
        None => None,
    }
}

impl Move {
    /// A copy of the move.
    pub fn copy(&self) -> (r: Move)
        ensures
            r@ == self@,
            forall|n: nat| self.complete(n) ==> #[trigger] r.complete(n),
    {
        let mut taken: Vec<bool> = Vec::new();
        let mut i: usize = 0;
        while i < self.taken.len()
            invariant
                i <= self.taken@.len(),
                taken@ == self.taken@.take(i as int),
            decreases self.taken@.len() - i,
        {
            taken.push(self.taken[i]);
            i = i + 1;
            assert(taken@ =~= self.taken@.take(i as int));
        }
        assert(taken@ =~= self.taken@);
        Move {
            pk_key: to_vec(self.pk_key.as_slice()),
            old: copy_keyed(&self.old),
            new: copy_keyed(&self.new),
            taken,
            bytes: copy_encoded(&self.bytes),
        }
    }
}

/// Insert rows atomically: all or nothing. `then` is what stopped the building of
/// rows behind these, if something did.
pub fn insert(table: &str, def: &TableDef, rows: &Vec<Fresh>, then: Option<CatalogError>) -> (r:
    Result<Batch>)
    requires
        forall|i: int| 0 <= i < rows@.len() ==> (#[trigger] rows@[i]).complete(def@),
    ensures
        outcome(r, inserted(table@, def@, rows@, rows@.len()), crate::views::opt(then)),
{
    let ghost t = def@;
    let ghost all = rows@;
    let mut batch = Batch::new();
    let mut i: usize = 0;
    while i < rows.len()
        invariant
            i <= rows@.len(),
            t == def@,
            all == rows@,
            forall|j: int| 0 <= j < rows@.len() ==> (#[trigger] rows@[j]).complete(t),
            inserted(table@, t, all, i as nat) == Ok::<Seq<ChangeV>, CatalogErrorV>(batch@),
        decreases rows@.len() - i,
    {
        let f = &rows[i];
        proof {
            assert(rows@[i as int].complete(t));
            if inserted(table@, t, all, (i + 1) as nat) is Err {
                lemma_inserted_err(table@, t, all, (i + 1) as nat, all.len());
            }
        }
        match check_fresh(table, def, &batch, f) {
            Ok(_) => {},
            Err(e) => {
                return Err(e);
            },
        }
        let ghost cs = batch@;
        let m = f.m.copy();
        assert(m.complete(t.indexes.len()));
        match batch.insert(table, def, m, f.pk_taken) {
            Ok(_) => {},
            Err(e) => {
                return Err(e);
            },
        }
        i = i + 1;
    }
    match then {
        Some(e) => Err(e),
        None => Ok(batch),
    }
}

// --- updates -----------------------------------------------------------------

/// A row to be updated, and what was found out about it.
#[derive(Debug, PartialEq, Eq)]
pub struct Changed {
    /// The outcomes of the table's CHECK comparisons on the new row.
    pub relations: Vec<Relation>,
    /// For each foreign key, whether a parent row has its new values.
    pub found: Vec<bool>,
    /// The row, as it is to be staged.
    pub m: Move,
}

impl Changed {
    /// The committed row.
    pub open spec fn before(self) -> Seq<ValueV> {
        self.m@.old->Some_0.row
    }

    /// The new row.
    pub open spec fn after(self) -> Seq<ValueV> {
        self.m@.new->Some_0.row
    }

    /// Whether there is something for each comparison, foreign key and index.
    pub open spec fn complete(self, t: TableV) -> bool {
        &&& self.m.old is Some
        &&& self.m.new is Some
        &&& self.m.complete(t.indexes.len())
        &&& self.relations@.len() == comparisons_in_all(t.checks)
        &&& self.found@.len() == t.foreign_keys.len()
    }
}

/// Whether a table has a unique index: only then can a referenced key change.
pub open spec fn has_unique(t: TableV) -> bool {
    exists|i: int| 0 <= i < t.indexes.len() && (#[trigger] t.indexes[i]).unique
}

/// Whether a table has a unique index: only then can a referenced key change.
pub fn any_unique(def: &TableDef) -> (r: bool)
    ensures
        r == has_unique(def@),
{
    let ghost xs = def@.indexes;
    let mut i: usize = 0;
    while i < def.indexes.len()
        invariant
            i <= def.indexes@.len(),
            xs == views(def.indexes@),
            xs == def@.indexes,
            forall|j: int| 0 <= j < i ==> !(#[trigger] xs[j]).unique,
        decreases def.indexes@.len() - i,
    {
        assert(xs[i as int] == def.indexes@[i as int]@);
        if def.indexes[i].unique {
            assert(xs[i as int].unique);
            return true;
        }
        i = i + 1;
    }
    false
}

/// What refuses an update of a row before it is staged.
pub open spec fn changed_error(
    t: TableV,
    c: Changed,
    tables: Seq<TableV>,
    contents: Seq<Seq<StoredRowV>>,
) -> Option<CatalogErrorV> {
    match checks_violation(t, c.after(), c.relations@) {
        Some(e) => Some(e),
        None => match update_fks_error(t, c.before(), c.after(), c.found@, 0) {
            Some(e) => Some(e),
            None => if has_unique(t) {
                change_error(t, c.before(), c.after(), tables, contents, 0, 0)
            } else {
                None
            },
        },
    }
}

fn check_changed(
    def: &TableDef,
    c: &Changed,
    tables: &Vec<TableDef>,
    contents: &Vec<Vec<StoredRow>>,
) -> (r: Result<()>)
    requires
        c.complete(def@),
        contents@.len() == tables@.len(),
    ensures
        super::error::passes(
            r,
            changed_error(def@, *c, views(tables@), contents_views(contents@)),
        ),
{
    match (&c.m.old, &c.m.new) {
        (Some(old), Some(new)) => {
            match run_checks(def, &new.row, &c.relations) {
                Ok(_) => {},
                Err(e) => {
                    return Err(e);
                },
            }
            match check_update_fks(def, &old.row, &new.row, &c.found) {
                Ok(_) => {},
                Err(e) => {
                    return Err(e);
                },
            }
            if any_unique(def) {
                check_restrict_on_key_change(def, &old.row, &new.row, tables, contents)
            } else {
                Ok(())
            }
        },
        _ => Ok(()),
    }
}

/// The staged rows after the first `n` of an update in this mode, or the first
/// refusal.
pub open spec fn updated_rows(
    table: Seq<char>,
    t: TableV,
    mode: Mode,
    rows: Seq<Changed>,
    tables: Seq<TableV>,
    contents: Seq<Seq<StoredRowV>>,
    n: nat,
) -> Res<Seq<ChangeV>>
    decreases n,
{
    if n == 0 || n > rows.len() {
        Ok(Seq::empty())
    } else {
        match updated_rows(table, t, mode, rows, tables, contents, (n - 1) as nat) {
            Err(e) => Err(e),
            Ok(cs) => match changed_error(t, rows[n - 1], tables, contents) {
                Some(e) => Err(e),
                None => match staged(table, t, mode, cs, rows[n - 1].m@) {
                    Err(e) => Err(e),
                    Ok(c) => Ok(cs.push(c)),
                },
            },
        }
    }
}

/// Update one row. `tables` and `contents` hold all tables and their rows.
pub fn update(
    table: &str,
    def: &TableDef,
    change: &Changed,
    tables: &Vec<TableDef>,
    contents: &Vec<Vec<StoredRow>>,
) -> (r: Result<Batch>)
    requires
        change.complete(def@),
        contents@.len() == tables@.len(),
    ensures
        outcome(
            r,
            updated_rows(
                table@,
                def@,
                Mode::Update,
                seq![*change],
                views(tables@),
                contents_views(contents@),
                1,
            ),
            None,
        ),
{
    let mut batch = Batch::new();
    proof {
        let rows = seq![*change];
        reveal_with_fuel(updated_rows, 2);
        assert(rows[0] == *change);
    }
    match check_changed(def, change, tables, contents) {
        Ok(_) => {},
        Err(e) => {
            return Err(e);
        },
    }
    let m = change.m.copy();
    assert(m.complete(def@.indexes.len()));
    match batch.update(table, def, m) {
        Ok(_) => Ok(batch),
        Err(e) => Err(e),
    }
}

proof fn lemma_updated_err(
    table: Seq<char>,
    t: TableV,
    mode: Mode,
    rows: Seq<Changed>,
    tables: Seq<TableV>,
    contents: Seq<Seq<StoredRowV>>,
    n: nat,
    all: nat,
)
    requires
        n <= all <= rows.len(),
        updated_rows(table, t, mode, rows, tables, contents, n) is Err,
    ensures
        updated_rows(table, t, mode, rows, tables, contents, all) == updated_rows(
            table,
            t,
            mode,
            rows,
            tables,
            contents,
            n,
        ),
    decreases all,
{
    if n < all {
        lemma_updated_err(table, t, mode, rows, tables, contents, n, (all - 1) as nat);
    }
}

/// What a conditional update of many rows gives: the staged rows, settled.
pub open spec fn updated_where(
    table: Seq<char>,
    t: TableV,
    rows: Seq<Changed>,
    tables: Seq<TableV>,
    contents: Seq<Seq<StoredRowV>>,
    then: Option<CatalogErrorV>,
) -> Res<Seq<ChangeV>> {
    match updated_rows(table, t, Mode::Many, rows, tables, contents, rows.len()) {
        Err(e) => Err(e),
        Ok(cs) => match then {
            Some(e) => Err(e),
            None => match clash_error(table, t, cs, 0) {
                Some(e) => Err(e),
                None => Ok(cs),
            },
        },
    }
}

/// A conditional multi-row update: every matched row's new form, CHECKs, foreign keys
/// and unique-index deltas are checked before the first mutation. `then` is what
/// stopped the matching of rows behind these, if something did.
pub fn update_where(
    table: &str,
    def: &TableDef,
    rows: &Vec<Changed>,
    tables: &Vec<TableDef>,
    contents: &Vec<Vec<StoredRow>>,
    then: Option<CatalogError>,
) -> (r: Result<Batch>)
    requires
        forall|i: int| 0 <= i < rows@.len() ==> (#[trigger] rows@[i]).complete(def@),
        contents@.len() == tables@.len(),
    ensures
        outcome(
            r,
            updated_where(
                table@,
                def@,
                rows@,
                views(tables@),
                contents_views(contents@),
                crate::views::opt(then),
            ),
            None,
        ),
{
    let ghost t = def@;
    let ghost all = rows@;
    let ghost ts = views(tables@);
    let ghost cont = contents_views(contents@);
    let mut batch = Batch::new();
    let mut i: usize = 0;
    while i < rows.len()
        invariant
            i <= rows@.len(),
            t == def@,
            all == rows@,
            ts == views(tables@),
            cont == contents_views(contents@),
            contents@.len() == tables@.len(),
            forall|j: int| 0 <= j < rows@.len() ==> (#[trigger] rows@[j]).complete(t),
            updated_rows(table@, t, Mode::Many, all, ts, cont, i as nat) == Ok::<
                Seq<ChangeV>,
                CatalogErrorV,
            >(batch@),
        decreases rows@.len() - i,
    {
        let c = &rows[i];
        proof {
            assert(rows@[i as int].complete(t));
            if updated_rows(table@, t, Mode::Many, all, ts, cont, (i + 1) as nat) is Err {
                lemma_updated_err(
                    table@,
                    t,
                    Mode::Many,
                    all,
                    ts,
                    cont,
                    (i + 1) as nat,
                    all.len(),
                );
            }
        }
        match check_changed(def, c, tables, contents) {
            Ok(_) => {},
            Err(e) => {
                return Err(e);
            },
        }
        let m = c.m.copy();
        assert(m.complete(t.indexes.len()));
        match batch.update_one_of_many(table, def, m) {
            Ok(_) => {},
            Err(e) => {
                return Err(e);
            },
        }
        i = i + 1;
    }
    if let Some(e) = then {
        return Err(e);
    }
    match batch.settle(table, def) {
        Ok(_) => Ok(batch),
        Err(e) => Err(e),
    }
}

// --- deletes -----------------------------------------------------------------

/// A row to be removed.
#[derive(Debug, PartialEq, Eq)]
pub struct Doomed {
    /// The encoded primary key.
    pub pk_key: Vec<u8>,
    /// The committed row.
    pub row: Keyed,
}

/// The staged removals of the first `n` rows, or the first refusal.
pub open spec fn removed_rows(table: Seq<char>, t: TableV, rows: Seq<Doomed>, n: nat) -> Res<
    Seq<ChangeV>,
>
    decreases n,
{
    if n == 0 || n > rows.len() {
        Ok(Seq::empty())
    } else {
        match removed_rows(table, t, rows, (n - 1) as nat) {
            Err(e) => Err(e),
            Ok(cs) => {
                let d = rows[n - 1];
                match staged(
                    table,
                    t,
                    Mode::Many,
                    cs,
                    removal(t.indexes.len(), d.pk_key@, d.row@),
                ) {
                    Err(e) => Err(e),
                    Ok(c) => Ok(cs.push(c)),
                }
            },
        }
    }
}

/// The doomed rows.
pub open spec fn doomed_rows(rows: Seq<Doomed>) -> Seq<Seq<ValueV>> {
    Seq::new(rows.len(), |i: int| rows[i].row@.row)
}

/// The primary keys of the doomed rows.
pub open spec fn doomed_keys(rows: Seq<Doomed>) -> Seq<Seq<u8>> {
    Seq::new(rows.len(), |i: int| rows[i].pk_key@)
}

/// What deleting one row gives: RESTRICT comes first.
pub open spec fn deleted(
    table: Seq<char>,
    t: TableV,
    doomed: Doomed,
    tables: Seq<TableV>,
    contents: Seq<Seq<StoredRowV>>,
) -> Res<Seq<ChangeV>> {
    let rows = seq![doomed];
    match removal_error(t, doomed_rows(rows), doomed_keys(rows), tables, contents, 0, 0) {
        Some(e) => Err(e),
        None => removed_rows(table, t, rows, 1),
    }
}

/// What a conditional delete of many rows gives: RESTRICT comes when all are known,
/// and the whole batch is excluded from it.
pub open spec fn deleted_where(
    table: Seq<char>,
    t: TableV,
    rows: Seq<Doomed>,
    tables: Seq<TableV>,
    contents: Seq<Seq<StoredRowV>>,
    then: Option<CatalogErrorV>,
) -> Res<Seq<ChangeV>> {
    match removed_rows(table, t, rows, rows.len()) {
        Err(e) => Err(e),
        Ok(cs) => match then {
            Some(e) => Err(e),
            None => match removal_error(
                t,
                doomed_rows(rows),
                doomed_keys(rows),
                tables,
                contents,
                0,
                0,
            ) {
                Some(e) => Err(e),
                None => Ok(cs),
            },
        },
    }
}

fn check_removal(
    def: &TableDef,
    rows: &Vec<Doomed>,
    tables: &Vec<TableDef>,
    contents: &Vec<Vec<StoredRow>>,
) -> (r: Result<()>)
    requires
        contents@.len() == tables@.len(),
    ensures
        super::error::passes(
            r,
            removal_error(
                def@,
                doomed_rows(rows@),
                doomed_keys(rows@),
                views(tables@),
                contents_views(contents@),
                0,
                0,
            ),
        ),
{
    let mut gone: Vec<Vec<Value>> = Vec::new();
    let mut keys: Vec<Vec<u8>> = Vec::new();
    let mut i: usize = 0;
    while i < rows.len()
        invariant
            i <= rows@.len(),
            gone@.len() == i,
            keys@.len() == i,
            forall|j: int| 0 <= j < i ==> values((#[trigger] gone@[j])@) == rows@[j].row@.row,
            forall|j: int| 0 <= j < i ==> (#[trigger] keys@[j])@ == rows@[j].pk_key@,
        decreases rows@.len() - i,
    {
        gone.push(copy_row(&rows[i].row.row));
        keys.push(to_vec(rows[i].pk_key.as_slice()));
        i = i + 1;
    }
    assert(row_views(gone@) =~= doomed_rows(rows@));
    assert(strings(keys@) =~= doomed_keys(rows@));
    check_restrict_on_remove(def, &gone, &keys, tables, contents)
}

proof fn lemma_removed_err(table: Seq<char>, t: TableV, rows: Seq<Doomed>, n: nat, all: nat)
    requires
        n <= all <= rows.len(),
        removed_rows(table, t, rows, n) is Err,
    ensures
        removed_rows(table, t, rows, all) == removed_rows(table, t, rows, n),
    decreases all,
{
    if n < all {
        lemma_removed_err(table, t, rows, n, (all - 1) as nat);
    }
}

fn remove_all(table: &str, def: &TableDef, rows: &Vec<Doomed>) -> (r: Result<Batch>)
    requires
        forall|i: int| 0 <= i < rows@.len() ==> (#[trigger] rows@[i]).row.keys@.len()
            == def@.indexes.len(),
    ensures
        outcome(r, removed_rows(table@, def@, rows@, rows@.len()), None),
{
    let ghost t = def@;
    let ghost all = rows@;
    let mut batch = Batch::new();
    let mut i: usize = 0;
    while i < rows.len()
        invariant
            i <= rows@.len(),
            t == def@,
            all == rows@,
            forall|j: int| 0 <= j < rows@.len() ==> (#[trigger] rows@[j]).row.keys@.len()
                == t.indexes.len(),
            removed_rows(table@, t, all, i as nat) == Ok::<Seq<ChangeV>, CatalogErrorV>(batch@),
        decreases rows@.len() - i,
    {
        let d = &rows[i];
        proof {
            assert(rows@[i as int].row.keys@.len() == t.indexes.len());
            if removed_rows(table@, t, all, (i + 1) as nat) is Err {
                lemma_removed_err(table@, t, all, (i + 1) as nat, all.len());
            }
        }
        match batch.delete(table, def, to_vec(d.pk_key.as_slice()), d.row.copy()) {
            Ok(_) => {},
            Err(e) => {
                return Err(e);
            },
        }
        i = i + 1;
    }
    Ok(batch)
}

/// Delete one row. `tables` and `contents` hold all tables and their rows.
pub fn delete(
    table: &str,
    def: &TableDef,
    doomed: Doomed,
    tables: &Vec<TableDef>,
    contents: &Vec<Vec<StoredRow>>,
) -> (r: Result<Batch>)
    requires
        doomed.row.keys@.len() == def@.indexes.len(),
        contents@.len() == tables@.len(),
    ensures
        outcome(
            r,
            deleted(table@, def@, doomed, views(tables@), contents_views(contents@)),
            None,
        ),
{
    let mut rows: Vec<Doomed> = Vec::new();
    rows.push(doomed);
    assert(rows@ =~= seq![doomed]);
    match check_removal(def, &rows, tables, contents) {
        Ok(_) => {},
        Err(e) => {
            return Err(e);
        },
    }
    remove_all(table, def, &rows)
}

/// A conditional multi-row delete. `then` is what stopped the matching of rows behind
/// these, if something did.
pub fn delete_where(
    table: &str,
    def: &TableDef,
    rows: &Vec<Doomed>,
    tables: &Vec<TableDef>,
    contents: &Vec<Vec<StoredRow>>,
    then: Option<CatalogError>,
) -> (r: Result<Batch>)
    requires
        forall|i: int| 0 <= i < rows@.len() ==> (#[trigger] rows@[i]).row.keys@.len()
            == def@.indexes.len(),
        contents@.len() == tables@.len(),
    ensures
        outcome(
            r,
            deleted_where(
                table@,
                def@,
                rows@,
                views(tables@),
                contents_views(contents@),
                crate::views::opt(then),
            ),
            None,
        ),
{
    let batch = match remove_all(table, def, rows) {
        Ok(b) => b,
        Err(e) => {
            return Err(e);
        },
    };
    if let Some(e) = then {
        return Err(e);
    }
    match check_removal(def, rows, tables, contents) {
        Ok(_) => Ok(batch),
        Err(e) => Err(e),
    }
}

} // verus!
