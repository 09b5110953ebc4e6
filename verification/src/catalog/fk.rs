//! Foreign keys: their definition-time rules and their enforcement.
//!
//! Only RESTRICT is enforced. A row whose referencing columns hold a NULL is not
//! checked (MATCH SIMPLE).

use vstd::prelude::*;
use vstd::string::StringExecFns;
use super::error::{passes, CatalogError, CatalogErrorV, Result};
use super::row::{cells_named, named_cells};
use super::schema::{
    column_at, same_names, ForeignKey, ForeignKeyV, IndexV, RefAction, TableDef, TableV,
};
use crate::bytes::bytes_eq;
use crate::index::{any_null, encoded_view, has_null};
use crate::order::strings;
use crate::text::{same, show, shown};
use crate::value::{equal_rows, rows_alike, values, TypeError, TypeKind, Value, ValueV};
use crate::views::views;

verus! {

// --- the values of a key -----------------------------------------------------

/// The cells with these names, or nothing where one is NULL.
pub open spec fn full_key(t: TableV, row: Seq<ValueV>, names: Seq<Seq<char>>) -> Option<
    Seq<ValueV>,
> {
    let cells = cells_named(t, row, names);
    if has_null(cells) {
        None
    } else {
        Some(cells)
    }
}

/// What an optional row holds.
pub open spec fn opt_values(r: Option<Vec<Value>>) -> Option<Seq<ValueV>> {
    match r {
        Some(row) => Some(values(row@)),
        None => None,
    }
}

fn key_cells_of(t: &TableDef, row: &Vec<Value>, names: &Vec<String>) -> (r: Option<Vec<Value>>)
    ensures
        opt_values(r) == full_key(t@, values(row@), views(names@)),
{
    let cells = named_cells(t, row, names);
    if any_null(&cells) {
        None
    } else {
        Some(cells)
    }
}

/// The referencing column values of `fk` within a child row, in key order, or
/// `None` if any is NULL (such a row is not checked).
pub fn fk_values(child: &TableDef, fk: &ForeignKey, row: &Vec<Value>) -> (r: Option<Vec<Value>>)
    ensures
        opt_values(r) == full_key(child@, values(row@), fk@.columns),
{
    key_cells_of(child, row, &fk.columns)
}

/// The referenced column values of `fk` within a parent row, or `None` if any is
/// NULL (nothing can reference it).
pub fn parent_key_of(parent: &TableDef, fk: &ForeignKey, row: &Vec<Value>) -> (r: Option<
    Vec<Value>,
>)
    ensures
        opt_values(r) == full_key(parent@, values(row@), fk@.parent_columns),
{
    key_cells_of(parent, row, &fk.parent_columns)
}

/// Whether two optional keys are equal.
pub open spec fn keys_alike(a: Option<Seq<ValueV>>, b: Option<Seq<ValueV>>) -> bool {
    match (a, b) {
        (None, None) => true,
        (Some(x), Some(y)) => rows_alike(x, y),
        _ => false,
    }
}

fn equal_keys(a: &Option<Vec<Value>>, b: &Option<Vec<Value>>) -> (r: bool)
    ensures
        r == keys_alike(opt_values(*a), opt_values(*b)),
{
    match (a, b) {
        (None, None) => true,
        (Some(x), Some(y)) => equal_rows(x, y),
        _ => false,
    }
}

// --- definition-time rules ---------------------------------------------------

/// Which tree of the parent a foreign key is probed in.
#[derive(Debug, Clone, Copy, PartialEq, Eq, Structural)]
pub enum Target {
    /// The primary-key tree.
    PrimaryKey,
    /// The unique index at this position.
    Index(usize),
}

/// The position of the first unique index over exactly these columns, from `i`
/// on.
pub open spec fn unique_over(indexes: Seq<IndexV>, columns: Seq<Seq<char>>, i: int) -> Option<int>
    decreases indexes.len() - i,
{
    if i < 0 || i >= indexes.len() {
        None
    } else if indexes[i].unique && indexes[i].columns == columns {
        Some(i)
    } else {
        unique_over(indexes, columns, i + 1)
    }
}

/// The tree of the parent that a foreign key references, if there is one.
pub open spec fn target_of(parent: TableV, columns: Seq<Seq<char>>) -> Option<Target> {
    if parent.pk == columns {
        Some(Target::PrimaryKey)
    } else {
        match unique_over(parent.indexes, columns, 0) {
            Some(i) => Some(Target::Index(i as usize)),
            None => None,
        }
    }
}

fn find_target(parent: &TableDef, columns: &Vec<String>) -> (r: Option<Target>)
    ensures
        r == target_of(parent@, views(columns@)),
        r matches Some(Target::Index(i)) ==> i < parent@.indexes.len(),
{
    if same_names(&parent.pk, columns) {
        return Some(Target::PrimaryKey);
    }
    let ghost xs = parent@.indexes;
    let ghost cs = views(columns@);
    let mut i: usize = 0;
    while i < parent.indexes.len()
        invariant
            i <= parent.indexes@.len(),
            xs == views(parent.indexes@),
            xs == parent@.indexes,
            cs == views(columns@),
            parent@.pk != cs,
            unique_over(xs, cs, 0) == unique_over(xs, cs, i as int),
        decreases parent.indexes@.len() - i,
    {
        assert(xs[i as int] == parent.indexes@[i as int]@);
        if parent.indexes[i].unique && same_names(&parent.indexes[i].columns, columns) {
            return Some(Target::Index(i));
        }
        i = i + 1;
    }
    None
}

/// The tree of the parent to probe for a foreign key. One that no longer
/// references a key of its parent is refused.
pub fn reference_target(parent: &TableDef, fk: &ForeignKey) -> (r: Result<Target>)
    ensures
        match r {
            Ok(t) => target_of(parent@, fk@.parent_columns) == Some(t),
            Err(e) => target_of(parent@, fk@.parent_columns) is None && e@ == (
            CatalogErrorV::InvalidSchema {
                reason: about(fk@.name, " lost its referenced unique index"@),
            }),
        },
{
    match find_target(parent, &fk.parent_columns) {
        Some(t) => Ok(t),
        None => Err(refusal(fk.name.as_str(), " lost its referenced unique index")),
    }
}

/// A sentence about a foreign key.
pub open spec fn about(name: Seq<char>, what: Seq<char>) -> Seq<char> {
    "foreign key "@ + shown(name) + what
}

fn refusal(name: &str, what: &str) -> (r: CatalogError)
    ensures
        r@ == (CatalogErrorV::InvalidSchema { reason: about(name@, what@) }),
{
    let mut reason = "foreign key ".to_owned();
    let q = show(name);
    reason.append(q.as_str());
    reason.append(what);
    CatalogError::InvalidSchema { reason }
}

/// The type of the column with this name.
pub open spec fn kind_at(t: TableV, name: Seq<char>) -> Option<TypeKind> {
    match column_at(t.columns, name) {
        Some(i) => Some(t.columns[i].kind),
        None => None,
    }
}

fn find_kind(t: &TableDef, name: &str) -> (r: Option<TypeKind>)
    ensures
        r == kind_at(t@, name@),
{
    match t.col_index(name) {
        Some(i) => {
            assert(t@.columns[i as int] == t.columns@[i as int]@);
            Some(t.columns[i].kind)
        },
        None => None,
    }
}

/// Whether the referencing and the referenced columns exist and have the same
/// types, pair by pair.
pub open spec fn kinds_match(child: TableV, parent: TableV, fk: ForeignKeyV) -> bool {
    forall|i: int|
        0 <= i < fk.columns.len() && i < fk.parent_columns.len() ==> {
            &&& kind_at(child, #[trigger] fk.columns[i]) is Some
            &&& kind_at(child, fk.columns[i]) == kind_at(parent, fk.parent_columns[i])
        }
}

fn check_kinds(child: &TableDef, parent: &TableDef, fk: &ForeignKey) -> (r: bool)
    ensures
        r == kinds_match(child@, parent@, fk@),
{
    let ghost cs = fk@.columns;
    let ghost ps = fk@.parent_columns;
    let mut i: usize = 0;
    while i < fk.columns.len() && i < fk.parent_columns.len()
        invariant
            i <= fk.columns@.len(),
            i <= fk.parent_columns@.len(),
            cs == views(fk.columns@),
            ps == views(fk.parent_columns@),
            cs == fk@.columns,
            ps == fk@.parent_columns,
            forall|j: int|
                0 <= j < i ==> kind_at(child@, #[trigger] cs[j]) is Some && kind_at(child@, cs[j])
                    == kind_at(parent@, ps[j]),
        decreases fk.columns@.len() - i,
    {
        assert(cs[i as int] == fk.columns@[i as int]@);
        assert(ps[i as int] == fk.parent_columns@[i as int]@);
        let a = find_kind(child, fk.columns[i].as_str());
        let b = find_kind(parent, fk.parent_columns[i].as_str());
        let ok = match (a, b) {
            (Some(x), Some(y)) => x == y,
            _ => false,
        };
        if !ok {
            assert(!(kind_at(child@, cs[i as int]) is Some && kind_at(child@, cs[i as int])
                == kind_at(parent@, ps[i as int])));
            return false;
        }
        i = i + 1;
    }
    true
}

/// The rule that a foreign key breaks, if it breaks one. `stored` is the parent's
/// definition, if there is such a table; a self-referential key resolves against
/// the table itself.
pub open spec fn key_rule_error(t: TableV, fk: ForeignKeyV, stored: Option<TableV>) -> Option<
    CatalogErrorV,
> {
    if fk.on_delete != RefAction::Restrict || fk.on_update != RefAction::Restrict {
        Some(
            CatalogErrorV::InvalidSchema {
                reason: about(
                    fk.name,
                    ": only the RESTRICT referential action is supported in this release (CASCADE and SET NULL are not yet enforced)"@,
                ),
            },
        )
    } else {
        match parent_of(t, fk, stored) {
            None => Some(
                CatalogErrorV::InvalidSchema {
                    reason: about(fk.name, " references unknown table "@) + shown(fk.parent),
                },
            ),
            Some(parent) => if target_of(parent, fk.parent_columns) is None {
                Some(
                    CatalogErrorV::InvalidSchema {
                        reason: about(
                            fk.name,
                            " must reference the parent's primary key or a unique index"@,
                        ),
                    },
                )
            } else if !kinds_match(t, parent, fk) {
                Some(
                    CatalogErrorV::InvalidSchema {
                        reason: about(
                            fk.name,
                            " column types do not match the referenced columns"@,
                        ),
                    },
                )
            } else {
                None
            },
        }
    }
}

/// The definition of a foreign key's parent.
pub open spec fn parent_of(t: TableV, fk: ForeignKeyV, stored: Option<TableV>) -> Option<TableV> {
    if fk.parent == t.name {
        Some(t)
    } else {
        stored
    }
}

/// The first rule that the foreign keys from `i` on break.
pub open spec fn fks_error(t: TableV, stored: Seq<Option<TableV>>, i: int) -> Option<CatalogErrorV>
    decreases t.foreign_keys.len() - i,
{
    if i < 0 || i >= t.foreign_keys.len() {
        None
    } else {
        match key_rule_error(t, t.foreign_keys[i], stored[i]) {
            Some(e) => Some(e),
            None => fks_error(t, stored, i + 1),
        }
    }
}

/// What optional definitions say.
pub open spec fn table_views(s: Seq<Option<TableDef>>) -> Seq<Option<TableV>> {
    Seq::new(s.len(), |i: int| crate::views::opt(s[i]))
}

fn check_key_rule(def: &TableDef, fk: &ForeignKey, stored: &Option<TableDef>) -> (r: Result<()>)
    ensures
        passes(r, key_rule_error(def@, fk@, crate::views::opt(*stored))),
{
    if fk.on_delete != RefAction::Restrict || fk.on_update != RefAction::Restrict {
        return Err(
            refusal(
                fk.name.as_str(),
                ": only the RESTRICT referential action is supported in this release (CASCADE and SET NULL are not yet enforced)",
            ),
        );
    }
    let parent = if same(fk.parent.as_str(), def.name.as_str()) {
        def
    } else {
        match stored {
            Some(p) => p,
            None => {
                let mut reason = "foreign key ".to_owned();
                let q = show(fk.name.as_str());
                reason.append(q.as_str());
                reason.append(" references unknown table ");
                let p = show(fk.parent.as_str());
                reason.append(p.as_str());
                return Err(CatalogError::InvalidSchema { reason });
            },
        }
    };
    if find_target(parent, &fk.parent_columns).is_none() {
        return Err(
            refusal(
                fk.name.as_str(),
                " must reference the parent's primary key or a unique index",
            ),
        );
    }
    if !check_kinds(def, parent, fk) {
        return Err(
            refusal(fk.name.as_str(), " column types do not match the referenced columns"),
        );
    }
    Ok(())
}

/// Cross-table foreign-key checks that a definition cannot make on its own: the
/// parent table exists, the referenced columns form the parent's primary key or a
/// unique index, and the column types line up. `stored` holds, for each foreign
/// key, the stored definition of its parent, if there is one.
pub fn validate_fks(def: &TableDef, stored: &Vec<Option<TableDef>>) -> (r: Result<()>)
    requires
        stored@.len() == def@.foreign_keys.len(),
    ensures
        passes(r, fks_error(def@, table_views(stored@), 0)),
{
    let ghost ps = table_views(stored@);
    let mut i: usize = 0;
    assert(def@.foreign_keys.len() == def.foreign_keys@.len());
    while i < def.foreign_keys.len()
        invariant
            i <= def.foreign_keys@.len(),
            stored@.len() == def.foreign_keys@.len(),
            ps == table_views(stored@),
            fks_error(def@, ps, 0) == fks_error(def@, ps, i as int),
        decreases def.foreign_keys@.len() - i,
    {
        assert(def@.foreign_keys[i as int] == def.foreign_keys@[i as int]@);
        assert(ps[i as int] == crate::views::opt(stored@[i as int]));
        match check_key_rule(def, &def.foreign_keys[i], &stored[i]) {
            Ok(_) => {},
            Err(e) => {
                return Err(e);
            },
        }
        i = i + 1;
    }
    Ok(())
}

// --- the referencing side ----------------------------------------------------

/// What was found out for one foreign key of a row: the encoding of its
/// referencing values, and whether a committed parent row has that key.
#[derive(Debug, PartialEq, Eq)]
pub struct Probe {
    /// The encoded referencing values.
    pub key: core::result::Result<Vec<u8>, TypeError>,
    /// Whether a committed parent row has this key.
    pub found: bool,
}

/// The violation of a foreign key.
pub open spec fn dangling(t: TableV, fk: ForeignKeyV) -> CatalogErrorV {
    CatalogErrorV::ForeignKeyViolation { table: t.name, constraint: fk.name }
}

/// What a foreign key of a fresh row breaks: a parent row has to be there, or, for
/// a key on the table's own primary key, an earlier row of the same batch.
pub open spec fn insert_fk_error(
    t: TableV,
    fk: ForeignKeyV,
    row: Seq<ValueV>,
    staged: Seq<Seq<u8>>,
    probe: Probe,
) -> Option<CatalogErrorV> {
    if full_key(t, row, fk.columns) is None {
        None
    } else if fk.parent == t.name && fk.parent_columns == t.pk {
        match encoded_view(probe.key) {
            Err(e) => Some(CatalogErrorV::Type(e)),
            Ok(k) => if staged.contains(k) || probe.found {
                None
            } else {
                Some(dangling(t, fk))
            },
        }
    } else if probe.found {
        None
    } else {
        Some(dangling(t, fk))
    }
}

/// What the foreign keys of a fresh row from `i` on break.
pub open spec fn insert_fks_error(
    t: TableV,
    row: Seq<ValueV>,
    staged: Seq<Seq<u8>>,
    probes: Seq<Probe>,
    i: int,
) -> Option<CatalogErrorV>
    decreases t.foreign_keys.len() - i,
{
    if i < 0 || i >= t.foreign_keys.len() {
        None
    } else {
        match insert_fk_error(t, t.foreign_keys[i], row, staged, probes[i]) {
            Some(e) => Some(e),
            None => insert_fks_error(t, row, staged, probes, i + 1),
        }
    }
}

/// Whether `key` is one of `list`.
pub fn has_key(list: &Vec<Vec<u8>>, key: &Vec<u8>) -> (r: bool)
    ensures
        r == strings(list@).contains(key@),
{
    let ghost ss = strings(list@);
    let mut i: usize = 0;
    while i < list.len()
        invariant
            i <= list@.len(),
            ss == strings(list@),
            forall|j: int| 0 <= j < i ==> #[trigger] ss[j] != key@,
        decreases list@.len() - i,
    {
        assert(ss[i as int] == list@[i as int]@);
        if bytes_eq(list[i].as_slice(), key.as_slice()) {
            return true;
        }
        i = i + 1;
    }
    false
}

fn violation(table: &TableDef, fk: &ForeignKey) -> (r: CatalogError)
    ensures
        r@ == dangling(table@, fk@),
{
    CatalogError::ForeignKeyViolation { table: table.name.clone(), constraint: fk.name.clone() }
}

fn check_insert_fk(
    child: &TableDef,
    fk: &ForeignKey,
    row: &Vec<Value>,
    staged: &Vec<Vec<u8>>,
    probe: &Probe,
) -> (r: Result<()>)
    ensures
        passes(r, insert_fk_error(child@, fk@, values(row@), strings(staged@), *probe)),
{
    if fk_values(child, fk, row).is_none() {
        return Ok(());
    }
    if same(fk.parent.as_str(), child.name.as_str()) && same_names(&fk.parent_columns, &child.pk) {
        match &probe.key {
            Err(e) => {
                return Err(CatalogError::Type(e.copy()));
            },
            Ok(k) => {
                if has_key(staged, k) {
                    return Ok(());
                }
            },
        }
    }
    if probe.found {
        Ok(())
    } else {
        Err(violation(child, fk))
    }
}

/// Enforce every foreign key of a freshly built child row. A self-reference to the
/// table's own primary key is satisfied by an earlier row of the same batch, whose
/// key stands in `staged`. `probes` holds what was found out for each foreign key.
pub fn check_insert_fks(
    child: &TableDef,
    row: &Vec<Value>,
    staged: &Vec<Vec<u8>>,
    probes: &Vec<Probe>,
) -> (r: Result<()>)
    requires
        probes@.len() == child@.foreign_keys.len(),
    ensures
        passes(r, insert_fks_error(child@, values(row@), strings(staged@), probes@, 0)),
{
    let ghost t = child@;
    let ghost cells = values(row@);
    let ghost keys = strings(staged@);
    let mut i: usize = 0;
    assert(t.foreign_keys.len() == child.foreign_keys@.len());
    while i < child.foreign_keys.len()
        invariant
            i <= child.foreign_keys@.len(),
            probes@.len() == child.foreign_keys@.len(),
            t == child@,
            cells == values(row@),
            keys == strings(staged@),
            insert_fks_error(t, cells, keys, probes@, 0) == insert_fks_error(
                t,
                cells,
                keys,
                probes@,
                i as int,
            ),
        decreases child.foreign_keys@.len() - i,
    {
        assert(t.foreign_keys[i as int] == child.foreign_keys@[i as int]@);
        match check_insert_fk(child, &child.foreign_keys[i], row, staged, &probes[i]) {
            Ok(_) => {},
            Err(e) => {
                return Err(e);
            },
        }
        i = i + 1;
    }
    Ok(())
}

/// Whether an update leaves a foreign key without a parent: its values changed,
/// none is NULL, and no parent row has them.
pub open spec fn update_dangles(
    t: TableV,
    fk: ForeignKeyV,
    old_row: Seq<ValueV>,
    new_row: Seq<ValueV>,
    found: bool,
) -> bool {
    &&& !keys_alike(full_key(t, old_row, fk.columns), full_key(t, new_row, fk.columns))
    &&& full_key(t, new_row, fk.columns) is Some
    &&& !found
}

/// What the foreign keys of an updated row from `i` on break.
pub open spec fn update_fks_error(
    t: TableV,
    old_row: Seq<ValueV>,
    new_row: Seq<ValueV>,
    found: Seq<bool>,
    i: int,
) -> Option<CatalogErrorV>
    decreases t.foreign_keys.len() - i,
{
    if i < 0 || i >= t.foreign_keys.len() {
        None
    } else if update_dangles(t, t.foreign_keys[i], old_row, new_row, found[i]) {
        Some(dangling(t, t.foreign_keys[i]))
    } else {
        update_fks_error(t, old_row, new_row, found, i + 1)
    }
}

/// Enforce the foreign keys whose referencing columns changed by an update
/// (unchanged values were valid before the write). `found` holds, for each foreign
/// key, whether a parent row has the new values.
pub fn check_update_fks(
    child: &TableDef,
    old_row: &Vec<Value>,
    new_row: &Vec<Value>,
    found: &Vec<bool>,
) -> (r: Result<()>)
    requires
        found@.len() == child@.foreign_keys.len(),
    ensures
        passes(r, update_fks_error(child@, values(old_row@), values(new_row@), found@, 0)),
{
    let ghost t = child@;
    let ghost a = values(old_row@);
    let ghost b = values(new_row@);
    let mut i: usize = 0;
    assert(t.foreign_keys.len() == child.foreign_keys@.len());
    while i < child.foreign_keys.len()
        invariant
            i <= child.foreign_keys@.len(),
            found@.len() == child.foreign_keys@.len(),
            t == child@,
            a == values(old_row@),
            b == values(new_row@),
            update_fks_error(t, a, b, found@, 0) == update_fks_error(t, a, b, found@, i as int),
        decreases child.foreign_keys@.len() - i,
    {
        let fk = &child.foreign_keys[i];
        assert(t.foreign_keys[i as int] == fk@);
        let new_vals = fk_values(child, fk, new_row);
        let old_vals = fk_values(child, fk, old_row);
        if !equal_keys(&old_vals, &new_vals) && new_vals.is_some() && !found[i] {
            return Err(violation(child, fk));
        }
        i = i + 1;
    }
    Ok(())
}

// --- the referenced side -----------------------------------------------------

/// A stored row with its encoded primary key.
#[derive(Debug, PartialEq, Eq)]
pub struct StoredRow {
    /// The encoded primary key.
    pub pk_key: Vec<u8>,
    /// The full row.
    pub row: Vec<Value>,
}

/// What a [`StoredRow`] holds.
#[verifier::ext_equal]
pub struct StoredRowV {
    pub pk_key: Seq<u8>,
    pub row: Seq<ValueV>,
}

impl View for StoredRow {
    type V = StoredRowV;

    open spec fn view(&self) -> StoredRowV {
        StoredRowV { pk_key: self.pk_key@, row: values(self.row@) }
    }
}

/// Whether a row references a key through a foreign key.
pub open spec fn references(
    child: TableV,
    fk: ForeignKeyV,
    row: StoredRowV,
    key: Seq<ValueV>,
    excluded: Seq<Seq<u8>>,
    self_ref: bool,
) -> bool {
    &&& !(self_ref && excluded.contains(row.pk_key))
    &&& full_key(child, row.row, fk.columns) is Some
    &&& rows_alike(full_key(child, row.row, fk.columns)->Some_0, key)
}

/// Whether some row references a key through a foreign key.
pub open spec fn is_referenced(
    child: TableV,
    fk: ForeignKeyV,
    rows: Seq<StoredRowV>,
    key: Seq<ValueV>,
    excluded: Seq<Seq<u8>>,
    self_ref: bool,
) -> bool {
    exists|i: int|
        0 <= i < rows.len() && references(child, fk, #[trigger] rows[i], key, excluded, self_ref)
}

/// Whether any row of `child` references `key_vals` through `fk`, skipping rows
/// whose primary key is in `excluded` (so that a row, or a batch, does not block
/// its own removal through a self-referential key).
pub fn child_references(
    child: &TableDef,
    fk: &ForeignKey,
    rows: &Vec<StoredRow>,
    key_vals: &Vec<Value>,
    excluded: &Vec<Vec<u8>>,
    self_ref: bool,
) -> (r: bool)
    ensures
        r == is_referenced(
            child@,
            fk@,
            views(rows@),
            values(key_vals@),
            strings(excluded@),
            self_ref,
        ),
{
    let ghost vs = views(rows@);
    let ghost key = values(key_vals@);
    let ghost out = strings(excluded@);
    let mut i: usize = 0;
    while i < rows.len()
        invariant
            i <= rows@.len(),
            vs == views(rows@),
            key == values(key_vals@),
            out == strings(excluded@),
            forall|j: int|
                0 <= j < i ==> !references(child@, fk@, #[trigger] vs[j], key, out, self_ref),
        decreases rows@.len() - i,
    {
        assert(vs[i as int] == rows@[i as int]@);
        if !(self_ref && has_key(excluded, &rows[i].pk_key)) {
            if let Some(cells) = fk_values(child, fk, &rows[i].row) {
                if equal_rows(&cells, key_vals) {
                    assert(references(child@, fk@, vs[i as int], key, out, self_ref));
                    return true;
                }
            }
        }
        assert(!references(child@, fk@, vs[i as int], key, out, self_ref));
        i = i + 1;
    }
    false
}

/// The refusal of a write to a parent row that children reference.
pub open spec fn held_by(child: TableV, fk: ForeignKeyV) -> CatalogErrorV {
    CatalogErrorV::ReferencedByChildren { table: child.name, constraint: fk.name }
}

/// Whether removing parent rows would orphan a row of `child`.
pub open spec fn removal_orphans(
    parent: TableV,
    removed: Seq<Seq<ValueV>>,
    excluded: Seq<Seq<u8>>,
    child: TableV,
    fk: ForeignKeyV,
    rows: Seq<StoredRowV>,
) -> bool {
    fk.parent == parent.name && exists|i: int|
        0 <= i < removed.len() && orphaned_by(
            parent,
            #[trigger] removed[i],
            excluded,
            child,
            fk,
            rows,
        )
}

/// Whether removing this parent row would orphan a row of `child`.
pub open spec fn orphaned_by(
    parent: TableV,
    row: Seq<ValueV>,
    excluded: Seq<Seq<u8>>,
    child: TableV,
    fk: ForeignKeyV,
    rows: Seq<StoredRowV>,
) -> bool {
    full_key(parent, row, fk.parent_columns) matches Some(key) && is_referenced(
        child,
        fk,
        rows,
        key,
        excluded,
        child.name == parent.name,
    )
}

/// The first refusal of a removal, from foreign key `k` of table `c` on.
pub open spec fn removal_error(
    parent: TableV,
    removed: Seq<Seq<ValueV>>,
    excluded: Seq<Seq<u8>>,
    tables: Seq<TableV>,
    contents: Seq<Seq<StoredRowV>>,
    c: int,
    k: int,
) -> Option<CatalogErrorV>
    decreases
            tables.len() - c,
            if 0 <= c < tables.len() {
                tables[c].foreign_keys.len() - k
            } else {
                0
            },
{
    if c < 0 || c >= tables.len() || k < 0 {
        None
    } else if k >= tables[c].foreign_keys.len() {
        removal_error(parent, removed, excluded, tables, contents, c + 1, 0)
    } else if removal_orphans(
        parent,
        removed,
        excluded,
        tables[c],
        tables[c].foreign_keys[k],
        contents[c],
    ) {
        Some(held_by(tables[c], tables[c].foreign_keys[k]))
    } else {
        removal_error(parent, removed, excluded, tables, contents, c, k + 1)
    }
}

/// What rows of tables hold.
pub open spec fn contents_views(s: Seq<Vec<StoredRow>>) -> Seq<Seq<StoredRowV>> {
    Seq::new(s.len(), |i: int| views(s[i]@))
}

/// What rows hold.
pub open spec fn row_views(s: Seq<Vec<Value>>) -> Seq<Seq<ValueV>> {
    Seq::new(s.len(), |i: int| values(s[i]@))
}

fn orphans(
    parent: &TableDef,
    removed: &Vec<Vec<Value>>,
    excluded: &Vec<Vec<u8>>,
    child: &TableDef,
    fk: &ForeignKey,
    rows: &Vec<StoredRow>,
) -> (r: bool)
    ensures
        r == removal_orphans(
            parent@,
            row_views(removed@),
            strings(excluded@),
            child@,
            fk@,
            views(rows@),
        ),
{
    if !same(fk.parent.as_str(), parent.name.as_str()) {
        return false;
    }
    let self_ref = same(child.name.as_str(), parent.name.as_str());
    let ghost gone = row_views(removed@);
    let ghost out = strings(excluded@);
    let ghost vs = views(rows@);
    let mut i: usize = 0;
    while i < removed.len()
        invariant
            i <= removed@.len(),
            gone == row_views(removed@),
            out == strings(excluded@),
            vs == views(rows@),
            fk@.parent == parent@.name,
            self_ref == (child@.name == parent@.name),
            forall|j: int|
                0 <= j < i ==> !orphaned_by(parent@, #[trigger] gone[j], out, child@, fk@, vs),
        decreases removed@.len() - i,
    {
        assert(gone[i as int] == values(removed@[i as int]@));
        if let Some(key) = parent_key_of(parent, fk, &removed[i]) {
            if child_references(child, fk, rows, &key, excluded, self_ref) {
                assert(orphaned_by(parent@, gone[i as int], out, child@, fk@, vs));
                return true;
            }
        }
        assert(!orphaned_by(parent@, gone[i as int], out, child@, fk@, vs));
        i = i + 1;
    }
    false
}

fn held(child: &TableDef, fk: &ForeignKey) -> (r: CatalogError)
    ensures
        r@ == held_by(child@, fk@),
{
    CatalogError::ReferencedByChildren { table: child.name.clone(), constraint: fk.name.clone() }
}

/// RESTRICT enforcement for the referenced side of a removal: reject while any
/// child still references a parent row in `removed`. `excluded` is the set of
/// primary keys being removed from `parent` by this write, so that
/// self-referential keys do not block the batch's own deletion. `contents` holds
/// the rows of each of `tables`.
pub fn check_restrict_on_remove(
    parent: &TableDef,
    removed: &Vec<Vec<Value>>,
    excluded: &Vec<Vec<u8>>,
    tables: &Vec<TableDef>,
    contents: &Vec<Vec<StoredRow>>,
) -> (r: Result<()>)
    requires
        contents@.len() == tables@.len(),
    ensures
        passes(
            r,
            removal_error(
                parent@,
                row_views(removed@),
                strings(excluded@),
                views(tables@),
                contents_views(contents@),
                0,
                0,
            ),
        ),
{
    let ghost p = parent@;
    let ghost gone = row_views(removed@);
    let ghost out = strings(excluded@);
    let ghost ts = views(tables@);
    let ghost cs = contents_views(contents@);
    let mut c: usize = 0;
    while c < tables.len()
        invariant
            c <= tables@.len(),
            contents@.len() == tables@.len(),
            p == parent@,
            gone == row_views(removed@),
            out == strings(excluded@),
            ts == views(tables@),
            cs == contents_views(contents@),
            removal_error(p, gone, out, ts, cs, 0, 0) == removal_error(
                p,
                gone,
                out,
                ts,
                cs,
                c as int,
                0,
            ),
        decreases tables@.len() - c,
    {
        let child = &tables[c];
        assert(ts[c as int] == child@);
        assert(cs[c as int] == views(contents@[c as int]@));
        let mut k: usize = 0;
        while k < child.foreign_keys.len()
            invariant
                c < tables@.len(),
                k <= child.foreign_keys@.len(),
                contents@.len() == tables@.len(),
                p == parent@,
                gone == row_views(removed@),
                out == strings(excluded@),
                ts == views(tables@),
                cs == contents_views(contents@),
                ts[c as int] == child@,
                cs[c as int] == views(contents@[c as int]@),
                removal_error(p, gone, out, ts, cs, 0, 0) == removal_error(
                    p,
                    gone,
                    out,
                    ts,
                    cs,
                    c as int,
                    k as int,
                ),
            decreases child.foreign_keys@.len() - k,
        {
            let fk = &child.foreign_keys[k];
            assert(ts[c as int].foreign_keys[k as int] == fk@);
            if orphans(parent, removed, excluded, child, fk, &contents[c]) {
                return Err(held(child, fk));
            }
            k = k + 1;
        }
        assert(ts[c as int].foreign_keys.len() == child.foreign_keys@.len());
        c = c + 1;
    }
    Ok(())
}

/// Whether an update of a parent row takes away a key that a row of `child`
/// references.
pub open spec fn change_orphans(
    parent: TableV,
    old_row: Seq<ValueV>,
    new_row: Seq<ValueV>,
    child: TableV,
    fk: ForeignKeyV,
    rows: Seq<StoredRowV>,
) -> bool {
    &&& fk.parent == parent.name
    &&& !keys_alike(
        full_key(parent, old_row, fk.parent_columns),
        full_key(parent, new_row, fk.parent_columns),
    )
    &&& full_key(parent, old_row, fk.parent_columns) matches Some(key) && is_referenced(
        child,
        fk,
        rows,
        key,
        Seq::empty(),
        child.name == parent.name,
    )
}

/// The first refusal of a key change, from foreign key `k` of table `c` on.
pub open spec fn change_error(
    parent: TableV,
    old_row: Seq<ValueV>,
    new_row: Seq<ValueV>,
    tables: Seq<TableV>,
    contents: Seq<Seq<StoredRowV>>,
    c: int,
    k: int,
) -> Option<CatalogErrorV>
    decreases
            tables.len() - c,
            if 0 <= c < tables.len() {
                tables[c].foreign_keys.len() - k
            } else {
                0
            },
{
    if c < 0 || c >= tables.len() || k < 0 {
        None
    } else if k >= tables[c].foreign_keys.len() {
        change_error(parent, old_row, new_row, tables, contents, c + 1, 0)
    } else if change_orphans(
        parent,
        old_row,
        new_row,
        tables[c],
        tables[c].foreign_keys[k],
        contents[c],
    ) {
        Some(held_by(tables[c], tables[c].foreign_keys[k]))
    } else {
        change_error(parent, old_row, new_row, tables, contents, c, k + 1)
    }
}

fn change_blocked(
    parent: &TableDef,
    old_row: &Vec<Value>,
    new_row: &Vec<Value>,
    child: &TableDef,
    fk: &ForeignKey,
    rows: &Vec<StoredRow>,
) -> (r: bool)
    ensures
        r == change_orphans(
            parent@,
            values(old_row@),
            values(new_row@),
            child@,
            fk@,
            views(rows@),
        ),
{
    if !same(fk.parent.as_str(), parent.name.as_str()) {
        return false;
    }
    let old_key = parent_key_of(parent, fk, old_row);
    let new_key = parent_key_of(parent, fk, new_row);
    if equal_keys(&old_key, &new_key) {
        return false;
    }
    match old_key {
        None => false,
        Some(key) => {
            let self_ref = same(child.name.as_str(), parent.name.as_str());
            let none: Vec<Vec<u8>> = Vec::new();
            assert(strings(none@) =~= Seq::empty());
            child_references(child, fk, rows, &key, &none, self_ref)
        },
    }
}

/// RESTRICT enforcement for a referenced-key change: if an update alters a parent
/// column that some foreign key references, the old key is disappearing, so reject
/// while any child still references it. `contents` holds the rows of each of
/// `tables`.
pub fn check_restrict_on_key_change(
    parent: &TableDef,
    old_row: &Vec<Value>,
    new_row: &Vec<Value>,
    tables: &Vec<TableDef>,
    contents: &Vec<Vec<StoredRow>>,
) -> (r: Result<()>)
    requires
        contents@.len() == tables@.len(),
    ensures
        passes(
            r,
            change_error(
                parent@,
                values(old_row@),
                values(new_row@),
                views(tables@),
                contents_views(contents@),
                0,
                0,
            ),
        ),
{
    let ghost p = parent@;
    let ghost a = values(old_row@);
    let ghost b = values(new_row@);
    let ghost ts = views(tables@);
    let ghost cs = contents_views(contents@);
    let mut c: usize = 0;
    while c < tables.len()
        invariant
            c <= tables@.len(),
            contents@.len() == tables@.len(),
            p == parent@,
            a == values(old_row@),
            b == values(new_row@),
            ts == views(tables@),
            cs == contents_views(contents@),
            change_error(p, a, b, ts, cs, 0, 0) == change_error(p, a, b, ts, cs, c as int, 0),
        decreases tables@.len() - c,
    {
        let child = &tables[c];
        assert(ts[c as int] == child@);
        assert(cs[c as int] == views(contents@[c as int]@));
        let mut k: usize = 0;
        while k < child.foreign_keys.len()
            invariant
                c < tables@.len(),
                k <= child.foreign_keys@.len(),
                contents@.len() == tables@.len(),
                p == parent@,
                a == values(old_row@),
                b == values(new_row@),
                ts == views(tables@),
                cs == contents_views(contents@),
                ts[c as int] == child@,
                cs[c as int] == views(contents@[c as int]@),
                change_error(p, a, b, ts, cs, 0, 0) == change_error(
                    p,
                    a,
                    b,
                    ts,
                    cs,
                    c as int,
                    k as int,
                ),
            decreases child.foreign_keys@.len() - k,
        {
            let fk = &child.foreign_keys[k];
            assert(ts[c as int].foreign_keys[k as int] == fk@);
            if change_blocked(parent, old_row, new_row, child, fk, &contents[c]) {
                return Err(held(child, fk));
            }
            k = k + 1;
        }
        assert(ts[c as int].foreign_keys.len() == child.foreign_keys@.len());
        c = c + 1;
    }
    Ok(())
}

/// The first of the foreign keys from `k` on that references a table.
pub open spec fn key_to(keys: Seq<ForeignKeyV>, table: Seq<char>, k: int) -> Option<int>
    decreases keys.len() - k,
{
    if k < 0 || k >= keys.len() {
        None
    } else if keys[k].parent == table {
        Some(k)
    } else {
        key_to(keys, table, k + 1)
    }
}

/// The refusal to drop a table that another one, from the `c`-th on, references.
pub open spec fn drop_error(tables: Seq<TableV>, table: Seq<char>, c: int) -> Option<CatalogErrorV>
    decreases tables.len() - c,
{
    if c < 0 || c >= tables.len() {
        None
    } else if tables[c].name == table {
        drop_error(tables, table, c + 1)
    } else {
        match key_to(tables[c].foreign_keys, table, 0) {
            Some(k) => Some(
                CatalogErrorV::TableReferenced {
                    table,
                    by: tables[c].name,
                    constraint: tables[c].foreign_keys[k].name,
                },
            ),
            None => drop_error(tables, table, c + 1),
        }
    }
}

/// Refuse to drop a table while another one references it. A self-reference does
/// not block the table's own drop.
pub fn check_drop(table: &str, tables: &Vec<TableDef>) -> (r: Result<()>)
    ensures
        passes(r, drop_error(views(tables@), table@, 0)),
{
    let ghost ts = views(tables@);
    let mut c: usize = 0;
    while c < tables.len()
        invariant
            c <= tables@.len(),
            ts == views(tables@),
            drop_error(ts, table@, 0) == drop_error(ts, table@, c as int),
        decreases tables@.len() - c,
    {
        let other = &tables[c];
        assert(ts[c as int] == other@);
        if !same(other.name.as_str(), table) {
            let ghost ks = other@.foreign_keys;
            let mut k: usize = 0;
            while k < other.foreign_keys.len()
                invariant
                    c < tables@.len(),
                    k <= other.foreign_keys@.len(),
                    ks == views(other.foreign_keys@),
                    ks == other@.foreign_keys,
                    ts == views(tables@),
                    ts[c as int] == other@,
                    other@.name != table@,
                    key_to(ks, table@, 0) == key_to(ks, table@, k as int),
                    drop_error(ts, table@, 0) == drop_error(ts, table@, c as int),
                decreases other.foreign_keys@.len() - k,
            {
                assert(ks[k as int] == other.foreign_keys@[k as int]@);
                if same(other.foreign_keys[k].parent.as_str(), table) {
                    return Err(
                        CatalogError::TableReferenced {
                            table: table.to_owned(),
                            by: other.name.clone(),
                            constraint: other.foreign_keys[k].name.clone(),
                        },
                    );
                }
                k = k + 1;
            }
        }
        c = c + 1;
    }
    Ok(())
}

/// A removal that RESTRICT lets through leaves no row behind that references a
/// removed one.
pub proof fn removals_orphan_nothing(
    parent: TableV,
    removed: Seq<Seq<ValueV>>,
    excluded: Seq<Seq<u8>>,
    tables: Seq<TableV>,
    contents: Seq<Seq<StoredRowV>>,
    c: int,
    k: int,
)
    requires
        removal_error(parent, removed, excluded, tables, contents, 0, 0) is None,
        0 <= c < tables.len(),
        0 <= k < tables[c].foreign_keys.len(),
    ensures
        !removal_orphans(
            parent,
            removed,
            excluded,
            tables[c],
            tables[c].foreign_keys[k],
            contents[c],
        ),
{
    lemma_removal_from(parent, removed, excluded, tables, contents, 0, 0, c, k);
}

proof fn lemma_removal_from(
    parent: TableV,
    removed: Seq<Seq<ValueV>>,
    excluded: Seq<Seq<u8>>,
    tables: Seq<TableV>,
    contents: Seq<Seq<StoredRowV>>,
    c0: int,
    k0: int,
    c: int,
    k: int,
)
    requires
        removal_error(parent, removed, excluded, tables, contents, c0, k0) is None,
        0 <= c0,
        0 <= k0,
        c0 <= c < tables.len(),
        c0 == c ==> k0 <= k,
        0 <= k < tables[c].foreign_keys.len(),
    ensures
        !removal_orphans(
            parent,
            removed,
            excluded,
            tables[c],
            tables[c].foreign_keys[k],
            contents[c],
        ),
    decreases tables.len() - c0, tables[c0].foreign_keys.len() - k0,
{
    if c0 == c && k0 == k {
    } else if k0 >= tables[c0].foreign_keys.len() {
        lemma_removal_from(parent, removed, excluded, tables, contents, c0 + 1, 0, c, k);
    } else {
        lemma_removal_from(parent, removed, excluded, tables, contents, c0, k0 + 1, c, k);
    }
}

} // verus!
