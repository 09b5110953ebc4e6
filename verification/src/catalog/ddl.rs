//! Schema changes: what each one checks, and the definition that it leaves.

use vstd::prelude::*;
use super::error::{invalid, invalid_v, CatalogCorruption, CatalogError, CatalogErrorV, Res, Result};
use super::fk::{fks_error, table_views, validate_fks, StoredRow, StoredRowV};
use super::form::{encode_table, literals_in, table_form, Encoded};
use super::row::{cells_named, index_cols};
use super::schema::{
    column_at, index_at, missing_backings, ColumnDef, ColumnV, DefaultSpec, DefaultV, IndexDef,
    IndexV, TableDef, TableV,
};
use super::store::{load_root, root_of};
use super::validate::table_error;
use super::write::{encodings, too_large};
use crate::btree::insert::check_entry;
use crate::bytes::{bytes_eq, to_vec};
use crate::index::{encoded_view, entry, entry_of, Entry, EntryV};
use crate::pager::page::PageId;
use crate::value::{TypeError, Value};
use crate::views::views;

verus! {

/// A definition ready to be stored.
#[derive(Debug, PartialEq, Eq)]
pub struct Ready {
    /// The definition.
    pub def: TableDef,
    /// The key of its schema entry.
    pub key: Vec<u8>,
    /// Its stored form.
    pub bytes: Vec<u8>,
}

/// A definition with the backing index of every `unique` column.
pub open spec fn with_backings(t: TableV) -> TableV {
    TableV { indexes: t.indexes + missing_backings(t, t.columns.len()), ..t }
}

/// The stored form of a definition under its key, or why it cannot be stored.
pub open spec fn storable(
    t: TableV,
    key: core::result::Result<Seq<u8>, TypeError>,
    literals: Seq<Encoded>,
) -> Res<Seq<u8>> {
    match table_form(t, literals) {
        Err(e) => Err(e),
        Ok(bytes) => match key {
            Err(e) => Err(CatalogErrorV::Type(e)),
            Ok(k) => match too_large(k, bytes) {
                Some(e) => Err(e),
                None => Ok(bytes),
            },
        },
    }
}

/// Whether a definition is ready as `want` says.
pub open spec fn is_ready(
    r: Result<Ready>,
    t: TableV,
    key: core::result::Result<Seq<u8>, TypeError>,
    want: Res<Seq<u8>>,
) -> bool {
    match r {
        Ok(x) => {
            &&& x.def@ == t
            &&& key == Ok::<Seq<u8>, TypeError>(x.key@)
            &&& want == Ok::<Seq<u8>, CatalogErrorV>(x.bytes@)
        },
        Err(e) => want == Err::<Seq<u8>, CatalogErrorV>(e@),
    }
}

fn make_ready(def: TableDef, key: &Encoded, literals: &Vec<Encoded>) -> (r: Result<Ready>)
    requires
        literals@.len() == literals_in(def@),
    ensures
        is_ready(
            r,
            def@,
            encoded_view(*key),
            storable(def@, encoded_view(*key), literals@),
        ),
{
    let bytes = match encode_table(&def, literals) {
        Ok(b) => b,
        Err(e) => {
            return Err(e);
        },
    };
    let k = match key {
        Ok(k) => to_vec(k.as_slice()),
        Err(e) => {
            return Err(CatalogError::Type(e.copy()));
        },
    };
    match check_entry(k.as_slice(), bytes.as_slice()) {
        Ok(_) => {},
        Err(e) => {
            return Err(CatalogError::BTree(e));
        },
    }
    Ok(Ready { def, key: k, bytes })
}

/// What creating a table gives: the definition with its backing indexes has to be
/// valid, its foreign keys have to fit, and no table may have its name.
pub open spec fn created(
    t: TableV,
    json: Seq<Option<TypeError>>,
    parents: Seq<Option<TableV>>,
    key: core::result::Result<Seq<u8>, TypeError>,
    exists_already: bool,
    literals: Seq<Encoded>,
) -> Res<Seq<u8>> {
    let full = with_backings(t);
    match table_error(full, json) {
        Some(e) => Err(e),
        None => match fks_error(full, parents, 0) {
            Some(e) => Err(e),
            None => match key {
                Err(e) => Err(CatalogErrorV::Type(e)),
                Ok(_) => if exists_already {
                    Err(CatalogErrorV::TableExists { table: t.name })
                } else {
                    storable(full, key, literals)
                },
            },
        },
    }
}

/// `create table`: validate a new definition and make it ready to be stored.
/// `json` holds the value layer's verdicts on the JSON defaults, `parents` the
/// stored definitions of the foreign keys' parents, `key` the encoded key of the
/// schema entry, `exists_already` whether there is such an entry, and `literals`
/// the encodings of the definition's literals.
pub fn create_table(
    def: TableDef,
    json: &Vec<Option<TypeError>>,
    parents: &Vec<Option<TableDef>>,
    key: &Encoded,
    exists_already: bool,
    literals: &Vec<Encoded>,
) -> (r: Result<Ready>)
    requires
        json@.len() == def@.columns.len(),
        parents@.len() == def@.foreign_keys.len(),
        literals@.len() == literals_in(def@),
    ensures
        is_ready(
            r,
            with_backings(def@),
            encoded_view(*key),
            created(
                def@,
                json@,
                table_views(parents@),
                encoded_view(*key),
                exists_already,
                literals@,
            ),
        ),
{
    let mut full = def;
    full.materialize_implicit_indexes();
    match full.validate(json) {
        Ok(_) => {},
        Err(e) => {
            return Err(e);
        },
    }
    match validate_fks(&full, parents) {
        Ok(_) => {},
        Err(e) => {
            return Err(e);
        },
    }
    if let Err(e) = key {
        return Err(CatalogError::Type(e.copy()));
    }
    if exists_already {
        return Err(CatalogError::TableExists { table: full.name });
    }
    make_ready(full, key, literals)
}

/// Whether a table has an auto-increment column, and with it a sequence.
pub open spec fn has_auto(t: TableV) -> bool {
    exists|i: int| 0 <= i < t.columns.len() && (#[trigger] t.columns[i]).auto_increment
}

/// Whether a table has an auto-increment column, and with it a sequence.
pub fn has_sequence(def: &TableDef) -> (r: bool)
    ensures
        r == has_auto(def@),
{
    let ghost cs = def@.columns;
    let mut i: usize = 0;
    while i < def.columns.len()
        invariant
            i <= def.columns@.len(),
            cs == views(def.columns@),
            cs == def@.columns,
            forall|j: int| 0 <= j < i ==> !(#[trigger] cs[j]).auto_increment,
        decreases def.columns@.len() - i,
    {
        assert(cs[i as int] == def.columns@[i as int]@);
        if def.columns[i].auto_increment {
            return true;
        }
        i = i + 1;
    }
    false
}

/// Whether an added column reads as something in rows that are there already: NULL,
/// or a constant default.
pub open spec fn backfillable(c: ColumnV) -> bool {
    c.nullable || (c.default matches Some(DefaultV::Value(_)))
}

/// A definition with a column more, and its backing index if it needs one.
pub open spec fn with_column(t: TableV, c: ColumnV) -> TableV {
    with_backings(TableV { columns: t.columns.push(c), ..t })
}

/// What adding a column gives.
pub open spec fn column_added(
    t: TableV,
    c: ColumnV,
    json: Seq<Option<TypeError>>,
    key: core::result::Result<Seq<u8>, TypeError>,
    literals: Seq<Encoded>,
) -> Res<Seq<u8>> {
    if column_at(t.columns, c.name) is Some {
        Err(invalid_v("a column with that name already exists"@))
    } else if !backfillable(c) {
        Err(invalid_v("an added column must be nullable or carry a constant default"@))
    } else {
        match table_error(with_column(t, c), json) {
            Some(e) => Err(e),
            None => storable(with_column(t, c), key, literals),
        }
    }
}

/// `alter table add column`. The new column must be nullable or carry a constant
/// default (existing rows are padded lazily on read). The indexes behind those of
/// `def` have to be built from the existing rows.
pub fn add_column(
    def: TableDef,
    column: ColumnDef,
    json: &Vec<Option<TypeError>>,
    key: &Encoded,
    literals: &Vec<Encoded>,
) -> (r: Result<Ready>)
    requires
        json@.len() == def@.columns.len() + 1,
        literals@.len() == literals_in(with_column(def@, column@)),
    ensures
        is_ready(
            r,
            with_column(def@, column@),
            encoded_view(*key),
            column_added(def@, column@, json@, encoded_view(*key), literals@),
        ),
{
    if def.col_index(column.name.as_str()).is_some() {
        return Err(invalid("a column with that name already exists"));
    }
    let constant = match &column.default {
        Some(d) => match d {
            DefaultSpec::Value(_) => true,
            _ => false,
        },
        None => false,
    };
    if !(column.nullable || constant) {
        return Err(invalid("an added column must be nullable or carry a constant default"));
    }
    let mut full = def;
    full.columns.push(column);
    assert(full@.columns =~= def@.columns.push(column@));
    full.materialize_implicit_indexes();
    match full.validate(json) {
        Ok(_) => {},
        Err(e) => {
            return Err(e);
        },
    }
    make_ready(full, key, literals)
}

/// A definition with an index more.
pub open spec fn with_index(t: TableV, x: IndexV) -> TableV {
    TableV { indexes: t.indexes.push(x), ..t }
}

/// What creating an index gives.
pub open spec fn index_created(
    table: Seq<char>,
    t: TableV,
    x: IndexV,
    json: Seq<Option<TypeError>>,
    key: core::result::Result<Seq<u8>, TypeError>,
    literals: Seq<Encoded>,
) -> Res<Seq<u8>> {
    if index_at(t.indexes, x.name) is Some {
        Err(CatalogErrorV::IndexExists { table, index: x.name })
    } else {
        match table_error(with_index(t, x), json) {
            Some(e) => Err(e),
            None => storable(with_index(t, x), key, literals),
        }
    }
}

/// `create index`: validate, and make the definition ready. The index has to be
/// built from the existing rows.
pub fn create_index(
    table: &str,
    def: TableDef,
    index: IndexDef,
    json: &Vec<Option<TypeError>>,
    key: &Encoded,
    literals: &Vec<Encoded>,
) -> (r: Result<Ready>)
    requires
        json@.len() == def@.columns.len(),
        literals@.len() == literals_in(def@),
    ensures
        is_ready(
            r,
            with_index(def@, index@),
            encoded_view(*key),
            index_created(table@, def@, index@, json@, encoded_view(*key), literals@),
        ),
{
    if def.index_pos(index.name.as_str()).is_some() {
        return Err(CatalogError::IndexExists { table: table.to_owned(), index: index.name });
    }
    let full = def.index(index);
    match full.validate(json) {
        Ok(_) => {},
        Err(e) => {
            return Err(e);
        },
    }
    make_ready(full, key, literals)
}

/// A definition without the index at `i`.
pub open spec fn without_index(t: TableV, i: int) -> TableV {
    TableV { indexes: t.indexes.remove(i), ..t }
}

/// What dropping an index gives: the root of its tree and the stored form of what
/// is left.
pub open spec fn index_dropped(
    table: Seq<char>,
    t: TableV,
    index: Seq<char>,
    root: Option<Seq<u8>>,
    literals: Seq<Encoded>,
) -> Res<(PageId, Seq<u8>)> {
    match index_at(t.indexes, index) {
        None => Err(CatalogErrorV::UnknownIndex { table, index }),
        Some(i) => if t.backs_unique(t.indexes[i]) {
            Err(invalid_v("this index enforces a unique column and cannot be dropped"@))
        } else {
            match root {
                None => Err(CatalogErrorV::Corrupt(CatalogCorruption::MissingEntry)),
                Some(b) => match root_of(b) {
                    Err(e) => Err(e),
                    Ok(id) => match table_form(without_index(t, i), literals) {
                        Err(e) => Err(e),
                        Ok(bytes) => Ok((id, bytes)),
                    },
                },
            }
        },
    }
}

/// An index that is to be dropped.
#[derive(Debug, PartialEq, Eq)]
pub struct Dropped {
    /// The definition without the index.
    pub def: TableDef,
    /// Its stored form.
    pub bytes: Vec<u8>,
    /// The root of the index's tree.
    pub root: PageId,
}

/// `drop index`: remove it from the definition. The implicit index backing a
/// `unique` column cannot be dropped. `root` is the entry with the root of the
/// index's tree.
pub fn drop_index(
    table: &str,
    def: TableDef,
    index: &str,
    root: &Option<Vec<u8>>,
    literals: &Vec<Encoded>,
) -> (r: Result<Dropped>)
    requires
        literals@.len() == literals_in(def@),
    ensures
        match r {
            Ok(x) => {
                &&& index_at(def@.indexes, index@) is Some
                &&& x.def@ == without_index(def@, index_at(def@.indexes, index@)->Some_0)
                &&& index_dropped(table@, def@, index@, crate::views::opt(*root), literals@)
                    == Ok::<(PageId, Seq<u8>), CatalogErrorV>((x.root, x.bytes@))
            },
            Err(e) => index_dropped(table@, def@, index@, crate::views::opt(*root), literals@)
                == Err::<(PageId, Seq<u8>), CatalogErrorV>(e@),
        },
{
    let pos = match def.index_pos(index) {
        Some(p) => p,
        None => {
            return Err(
                CatalogError::UnknownIndex { table: table.to_owned(), index: index.to_owned() },
            );
        },
    };
    assert(def@.indexes[pos as int] == def.indexes@[pos as int]@);
    if def.backs_unique_column(&def.indexes[pos]) {
        return Err(invalid("this index enforces a unique column and cannot be dropped"));
    }
    let id = match load_root(root) {
        Ok(id) => id,
        Err(e) => {
            return Err(e);
        },
    };
    let mut rest = def;
    let _gone = rest.indexes.remove(pos);
    assert(rest@.indexes =~= def@.indexes.remove(pos as int));
    match encode_table(&rest, literals) {
        Ok(bytes) => Ok(Dropped { def: rest, bytes, root: id }),
        Err(e) => Err(e),
    }
}

// --- backfill ----------------------------------------------------------------

/// Whether an entry with this key is among them.
pub open spec fn has_entry_key(es: Seq<EntryV>, key: Seq<u8>) -> bool {
    exists|i: int| 0 <= i < es.len() && (#[trigger] es[i]).key == key
}

/// The entries of a fresh index over the first `n` rows, or why it cannot be built.
pub open spec fn backfill(
    t: TableV,
    x: IndexV,
    rows: Seq<StoredRowV>,
    keys: Seq<core::result::Result<Seq<u8>, TypeError>>,
    n: nat,
) -> Res<Seq<EntryV>>
    decreases n,
{
    if n == 0 || n > rows.len() {
        Ok(Seq::empty())
    } else {
        match backfill(t, x, rows, keys, (n - 1) as nat) {
            Err(e) => Err(e),
            Ok(es) => match entry_of(
                cells_named(t, rows[n - 1].row, x.columns),
                keys[n - 1],
                rows[n - 1].pk_key,
                x.unique,
            ) {
                Err(e) => Err(CatalogErrorV::Index(e)),
                Ok(None) => Ok(es),
                Ok(Some(e)) => if x.unique && has_entry_key(es, e.key) {
                    Err(CatalogErrorV::UniqueViolation { table: t.name, index: x.name })
                } else {
                    match too_large(e.key, e.value) {
                        Some(err) => Err(err),
                        None => Ok(es.push(e)),
                    }
                },
            },
        }
    }
}

fn find_entry_key(es: &Vec<Entry>, key: &Vec<u8>) -> (r: bool)
    ensures
        r == has_entry_key(views(es@), key@),
{
    let ghost vs = views(es@);
    let mut i: usize = 0;
    while i < es.len()
        invariant
            i <= es@.len(),
            vs == views(es@),
            forall|j: int| 0 <= j < i ==> (#[trigger] vs[j]).key != key@,
        decreases es@.len() - i,
    {
        assert(vs[i as int] == es@[i as int]@);
        if bytes_eq(es[i].key.as_slice(), key.as_slice()) {
            assert(vs[i as int].key == key@);
            return true;
        }
        i = i + 1;
    }
    false
}

proof fn lemma_backfill_err(
    t: TableV,
    x: IndexV,
    rows: Seq<StoredRowV>,
    keys: Seq<core::result::Result<Seq<u8>, TypeError>>,
    n: nat,
    all: nat,
)
    requires
        n <= all <= rows.len(),
        backfill(t, x, rows, keys, n) is Err,
    ensures
        backfill(t, x, rows, keys, all) == backfill(t, x, rows, keys, n),
    decreases all,
{
    if n < all {
        lemma_backfill_err(t, x, rows, keys, n, (all - 1) as nat);
    }
}

/// Compute every entry of a fresh index over the existing rows, rejecting unique
/// violations. `keys` holds, for each row, the encoding of its cells in the index's
/// columns.
pub fn compute_backfill(
    def: &TableDef,
    idx: &IndexDef,
    rows: &Vec<StoredRow>,
    keys: &Vec<Encoded>,
) -> (r: Result<Vec<Entry>>)
    requires
        keys@.len() == rows@.len(),
    ensures
        match r {
            Ok(es) => backfill(def@, idx@, views(rows@), encodings(keys@), rows@.len()) == Ok::<
                Seq<EntryV>,
                CatalogErrorV,
            >(views(es@)),
            Err(e) => backfill(def@, idx@, views(rows@), encodings(keys@), rows@.len()) == Err::<
                Seq<EntryV>,
                CatalogErrorV,
            >(e@),
        },
{
    let ghost t = def@;
    let ghost x = idx@;
    let ghost vs = views(rows@);
    let ghost ks = encodings(keys@);
    let mut out: Vec<Entry> = Vec::new();
    let mut i: usize = 0;
    assert(views(out@) =~= Seq::empty());
    while i < rows.len()
        invariant
            i <= rows@.len(),
            keys@.len() == rows@.len(),
            t == def@,
            x == idx@,
            vs == views(rows@),
            ks == encodings(keys@),
            backfill(t, x, vs, ks, i as nat) == Ok::<Seq<EntryV>, CatalogErrorV>(views(out@)),
        decreases rows@.len() - i,
    {
        proof {
            assert(vs[i as int] == rows@[i as int]@);
            assert(ks[i as int] == encoded_view(keys@[i as int]));
            if backfill(t, x, vs, ks, (i + 1) as nat) is Err {
                lemma_backfill_err(t, x, vs, ks, (i + 1) as nat, vs.len());
            }
        }
        let cols = index_cols(def, idx, &rows[i].row);
        match entry(&cols, &keys[i], rows[i].pk_key.as_slice(), idx.unique) {
            Err(e) => {
                return Err(CatalogError::Index(e));
            },
            Ok(found) => {
                if let Some(e) = found {
                    if idx.unique && find_entry_key(&out, &e.key) {
                        return Err(
                            CatalogError::UniqueViolation {
                                table: def.name.clone(),
                                index: idx.name.clone(),
                            },
                        );
                    }
                    match check_entry(e.key.as_slice(), e.value.as_slice()) {
                        Ok(_) => {},
                        Err(err) => {
                            return Err(CatalogError::BTree(err));
                        },
                    }
                    let ghost before = views(out@);
                    out.push(e);
                    assert(views(out@) =~= before.push(e@));
                }
            },
        }
        i = i + 1;
    }
    assert(vs.len() == rows@.len());
    Ok(out)
}

/// A unique index that was built holds no key twice.
pub proof fn built_unique_indexes_hold_no_key_twice(
    t: TableV,
    x: IndexV,
    rows: Seq<StoredRowV>,
    keys: Seq<core::result::Result<Seq<u8>, TypeError>>,
    n: nat,
    a: int,
    b: int,
)
    requires
        x.unique,
        backfill(t, x, rows, keys, n) is Ok,
        0 <= a < b < backfill(t, x, rows, keys, n)->Ok_0.len(),
    ensures
        backfill(t, x, rows, keys, n)->Ok_0[a].key != backfill(t, x, rows, keys, n)->Ok_0[b].key,
    decreases n,
{
    if n > 0 && n <= rows.len() {
        let es = backfill(t, x, rows, keys, (n - 1) as nat)->Ok_0;
        let all = backfill(t, x, rows, keys, n)->Ok_0;
        if b < es.len() {
            built_unique_indexes_hold_no_key_twice(t, x, rows, keys, (n - 1) as nat, a, b);
        } else {
            assert(all[a] == es[a]);
            assert(all == es.push(all[b]));
        }
    }
}

} // verus!
