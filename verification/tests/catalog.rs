//! Tables and constraints end to end: the catalog's decisions run over real trees and
//! pages, with a small value layer of the test's own.

use std::cell::{Cell as Slot, RefCell};
use std::collections::BTreeMap;

use otf::btree::grove::pages_of;
use otf::btree::survey::can_change;
use otf::btree::BTree;
use otf::catalog::apply::Roots;
use otf::catalog::audit::check_index;
use otf::catalog::check::comparisons_of;
use otf::catalog::ddl::{self, compute_backfill, has_sequence};
use otf::catalog::fk::{check_drop, fk_values, Probe, StoredRow};
use otf::catalog::form::{table_literals, Encoded};
use otf::catalog::job::{self, Changed, Doomed, Fresh};
use otf::catalog::named::load_roots;
use otf::catalog::policy::{proposals, selected, PolicyError, RowFilter, RowUpdater};
use otf::catalog::probe::{parent_has, probe_row};
use otf::catalog::read::{self, DecodedRow};
use otf::catalog::row::{
    build_row, check_pk, decode_padded, index_cols, pk_values, transform_row, Cell, Fill,
};
use otf::catalog::store::{
    band_end, encode_root, iroot_band, iroot_key, load_seq, load_table, root_key, seq_key, tbl_band,
    tbl_key,
};
use otf::catalog::tables::{fell_index, fell_table, plant_indexes, plant_table, IndexFill};
use otf::catalog::trees::{write_rows, Site, TableKeys};
use otf::catalog::{
    implicit_index_name, Batch, CatalogCorruption, CatalogError, CheckExpr, CmpOp, ColumnDef,
    Decoded, DefaultSpec, ForeignKey, IndexDef, Keyed, Move, RefAction, Relation, TableDef,
    UpdatePolicy,
};
use otf::common::{
    CategorizedError, ErrorCategory, FaultInjectingBackend, FaultPoint, MemoryBackend, Rng,
    SeededRng,
};
use otf::index::Entry;
use otf::pager::{PageId, Pager, PagerError, PagerStats};
use otf::proto::{decode_doc, DecodeLimits};
use otf::value::{TypeError, TypeKind, Value};

type Mem = Pager<MemoryBackend>;

// --- the value layer -----------------------------------------------------------

fn push_component(out: &mut Vec<u8>, v: &Value) {
    let escaped = |out: &mut Vec<u8>, bytes: &[u8]| {
        for &b in bytes {
            out.push(b);
            if b == 0 {
                out.push(0xFF);
            }
        }
        out.extend_from_slice(&[0, 0]);
    };
    match v {
        Value::Null => out.push(0x00),
        Value::Bool(b) => out.extend_from_slice(&[0x01, *b as u8]),
        Value::I64(i) => {
            out.push(0x02);
            out.extend_from_slice(&((*i as u64) ^ (1 << 63)).to_be_bytes());
        }
        Value::F64(bits) => {
            out.push(0x03);
            let key = if bits >> 63 == 1 { !bits } else { bits ^ (1 << 63) };
            out.extend_from_slice(&key.to_be_bytes());
        }
        Value::Text(s) => {
            out.push(0x04);
            escaped(out, s.as_bytes());
        }
        Value::Blob(b) => {
            out.push(0x05);
            escaped(out, b);
        }
        Value::Uuid(u) => {
            out.push(0x06);
            out.extend_from_slice(u);
        }
        Value::Json(b) => {
            out.push(0x07);
            escaped(out, b);
        }
        Value::Timestamp(t) => {
            out.push(0x08);
            out.extend_from_slice(&((*t as u64) ^ (1 << 63)).to_be_bytes());
        }
    }
}

/// An order-preserving encoding of a key.
fn encode_key(values: &[Value]) -> Vec<u8> {
    let mut out = Vec::new();
    for v in values {
        push_component(&mut out, v);
    }
    out
}

fn encode_row(row: &[Value]) -> Vec<u8> {
    let mut out = Vec::new();
    for v in row {
        let (tag, body): (u8, Vec<u8>) = match v {
            Value::Null => (0, vec![]),
            Value::Bool(b) => (1, vec![*b as u8]),
            Value::I64(i) => (2, i.to_le_bytes().to_vec()),
            Value::F64(bits) => (3, bits.to_le_bytes().to_vec()),
            Value::Text(s) => (4, s.as_bytes().to_vec()),
            Value::Blob(b) => (5, b.clone()),
            Value::Uuid(u) => (6, u.to_vec()),
            Value::Json(b) => (7, b.clone()),
            Value::Timestamp(t) => (8, t.to_le_bytes().to_vec()),
        };
        out.push(tag);
        out.extend_from_slice(&(body.len() as u32).to_le_bytes());
        out.extend_from_slice(&body);
    }
    out
}

fn decode_row(bytes: &[u8]) -> Result<Vec<Value>, TypeError> {
    let bad = || TypeError { category: ErrorCategory::Corruption, text: "a cell".to_string() };
    let mut row = Vec::new();
    let mut at = 0;
    while at < bytes.len() {
        let head = bytes.get(at..at + 5).ok_or_else(bad)?;
        let len = u32::from_le_bytes([head[1], head[2], head[3], head[4]]) as usize;
        let body = bytes.get(at + 5..at + 5 + len).ok_or_else(bad)?;
        let eight = || -> Result<[u8; 8], TypeError> { body.try_into().map_err(|_| bad()) };
        row.push(match head[0] {
            0 => Value::Null,
            1 => Value::Bool(body == [1]),
            2 => Value::I64(i64::from_le_bytes(eight()?)),
            3 => Value::F64(u64::from_le_bytes(eight()?)),
            4 => Value::Text(String::from_utf8(body.to_vec()).map_err(|_| bad())?),
            5 => Value::Blob(body.to_vec()),
            6 => Value::Uuid(body.try_into().map_err(|_| bad())?),
            7 => Value::Json(body.to_vec()),
            8 => Value::Timestamp(i64::from_le_bytes(eight()?)),
            _ => return Err(bad()),
        });
        at += 5 + len;
    }
    Ok(row)
}

fn relation(a: &Value, b: &Value) -> Relation {
    match encode_key(&[a.clone()]).cmp(&encode_key(&[b.clone()])) {
        std::cmp::Ordering::Less => Relation::Less,
        std::cmp::Ordering::Equal => Relation::Equal,
        std::cmp::Ordering::Greater => Relation::Greater,
    }
}

fn relations(def: &TableDef, row: &Vec<Value>) -> Vec<Relation> {
    comparisons_of(def, row)
        .iter()
        .map(|pair| match pair {
            Some((a, b)) => relation(a, b),
            None => Relation::Equal,
        })
        .collect()
}

fn json_verdict(bytes: &[u8]) -> Option<TypeError> {
    match decode_doc(bytes, &DecodeLimits::default()) {
        Ok(_) => None,
        Err(_) => Some(TypeError { category: ErrorCategory::Validation, text: "type".to_string() }),
    }
}

fn verdicts<'a>(cells: impl Iterator<Item = &'a Value>) -> Vec<Option<TypeError>> {
    cells
        .map(|v| match v {
            Value::Json(b) => json_verdict(b),
            _ => None,
        })
        .collect()
}

fn default_verdicts(def: &TableDef) -> Vec<Option<TypeError>> {
    def.json_defaults()
        .iter()
        .map(|d| d.as_ref().and_then(|b| json_verdict(b)))
        .collect()
}

fn literals(def: &TableDef) -> Vec<Encoded> {
    table_literals(def)
        .iter()
        .map(|v| Ok(encode_row(&[v.clone()])))
        .collect()
}

// --- the database ----------------------------------------------------------------

/// Tables over trees over pages, with copy-on-write snapshots.
struct Catalog {
    pager: RefCell<Mem>,
    root: Slot<PageId>,
    now: Slot<i64>,
    uuids: Slot<u64>,
    pending: RefCell<Vec<PageId>>,
    pins: Slot<usize>,
}

/// One table as a transaction finds it.
struct Opened {
    def: TableDef,
    data: PageId,
    indexes: Vec<PageId>,
}

type Rows = Vec<(Vec<u8>, Vec<u8>)>;

/// The encoded keys of a table's catalog entries.
fn table_keys(def: &TableDef) -> TableKeys {
    TableKeys {
        table: encode_key(&tbl_key(&def.name)),
        root: encode_key(&root_key(&def.name)),
        seq: encode_key(&seq_key(&def.name)),
        indexes: def.indexes.iter().map(|i| encode_key(&iroot_key(&def.name, &i.name))).collect(),
    }
}

impl Catalog {
    fn create() -> Catalog {
        let mut pager = Pager::create(MemoryBackend::new()).unwrap();
        let root = BTree::new(&mut pager).create().unwrap();
        pager.set_catalog_root(Some(root));
        pager.commit().unwrap();
        Catalog::over(pager, root)
    }

    fn over(pager: Mem, root: PageId) -> Catalog {
        Catalog {
            pager: RefCell::new(pager),
            root: Slot::new(root),
            now: Slot::new(1_700_000_000_000_000),
            uuids: Slot::new(1),
            pending: RefCell::new(Vec::new()),
            pins: Slot::new(0),
        }
    }

    /// Close the file and open it again.
    fn reopen(self) -> Catalog {
        let pager = Pager::open(self.pager.into_inner().into_backend()).unwrap();
        let root = pager.catalog_root().unwrap();
        Catalog::over(pager, root)
    }

    // reads

    fn lookup(&self, root: PageId, key: &[u8]) -> Option<Vec<u8>> {
        BTree::new(&mut self.pager.borrow_mut()).lookup(root, key).unwrap()
    }

    fn range(&self, root: PageId, lo: Option<&[u8]>, hi: Option<&[u8]>) -> Rows {
        BTree::new(&mut self.pager.borrow_mut())
            .range(root, lo, hi)
            .unwrap()
            .collect_all()
            .unwrap()
    }

    fn decode(&self, table: &str, entry: &Option<Vec<u8>>) -> Result<TableDef, CatalogError> {
        let mut known: Vec<Option<Value>> = Vec::new();
        loop {
            match load_table(table, entry, &known)? {
                Decoded::Table(def) => return Ok(def),
                Decoded::Literal(bytes) => {
                    known.push(decode_row(&bytes).ok().and_then(|mut row| row.pop()));
                }
            }
        }
    }

    fn table_at(&self, cat: PageId, table: &str) -> Result<TableDef, CatalogError> {
        let entry = self.lookup(cat, &encode_key(&tbl_key(table)));
        self.decode(table, &entry)
    }

    fn tables_at(&self, cat: PageId) -> Vec<TableDef> {
        let lo = encode_key(&tbl_band());
        let hi = band_end(&lo);
        self.range(cat, Some(&lo), Some(&hi))
            .into_iter()
            .map(|(_, bytes)| self.decode("", &Some(bytes)).unwrap())
            .collect()
    }

    fn open_at(&self, cat: PageId, table: &str) -> Result<Opened, CatalogError> {
        let def = self.table_at(cat, table)?;
        let keys = table_keys(&def);
        let Roots { data, indexes } =
            load_roots(&mut self.pager.borrow_mut(), cat, &keys)?;
        Ok(Opened { def, data, indexes })
    }

    fn stored(&self, def: &TableDef, data: PageId) -> Result<Vec<StoredRow>, CatalogError> {
        let stored = self
            .range(data, None, None)
            .into_iter()
            .map(|(pk_key, bytes)| DecodedRow { pk_key, row: decode_row(&bytes) })
            .collect();
        read::scan(def, stored)
    }

    /// All tables and their rows.
    fn world(&self) -> (Vec<TableDef>, Vec<Vec<StoredRow>>) {
        let cat = self.root.get();
        let tables = self.tables_at(cat);
        let contents = tables
            .iter()
            .map(|def| {
                let opened = self.open_at(cat, &def.name).unwrap();
                self.stored(&opened.def, opened.data).unwrap()
            })
            .collect();
        (tables, contents)
    }

    fn parent_has(&self, def: &TableDef, fk: &ForeignKey, vals: &[Value]) -> bool {
        let parent = self.open_at(self.root.get(), &fk.parent).unwrap();
        assert!(fk.parent != def.name || parent.def.name == def.name);
        let roots = Roots { data: parent.data, indexes: parent.indexes };
        let key = Ok(encode_key(vals));
        parent_has(&mut self.pager.borrow_mut(), &parent.def, &roots, fk, &key).unwrap()
    }

    // writes

    fn begin(&self) {
        if self.pins.get() == 0 {
            for id in self.pending.borrow_mut().drain(..) {
                self.pager.borrow_mut().free(id).unwrap();
            }
        }
    }

    /// The trees of a table, beside the catalog tree.
    fn site(&self, opened: &Opened) -> Site {
        let roots = Roots { data: opened.data, indexes: opened.indexes.clone() };
        Site { catalog: self.root.get(), roots }
    }

    /// Publish a new catalog tree.
    fn settle(&self, catalog: PageId, freed: Vec<PageId>) {
        self.pending.borrow_mut().extend(freed);
        self.root.set(catalog);
        self.commit();
    }

    fn commit(&self) {
        let mut pager = self.pager.borrow_mut();
        pager.set_catalog_root(Some(self.root.get()));
        pager.commit().unwrap();
    }

    fn apply(&self, opened: &Opened, batch: &Batch, seq: Option<i64>) -> u64 {
        let plan = batch.plan();
        let touched = batch.touched(opened.indexes.len());
        let keys = table_keys(&opened.def);
        let before = self.site(opened);
        let done =
            write_rows(&mut self.pager.borrow_mut(), &before, &plan, &keys, &touched, seq)
                .unwrap();
        for (i, touched) in touched.iter().enumerate() {
            if !touched {
                assert_eq!(done.site.roots.indexes[i], opened.indexes[i]);
            }
        }
        self.settle(done.site.catalog, done.freed);
        plan.base.len() as u64
    }

    fn keyed(&self, def: &TableDef, row: &Vec<Value>) -> Keyed {
        Keyed {
            row: row.clone(),
            keys: def
                .indexes
                .iter()
                .map(|idx| Ok(encode_key(&index_cols(def, idx, row))))
                .collect(),
        }
    }

    /// Whether a row's primary key is taken, and which of its index keys are.
    fn probed(&self, opened: &Opened, pk_key: &[u8], row: &Vec<Value>) -> (bool, Vec<bool>) {
        let roots = Roots { data: opened.data, indexes: opened.indexes.clone() };
        let keyed = self.keyed(&opened.def, row);
        probe_row(&mut self.pager.borrow_mut(), &roots, pk_key, &keyed).unwrap()
    }

    fn create_table(&self, def: TableDef) -> Result<(), CatalogError> {
        self.begin();
        let cat = self.root.get();
        let parents: Vec<Option<TableDef>> = def
            .foreign_keys
            .iter()
            .map(|fk| self.table_at(cat, &fk.parent).ok())
            .collect();
        let key = encode_key(&tbl_key(&def.name));
        let exists = self.lookup(cat, &key).is_some();
        let json = default_verdicts(&def);
        let lits = literals(&def);
        let ready = ddl::create_table(def, &json, &parents, &Ok(key), exists, &lits)?;
        let keys = table_keys(&ready.def);
        let sequence = has_sequence(&ready.def);
        let done =
            plant_table(&mut self.pager.borrow_mut(), cat, &keys, &ready.bytes, sequence)?;
        self.settle(done.site.catalog, done.freed);
        Ok(())
    }

    fn drop_table(&self, table: &str) -> Result<(), CatalogError> {
        self.begin();
        let cat = self.root.get();
        let opened = self.open_at(cat, table)?;
        check_drop(table, &self.tables_at(cat))?;
        let keys = table_keys(&opened.def);
        let lo = encode_key(&iroot_band(table));
        assert_eq!(self.range(cat, Some(&lo), Some(&band_end(&lo))).len(), keys.indexes.len());
        let done = fell_table(&mut self.pager.borrow_mut(), &self.site(&opened), &keys)?;
        self.settle(done.new_root, done.freed);
        Ok(())
    }

    fn backfill(
        &self,
        def: &TableDef,
        opened: &Opened,
        idx: &IndexDef,
    ) -> Result<IndexFill, CatalogError> {
        let rows = self.stored(def, opened.data)?;
        let keys = rows
            .iter()
            .map(|r| Ok(encode_key(&index_cols(def, idx, &r.row))))
            .collect();
        let entries = compute_backfill(def, idx, &rows, &keys)?;
        Ok(IndexFill { key: encode_key(&iroot_key(&def.name, &idx.name)), entries })
    }

    fn plant(
        &self,
        opened: &Opened,
        bytes: &Vec<u8>,
        fills: &Vec<IndexFill>,
    ) -> Result<(), CatalogError> {
        let key = encode_key(&tbl_key(&opened.def.name));
        let site = self.site(opened);
        let done = plant_indexes(&mut self.pager.borrow_mut(), &site, &key, bytes, fills)?;
        self.settle(done.site.catalog, done.freed);
        Ok(())
    }

    fn add_column(&self, table: &str, column: ColumnDef) -> Result<(), CatalogError> {
        self.begin();
        let cat = self.root.get();
        let opened = self.open_at(cat, table)?;
        let mut wider = self.table_at(cat, table)?;
        let known = wider.indexes.len();
        wider.columns.push(column.clone());
        let json = default_verdicts(&wider);
        let lits = literals(&wider);
        let def = self.table_at(cat, table)?;
        let ready =
            ddl::add_column(def, column, &json, &Ok(encode_key(&tbl_key(table))), &lits)?;
        let mut fills = Vec::new();
        for idx in &ready.def.indexes[known..] {
            fills.push(self.backfill(&ready.def, &opened, idx)?);
        }
        self.plant(&opened, &ready.bytes, &fills)
    }

    fn create_index(&self, table: &str, index: IndexDef) -> Result<(), CatalogError> {
        self.begin();
        let opened = self.open_at(self.root.get(), table)?;
        let def = self.table_at(self.root.get(), table)?;
        let json = default_verdicts(&def);
        let lits = literals(&def);
        let key = Ok(encode_key(&tbl_key(table)));
        let ready = ddl::create_index(table, def, index.clone(), &json, &key, &lits)?;
        let fill = self.backfill(&ready.def, &opened, &index)?;
        self.plant(&opened, &ready.bytes, &vec![fill])
    }

    fn drop_index(&self, table: &str, index: &str) -> Result<(), CatalogError> {
        self.begin();
        let cat = self.root.get();
        let opened = self.open_at(cat, table)?;
        let def = self.table_at(cat, table)?;
        let lits = literals(&def);
        let key = encode_key(&iroot_key(table, index));
        let root = self.lookup(cat, &key);
        let dropped = ddl::drop_index(table, def, index, &root, &lits)?;
        let at = opened.def.indexes.iter().position(|i| i.name == index).unwrap();
        assert_eq!(opened.indexes[at], dropped.root);
        let tbl = encode_key(&tbl_key(table));
        let site = self.site(&opened);
        let done =
            fell_index(&mut self.pager.borrow_mut(), &site, at, &key, &tbl, &dropped.bytes)?;
        self.settle(done.site.catalog, done.freed);
        Ok(())
    }

    fn insert(&self, table: &str, row: Vec<Cell>) -> Result<Vec<Value>, CatalogError> {
        Ok(self.insert_many(table, vec![row])?.pop().unwrap())
    }

    fn fill(&self) -> Fill {
        self.uuids.set(self.uuids.get() + 1);
        let mut uuid = [0u8; 16];
        uuid[8..].copy_from_slice(&self.uuids.get().to_be_bytes());
        Fill { now: self.now.get(), uuid }
    }

    fn insert_many(
        &self,
        table: &str,
        input: Vec<Vec<Cell>>,
    ) -> Result<Vec<Vec<Value>>, CatalogError> {
        self.begin();
        let opened = self.open_at(self.root.get(), table)?;
        let def = &opened.def;
        let entry = self.lookup(self.root.get(), &encode_key(&seq_key(table)));
        let mut seq = if has_sequence(def) { load_seq(&entry)? } else { 0 };
        let before = seq;
        let mut rows = Vec::new();
        let mut fresh = Vec::new();
        let mut stopped = None;
        for provided in input {
            let fills: Vec<Fill> = def.columns.iter().map(|_| self.fill()).collect();
            let row = match build_row(def, provided, &mut seq, &fills) {
                Ok(row) => row,
                Err(e) => {
                    stopped = Some(e);
                    break;
                }
            };
            let pk_key = encode_key(&pk_values(def, &row));
            let probes = def
                .foreign_keys
                .iter()
                .map(|fk| match fk_values(def, fk, &row) {
                    Some(vals) => Probe {
                        key: Ok(encode_key(&vals)),
                        found: self.parent_has(def, fk, &vals),
                    },
                    None => Probe { key: Ok(vec![]), found: false },
                })
                .collect();
            let (pk_taken, taken) = self.probed(&opened, &pk_key, &row);
            fresh.push(Fresh {
                json: verdicts(row.iter()),
                relations: relations(def, &row),
                probes,
                pk_error: None,
                pk_taken,
                m: Move {
                    pk_key,
                    old: None,
                    new: Some(self.keyed(def, &row)),
                    taken,
                    bytes: Ok(encode_row(&row)),
                },
            });
            rows.push(row);
        }
        let batch = job::insert(table, def, &fresh, stopped)?;
        let moved = if seq != before { Some(seq) } else { None };
        self.apply(&opened, &batch, moved);
        Ok(rows)
    }

    fn changed(&self, opened: &Opened, pk_key: Vec<u8>, old: &Vec<Value>, new: &Vec<Value>) -> Changed {
        let def = &opened.def;
        let (_, taken) = self.probed(opened, &pk_key, new);
        Changed {
            relations: relations(def, new),
            found: def
                .foreign_keys
                .iter()
                .map(|fk| match fk_values(def, fk, new) {
                    Some(vals) => self.parent_has(def, fk, &vals),
                    None => false,
                })
                .collect(),
            m: Move {
                pk_key,
                old: Some(self.keyed(def, old)),
                new: Some(self.keyed(def, new)),
                taken,
                bytes: Ok(encode_row(new)),
            },
        }
    }

    fn transform(&self, table: &str, def: &TableDef, old: &Vec<Value>, sets: Vec<Cell>) -> Result<Vec<Value>, CatalogError> {
        let json = verdicts(sets.iter().map(|(_, v)| v));
        transform_row(table, def, old, sets, &json, self.now.get())
    }

    fn update(&self, table: &str, pk: Vec<Value>, sets: Vec<Cell>) -> Result<Vec<Value>, CatalogError> {
        self.begin();
        let opened = self.open_at(self.root.get(), table)?;
        let def = &opened.def;
        check_pk(table, def, &pk, &verdicts(pk.iter()))?;
        let pk_key = encode_key(&pk);
        let bytes = match self.lookup(opened.data, &pk_key) {
            Some(bytes) => bytes,
            None => return Err(CatalogError::RowNotFound { table: table.to_string() }),
        };
        let old = decode_padded(def, decode_row(&bytes))?;
        let new = self.transform(table, def, &old, sets)?;
        let change = self.changed(&opened, pk_key, &old, &new);
        let (tables, contents) = self.world();
        let batch = job::update(table, def, &change, &tables, &contents)?;
        self.apply(&opened, &batch, None);
        Ok(new)
    }

    fn delete(&self, table: &str, pk: Vec<Value>) -> Result<bool, CatalogError> {
        self.begin();
        let opened = self.open_at(self.root.get(), table)?;
        let def = &opened.def;
        check_pk(table, def, &pk, &verdicts(pk.iter()))?;
        let pk_key = encode_key(&pk);
        let bytes = match self.lookup(opened.data, &pk_key) {
            Some(bytes) => bytes,
            None => return Ok(false),
        };
        let row = decode_padded(def, decode_row(&bytes))?;
        let doomed = Doomed { pk_key, row: self.keyed(def, &row) };
        let (tables, contents) = self.world();
        let batch = job::delete(table, def, doomed, &tables, &contents)?;
        self.apply(&opened, &batch, None);
        Ok(true)
    }

    fn update_where<U: RowUpdater>(&self, table: &str, policy: &U) -> Result<u64, CatalogError> {
        self.begin();
        let opened = self.open_at(self.root.get(), table)?;
        let stored = self.stored(&opened.def, opened.data)?;
        let (found, mut stopped) = proposals(policy, &opened.def, &stored);
        let mut rows = Vec::new();
        for p in found {
            let r = &stored[p.at];
            match self.transform(table, &opened.def, &r.row, p.sets) {
                Ok(new) => rows.push(self.changed(&opened, r.pk_key.clone(), &r.row, &new)),
                Err(e) => {
                    stopped = Some(e);
                    break;
                }
            }
        }
        let (tables, contents) = self.world();
        let batch = job::update_where(table, &opened.def, &rows, &tables, &contents, stopped)?;
        if rows.is_empty() {
            return Ok(0);
        }
        Ok(self.apply(&opened, &batch, None))
    }

    fn delete_where<F: RowFilter>(&self, table: &str, filter: &F) -> Result<u64, CatalogError> {
        self.begin();
        let opened = self.open_at(self.root.get(), table)?;
        let stored = self.stored(&opened.def, opened.data)?;
        let (found, stopped) = selected(filter, &opened.def, &stored);
        let rows: Vec<Doomed> = found
            .into_iter()
            .map(|at| Doomed {
                pk_key: stored[at].pk_key.clone(),
                row: self.keyed(&opened.def, &stored[at].row),
            })
            .collect();
        let (tables, contents) = self.world();
        let batch = job::delete_where(table, &opened.def, &rows, &tables, &contents, stopped)?;
        if rows.is_empty() {
            return Ok(0);
        }
        Ok(self.apply(&opened, &batch, None))
    }

    /// Whether all trees are sound, with no page in common.
    fn is_sound(&self) -> bool {
        let mut roots = vec![self.root.get()];
        for def in self.tables_at(self.root.get()) {
            let opened = self.open_at(self.root.get(), &def.name).unwrap();
            roots.push(opened.data);
            roots.extend(opened.indexes);
        }
        can_change(&mut self.pager.borrow_mut(), &roots).unwrap()
    }

    fn validate(&self) -> Result<PagerStats, PagerError> {
        assert!(self.is_sound());
        self.pager.borrow_mut().validate()
    }

    fn snapshot(&self) -> CatSnapshot<'_> {
        self.pins.set(self.pins.get() + 1);
        CatSnapshot { cat: self, root: self.root.get(), txn: self.pager.borrow().txn_id() }
    }
}

/// One committed version, pinned.
struct CatSnapshot<'c> {
    cat: &'c Catalog,
    root: PageId,
    txn: u64,
}

impl Drop for CatSnapshot<'_> {
    fn drop(&mut self) {
        self.cat.pins.set(self.cat.pins.get() - 1);
    }
}

impl CatSnapshot<'_> {
    fn txn_id(&self) -> u64 {
        self.txn
    }

    fn tables(&self) -> Result<Vec<String>, CatalogError> {
        Ok(self.cat.tables_at(self.root).into_iter().map(|d| d.name).collect())
    }

    fn table(&self, table: &str) -> Result<TableDef, CatalogError> {
        self.cat.table_at(self.root, table)
    }

    fn get(&self, table: &str, pk: &[Value]) -> Result<Option<Vec<Value>>, CatalogError> {
        let opened = self.cat.open_at(self.root, table)?;
        let found = self.cat.lookup(opened.data, &encode_key(pk));
        read::get(&opened.def, found.map(|bytes| decode_row(&bytes)))
    }

    fn scan(&self, table: &str) -> Result<Vec<Vec<Value>>, CatalogError> {
        let opened = self.cat.open_at(self.root, table)?;
        Ok(self.cat.stored(&opened.def, opened.data)?.into_iter().map(|r| r.row).collect())
    }

    fn validate_tree(&self, root: PageId) {
        BTree::new(&mut self.cat.pager.borrow_mut()).validate(root).unwrap();
    }

    /// Every tree is structurally valid, and every index matches its base table.
    fn validate(&self) -> Result<(), CatalogError> {
        self.validate_tree(self.root);
        for table in self.tables()? {
            let opened = self.cat.open_at(self.root, &table)?;
            self.validate_tree(opened.data);
            let rows = self.cat.stored(&opened.def, opened.data)?;
            for (i, idx) in opened.def.indexes.iter().enumerate() {
                self.validate_tree(opened.indexes[i]);
                let keys: Vec<Encoded> = rows
                    .iter()
                    .map(|r| Ok(encode_key(&index_cols(&opened.def, idx, &r.row))))
                    .collect();
                let actual: Vec<Entry> = self
                    .cat
                    .range(opened.indexes[i], None, None)
                    .into_iter()
                    .map(|(key, value)| Entry { key, value })
                    .collect();
                check_index(&opened.def, idx, &rows, &keys, &actual)?;
            }
        }
        Ok(())
    }
}

fn text(s: &str) -> Value {
    Value::Text(s.to_string())
}

// --- schema ---------------------------------------------------------------------

/// An `accounts` table with one column of every engine-managed kind.
fn accounts() -> TableDef {
    TableDef::new(
        "accounts",
        vec![
            ColumnDef::new("id", TypeKind::Uuid).default_uuid_v7(),
            ColumnDef::new("balance", TypeKind::I64)
                .not_null()
                .guarded(),
            ColumnDef::new("version", TypeKind::I64).rowversion(),
            ColumnDef::new("created_at", TypeKind::Timestamp).default_now(),
            ColumnDef::new("updated_at", TypeKind::Timestamp).on_update_now(),
        ],
        vec!["id"],
    )
    .check(CheckExpr::Cmp {
        col: "balance".into(),
        op: CmpOp::Gte,
        value: Value::I64(0),
    })
}

#[test]
fn definitions_survive_reopen_exactly() {
    let cat = Catalog::create();
    cat.create_table(accounts()).unwrap();
    cat.create_table(TableDef::new(
        "users",
        vec![
            ColumnDef::new("id", TypeKind::I64).auto_increment(),
            ColumnDef::new("first_name", TypeKind::Text),
            ColumnDef::new("data", TypeKind::Json),
        ],
        vec!["id"],
    ))
    .unwrap();
    let cat = cat.reopen();
    let snap = cat.snapshot();
    assert_eq!(snap.tables().unwrap(), vec!["accounts", "users"]);

    // Byte-for-byte definition round-trip, including policy and checks.
    let def = snap.table("accounts").unwrap();
    assert_eq!(def, accounts());
    let balance = &def.columns[def.col_index("balance").unwrap()];
    assert_eq!(balance.update, UpdatePolicy::Guarded);
    assert!(!balance.nullable);
    assert_eq!(def.checks.len(), 1);

    let users = snap.table("users").unwrap();
    assert!(users.columns[0].auto_increment);
    assert_eq!(users.columns[2].kind, TypeKind::Json);
}

#[test]
fn invalid_definitions_are_rejected() {
    let cat = Catalog::create();
    let id = || ColumnDef::new("id", TypeKind::I64);

    // No PK.
    let no_pk = TableDef::new("t", vec![id()], Vec::<&str>::new());
    assert!(matches!(
        cat.create_table(no_pk),
        Err(CatalogError::InvalidSchema { .. })
    ));
    // Duplicate column.
    let dup = TableDef::new("t", vec![id(), id()], vec!["id"]);
    assert!(matches!(
        cat.create_table(dup),
        Err(CatalogError::InvalidSchema { .. })
    ));
    // PK over a missing column.
    let ghost = TableDef::new("t", vec![id()], vec!["nope"]);
    assert!(matches!(
        cat.create_table(ghost),
        Err(CatalogError::UnknownColumn { .. })
    ));
    // auto_increment on a non-i64 column.
    let bad_auto = TableDef::new(
        "t",
        vec![ColumnDef::new("id", TypeKind::Text).auto_increment()],
        vec!["id"],
    );
    assert!(matches!(
        cat.create_table(bad_auto),
        Err(CatalogError::InvalidSchema { .. })
    ));
    // json as a key.
    let json_pk = TableDef::new("t", vec![ColumnDef::new("id", TypeKind::Json)], vec!["id"]);
    assert!(matches!(
        cat.create_table(json_pk),
        Err(CatalogError::InvalidSchema { .. })
    ));
    // Check literal of the wrong kind.
    let bad_check = TableDef::new("t", vec![id()], vec!["id"]).check(CheckExpr::Cmp {
        col: "id".into(),
        op: CmpOp::Gt,
        value: Value::Text("zero".into()),
    });
    assert!(matches!(
        cat.create_table(bad_check),
        Err(CatalogError::InvalidSchema { .. })
    ));
    // Duplicate create.
    cat.create_table(TableDef::new("t", vec![id()], vec!["id"]))
        .unwrap();
    assert!(matches!(
        cat.create_table(TableDef::new("t", vec![id()], vec!["id"])),
        Err(CatalogError::TableExists { .. })
    ));
}

#[test]
fn drop_table_removes_it_and_frees_its_pages() {
    let cat = Catalog::create();
    cat.create_table(TableDef::new(
        "big",
        vec![
            ColumnDef::new("id", TypeKind::I64),
            ColumnDef::new("payload", TypeKind::Blob),
        ],
        vec!["id"],
    ))
    .unwrap();
    for i in 0..200i64 {
        cat.insert(
            "big",
            vec![
                ("id".into(), Value::I64(i)),
                ("payload".into(), Value::Blob(vec![0xAB; 200])),
            ],
        )
        .unwrap();
    }
    let before = cat.validate().unwrap();

    cat.drop_table("big").unwrap();
    assert!(matches!(
        cat.snapshot().table("big"),
        Err(CatalogError::UnknownTable { .. })
    ));
    assert!(matches!(
        cat.drop_table("big"),
        Err(CatalogError::UnknownTable { .. })
    ));

    // The table's pages return to the free list (no snapshots pinned them);
    // the next write triggers reclamation.
    cat.create_table(TableDef::new(
        "tiny",
        vec![ColumnDef::new("id", TypeKind::I64)],
        vec!["id"],
    ))
    .unwrap();
    let after = cat.validate().unwrap();
    assert!(
        after.free_ids > before.free_ids + 10,
        "dropping a 200-row table should free many pages \
         (before: {}, after: {})",
        before.free_ids,
        after.free_ids
    );

    // Still gone after reopen.
    let cat = cat.reopen();
    assert_eq!(cat.snapshot().tables().unwrap(), vec!["tiny"]);
}

#[test]
fn add_column_pads_existing_rows() {
    let cat = Catalog::create();
    cat.create_table(TableDef::new(
        "t",
        vec![ColumnDef::new("id", TypeKind::I64)],
        vec!["id"],
    ))
    .unwrap();
    cat.insert("t", vec![("id".into(), Value::I64(1))]).unwrap();

    // A NOT NULL column without a constant default cannot be added.
    assert!(matches!(
        cat.add_column("t", ColumnDef::new("strict", TypeKind::Text).not_null()),
        Err(CatalogError::InvalidSchema { .. })
    ));
    // Nullable and constant-default columns can.
    cat.add_column("t", ColumnDef::new("note", TypeKind::Text))
        .unwrap();
    cat.add_column(
        "t",
        ColumnDef::new("score", TypeKind::I64)
            .not_null()
            .default_value(Value::I64(100)),
    )
    .unwrap();

    // The old row reads padded: NULL for `note`, the default for `score`.
    let row = cat.snapshot().get("t", &[Value::I64(1)]).unwrap().unwrap();
    assert_eq!(row, vec![Value::I64(1), Value::Null, Value::I64(100)]);

    // New rows carry all columns; everything survives reopen.
    cat.insert(
        "t",
        vec![
            ("id".into(), Value::I64(2)),
            ("note".into(), Value::Text("hi".into())),
        ],
    )
    .unwrap();
    let cat = cat.reopen();
    let rows = cat.snapshot().scan("t").unwrap();
    assert_eq!(
        rows,
        vec![
            vec![Value::I64(1), Value::Null, Value::I64(100)],
            vec![Value::I64(2), Value::Text("hi".into()), Value::I64(100)],
        ]
    );

    // A duplicate column name is rejected.
    assert!(matches!(
        cat.add_column("t", ColumnDef::new("note", TypeKind::I64)),
        Err(CatalogError::InvalidSchema { .. })
    ));
}

#[test]
fn default_specs_round_trip() {
    let cat = Catalog::create();
    cat.create_table(TableDef::new(
        "d",
        vec![
            ColumnDef::new("id", TypeKind::I64),
            ColumnDef::new("flag", TypeKind::Bool).default_value(Value::Bool(true)),
            ColumnDef::new("uid", TypeKind::Uuid).default_uuid_v7(),
            ColumnDef::new("at", TypeKind::Timestamp).default_now(),
        ],
        vec!["id"],
    ))
    .unwrap();
    let def = cat.snapshot().table("d").unwrap();
    assert_eq!(
        def.columns[1].default,
        Some(DefaultSpec::Value(Value::Bool(true)))
    );
    assert_eq!(def.columns[2].default, Some(DefaultSpec::UuidV7));
    assert_eq!(def.columns[3].default, Some(DefaultSpec::Now));
}

// --- constraints ------------------------------------------------------------------

/// One table exercising every constraint kind.
fn strict_table() -> TableDef {
    TableDef::new(
        "rows",
        vec![
            ColumnDef::new("id", TypeKind::I64),
            ColumnDef::new("email", TypeKind::Text).unique(),
            ColumnDef::new("name", TypeKind::Text).not_null(),
            ColumnDef::new("age", TypeKind::I64),
            ColumnDef::new("doc", TypeKind::Json),
        ],
        vec!["id"],
    )
    .check(CheckExpr::Cmp {
        col: "age".into(),
        op: CmpOp::Gte,
        value: Value::I64(0),
    })
}

fn row(pairs: &[(&str, Value)]) -> Vec<(String, Value)> {
    pairs
        .iter()
        .map(|(k, v)| (k.to_string(), v.clone()))
        .collect()
}

fn base_row(id: i64) -> Vec<(String, Value)> {
    row(&[
        ("id", Value::I64(id)),
        ("email", Value::Text(format!("u{id}@x"))),
        ("name", Value::Text("ada".into())),
        ("age", Value::I64(30)),
    ])
}

#[test]
fn every_constraint_rejects_its_violation() {
    let cat = Catalog::create();
    cat.create_table(strict_table()).unwrap();
    cat.insert("rows", base_row(1)).unwrap();

    // PRIMARY KEY: duplicate key.
    assert!(matches!(
        cat.insert("rows", base_row(1)),
        Err(CatalogError::DuplicateKey { .. })
    ));
    // PRIMARY KEY: implied NOT NULL (omitted PK without default).
    let mut no_id = base_row(2);
    no_id.retain(|(k, _)| k != "id");
    assert!(matches!(
        cat.insert("rows", no_id),
        Err(CatalogError::NotNull { .. })
    ));
    // NOT NULL: explicit null.
    let mut null_name = base_row(2);
    null_name.iter_mut().for_each(|(k, v)| {
        if k == "name" {
            *v = Value::Null;
        }
    });
    assert!(matches!(
        cat.insert("rows", null_name),
        Err(CatalogError::NotNull { .. })
    ));
    // NOT NULL: omitted without default.
    let mut no_name = base_row(2);
    no_name.retain(|(k, _)| k != "name");
    assert!(matches!(
        cat.insert("rows", no_name),
        Err(CatalogError::NotNull { .. })
    ));
    // UNIQUE: same email as row 1.
    let mut dup_email = base_row(2);
    dup_email.iter_mut().for_each(|(k, v)| {
        if k == "email" {
            *v = Value::Text("u1@x".into());
        }
    });
    assert!(matches!(
        cat.insert("rows", dup_email),
        Err(CatalogError::UniqueViolation { .. })
    ));
    // CHECK: negative age.
    let mut negative = base_row(2);
    negative.iter_mut().for_each(|(k, v)| {
        if k == "age" {
            *v = Value::I64(-1);
        }
    });
    assert!(matches!(
        cat.insert("rows", negative),
        Err(CatalogError::CheckViolation { .. })
    ));
    // Strict typing: text into an i64 column.
    let mut mistyped = base_row(2);
    mistyped.iter_mut().for_each(|(k, v)| {
        if k == "age" {
            *v = Value::Text("thirty".into());
        }
    });
    assert!(matches!(
        cat.insert("rows", mistyped),
        Err(e @ CatalogError::TypeMismatch { .. }) if e.category() == ErrorCategory::Validation
    ));
    // Unknown column.
    let mut unknown = base_row(2);
    unknown.push(("ghost".into(), Value::I64(1)));
    assert!(matches!(
        cat.insert("rows", unknown),
        Err(CatalogError::UnknownColumn { .. })
    ));
    // Column provided twice.
    let mut twice = base_row(2);
    twice.push(("age".into(), Value::I64(31)));
    assert!(matches!(
        cat.insert("rows", twice),
        Err(CatalogError::DuplicateColumn { .. })
    ));
    // Malformed json document.
    let mut bad_doc = base_row(2);
    bad_doc.push(("doc".into(), Value::Json(vec![0xC1])));
    assert!(matches!(
        cat.insert("rows", bad_doc),
        Err(CatalogError::Type(_))
    ));

    // After all those rejections, exactly the one good row remains.
    assert_eq!(cat.snapshot().scan("rows").unwrap().len(), 1);
}

#[test]
fn check_follows_three_valued_logic() {
    let cat = Catalog::create();
    cat.create_table(strict_table()).unwrap();

    // age NULL → the check is unknown → passes (SQL semantics).
    let mut null_age = base_row(5);
    null_age.iter_mut().for_each(|(k, v)| {
        if k == "age" {
            *v = Value::Null;
        }
    });
    cat.insert("rows", null_age).unwrap();
    assert_eq!(
        cat.snapshot()
            .get("rows", &[Value::I64(5)])
            .unwrap()
            .unwrap()[3],
        Value::Null
    );
}

#[test]
fn unique_allows_multiple_nulls() {
    let cat = Catalog::create();
    cat.create_table(strict_table()).unwrap();
    for id in 1..=3 {
        let mut r = base_row(id);
        r.iter_mut().for_each(|(k, v)| {
            if k == "email" {
                *v = Value::Null;
            }
        });
        cat.insert("rows", r).unwrap();
    }
    assert_eq!(cat.snapshot().scan("rows").unwrap().len(), 3);
}

#[test]
fn multi_row_insert_is_atomic() {
    let cat = Catalog::create();
    cat.create_table(strict_table()).unwrap();

    // Third row violates the check; rows one and two must not survive.
    let mut bad = base_row(3);
    bad.iter_mut().for_each(|(k, v)| {
        if k == "age" {
            *v = Value::I64(-7);
        }
    });
    let result = cat.insert_many("rows", vec![base_row(1), base_row(2), bad]);
    assert!(matches!(result, Err(CatalogError::CheckViolation { .. })));
    assert_eq!(
        cat.snapshot().scan("rows").unwrap().len(),
        0,
        "partial insert leaked"
    );

    // In-batch duplicates (PK and UNIQUE) are caught against staged rows too.
    let result = cat.insert_many("rows", vec![base_row(1), base_row(1)]);
    assert!(matches!(result, Err(CatalogError::DuplicateKey { .. })));
    let mut same_email = base_row(2);
    same_email.iter_mut().for_each(|(k, v)| {
        if k == "email" {
            *v = Value::Text("u1@x".into());
        }
    });
    let result = cat.insert_many("rows", vec![base_row(1), same_email]);
    assert!(matches!(result, Err(CatalogError::UniqueViolation { .. })));
    assert_eq!(cat.snapshot().scan("rows").unwrap().len(), 0);

    // A valid batch lands whole.
    cat.insert_many("rows", vec![base_row(1), base_row(2), base_row(3)])
        .unwrap();
    assert_eq!(cat.snapshot().scan("rows").unwrap().len(), 3);
}

#[test]
fn updates_enforce_constraints_too() {
    let cat = Catalog::create();
    cat.create_table(strict_table()).unwrap();
    cat.insert("rows", base_row(1)).unwrap();
    cat.insert("rows", base_row(2)).unwrap();

    let pk = vec![Value::I64(2)];
    // CHECK on the updated row.
    assert!(matches!(
        cat.update("rows", pk.clone(), row(&[("age", Value::I64(-3))])),
        Err(CatalogError::CheckViolation { .. })
    ));
    // NOT NULL.
    assert!(matches!(
        cat.update("rows", pk.clone(), row(&[("name", Value::Null)])),
        Err(CatalogError::NotNull { .. })
    ));
    // UNIQUE against the other row.
    assert!(matches!(
        cat.update(
            "rows",
            pk.clone(),
            row(&[("email", Value::Text("u1@x".into()))])
        ),
        Err(CatalogError::UniqueViolation { .. })
    ));
    // Setting a unique column to its own current value is fine (self excluded).
    cat.update(
        "rows",
        pk.clone(),
        row(&[("email", Value::Text("u2@x".into()))]),
    )
    .unwrap();
    // Type mismatch.
    assert!(matches!(
        cat.update("rows", pk.clone(), row(&[("age", Value::Bool(true))])),
        Err(CatalogError::TypeMismatch { .. })
    ));
    // PK columns are immutable.
    assert!(matches!(
        cat.update("rows", pk.clone(), row(&[("id", Value::I64(9))])),
        Err(CatalogError::PkImmutable { .. })
    ));
    // Updating a missing row is NotFound.
    assert!(matches!(
        cat.update("rows", vec![Value::I64(99)], row(&[("age", Value::I64(1))])),
        Err(CatalogError::RowNotFound { .. })
    ));
    // A successful update lands.
    let updated = cat
        .update("rows", pk, row(&[("age", Value::I64(31))]))
        .unwrap();
    assert_eq!(updated[3], Value::I64(31));
}

#[test]
fn delete_by_pk() {
    let cat = Catalog::create();
    cat.create_table(strict_table()).unwrap();
    cat.insert("rows", base_row(1)).unwrap();

    assert!(cat.delete("rows", vec![Value::I64(1)]).unwrap());
    assert!(!cat.delete("rows", vec![Value::I64(1)]).unwrap());
    assert_eq!(cat.snapshot().scan("rows").unwrap().len(), 0);
}

// --- foreign keys -----------------------------------------------------------------

fn users() -> TableDef {
    TableDef::new(
        "users",
        vec![
            ColumnDef::new("id", TypeKind::I64),
            ColumnDef::new("name", TypeKind::Text).not_null(),
        ],
        vec!["id"],
    )
}

/// `posts.author` → `users.id`, nullable so MATCH SIMPLE is exercisable.
fn posts() -> TableDef {
    TableDef::new(
        "posts",
        vec![
            ColumnDef::new("id", TypeKind::I64),
            ColumnDef::new("author", TypeKind::I64),
        ],
        vec!["id"],
    )
    .foreign_key(ForeignKey::new(
        "fk_author",
        vec!["author"],
        "users",
        vec!["id"],
    ))
}

// --- DDL validation ----------------------------------------------------------

#[test]
fn fk_to_unknown_table_is_rejected() {
    let cat = Catalog::create();
    let err = cat.create_table(posts()).unwrap_err();
    assert!(matches!(err, CatalogError::InvalidSchema { .. }), "{err:?}");
}

#[test]
fn fk_must_reference_a_key_or_unique_column() {
    let cat = Catalog::create();
    cat.create_table(users()).unwrap();
    // `users.name` is neither the primary key nor unique.
    let bad = TableDef::new(
        "posts",
        vec![
            ColumnDef::new("id", TypeKind::I64),
            ColumnDef::new("who", TypeKind::Text),
        ],
        vec!["id"],
    )
    .foreign_key(ForeignKey::new("fk", vec!["who"], "users", vec!["name"]));
    let err = cat.create_table(bad).unwrap_err();
    assert!(matches!(err, CatalogError::InvalidSchema { .. }), "{err:?}");
}

#[test]
fn fk_column_type_must_match_the_parent() {
    let cat = Catalog::create();
    cat.create_table(users()).unwrap();
    let bad = TableDef::new(
        "posts",
        vec![
            ColumnDef::new("id", TypeKind::I64),
            ColumnDef::new("author", TypeKind::Text), // parent id is i64
        ],
        vec!["id"],
    )
    .foreign_key(ForeignKey::new("fk", vec!["author"], "users", vec!["id"]));
    let err = cat.create_table(bad).unwrap_err();
    assert!(matches!(err, CatalogError::InvalidSchema { .. }), "{err:?}");
}

#[test]
fn cascade_and_set_null_are_not_yet_supported() {
    let cat = Catalog::create();
    cat.create_table(users()).unwrap();
    let cascade = posts().foreign_key(
        ForeignKey::new("fk2", vec!["author"], "users", vec!["id"]).on_delete(RefAction::Cascade),
    );
    let err = cat.create_table(cascade).unwrap_err();
    assert!(matches!(err, CatalogError::InvalidSchema { .. }), "{err:?}");
}

// --- referencing side (child insert / update) --------------------------------

#[test]
fn child_insert_requires_an_existing_parent() {
    let cat = Catalog::create();
    cat.create_table(users()).unwrap();
    cat.create_table(posts()).unwrap();
    cat.insert(
        "users",
        row(&[("id", Value::I64(1)), ("name", Value::Text("ada".into()))]),
    )
    .unwrap();

    // Existing parent → ok.
    cat.insert(
        "posts",
        row(&[("id", Value::I64(10)), ("author", Value::I64(1))]),
    )
    .unwrap();
    // Missing parent → foreign-key violation.
    let err = cat
        .insert(
            "posts",
            row(&[("id", Value::I64(11)), ("author", Value::I64(99))]),
        )
        .unwrap_err();
    assert!(
        matches!(err, CatalogError::ForeignKeyViolation { .. }),
        "{err:?}"
    );
    // NULL referencing column is not checked (MATCH SIMPLE).
    cat.insert(
        "posts",
        row(&[("id", Value::I64(12)), ("author", Value::Null)]),
    )
    .unwrap();
}

#[test]
fn child_update_to_a_missing_parent_is_rejected() {
    let cat = Catalog::create();
    cat.create_table(users()).unwrap();
    cat.create_table(posts()).unwrap();
    cat.insert(
        "users",
        row(&[("id", Value::I64(1)), ("name", Value::Text("ada".into()))]),
    )
    .unwrap();
    cat.insert(
        "posts",
        row(&[("id", Value::I64(10)), ("author", Value::I64(1))]),
    )
    .unwrap();

    let err = cat
        .update(
            "posts",
            vec![Value::I64(10)],
            row(&[("author", Value::I64(42))]),
        )
        .unwrap_err();
    assert!(
        matches!(err, CatalogError::ForeignKeyViolation { .. }),
        "{err:?}"
    );
    // Re-pointing to NULL is allowed.
    cat.update(
        "posts",
        vec![Value::I64(10)],
        row(&[("author", Value::Null)]),
    )
    .unwrap();
}

// --- referenced side (parent delete / drop) ----------------------------------

#[test]
fn parent_delete_is_restricted_while_children_exist() {
    let cat = Catalog::create();
    cat.create_table(users()).unwrap();
    cat.create_table(posts()).unwrap();
    cat.insert(
        "users",
        row(&[("id", Value::I64(1)), ("name", Value::Text("ada".into()))]),
    )
    .unwrap();
    cat.insert(
        "posts",
        row(&[("id", Value::I64(10)), ("author", Value::I64(1))]),
    )
    .unwrap();

    let err = cat.delete("users", vec![Value::I64(1)]).unwrap_err();
    assert!(
        matches!(err, CatalogError::ReferencedByChildren { .. }),
        "{err:?}"
    );

    // Remove the child, then the parent deletes cleanly.
    assert!(cat.delete("posts", vec![Value::I64(10)]).unwrap());
    assert!(cat.delete("users", vec![Value::I64(1)]).unwrap());
}

#[test]
fn dropping_a_referenced_table_is_rejected() {
    let cat = Catalog::create();
    cat.create_table(users()).unwrap();
    cat.create_table(posts()).unwrap();

    let err = cat.drop_table("users").unwrap_err();
    assert!(
        matches!(err, CatalogError::TableReferenced { .. }),
        "{err:?}"
    );

    // Dropping the child first frees the parent to be dropped.
    cat.drop_table("posts").unwrap();
    cat.drop_table("users").unwrap();
}

// --- self-referential --------------------------------------------------------

fn employees() -> TableDef {
    TableDef::new(
        "employees",
        vec![
            ColumnDef::new("id", TypeKind::I64),
            ColumnDef::new("manager", TypeKind::I64),
        ],
        vec!["id"],
    )
    .foreign_key(ForeignKey::new(
        "fk_mgr",
        vec!["manager"],
        "employees",
        vec!["id"],
    ))
}

#[test]
fn self_referential_key_enforces_and_restricts() {
    let cat = Catalog::create();
    cat.create_table(employees()).unwrap();

    cat.insert(
        "employees",
        row(&[("id", Value::I64(1)), ("manager", Value::Null)]),
    )
    .unwrap();
    cat.insert(
        "employees",
        row(&[("id", Value::I64(2)), ("manager", Value::I64(1))]),
    )
    .unwrap();
    // Manager 99 does not exist.
    let err = cat
        .insert(
            "employees",
            row(&[("id", Value::I64(3)), ("manager", Value::I64(99))]),
        )
        .unwrap_err();
    assert!(
        matches!(err, CatalogError::ForeignKeyViolation { .. }),
        "{err:?}"
    );
    // Employee 1 still manages employee 2.
    let err = cat.delete("employees", vec![Value::I64(1)]).unwrap_err();
    assert!(
        matches!(err, CatalogError::ReferencedByChildren { .. }),
        "{err:?}"
    );
    // A leaf deletes cleanly, and does not block its own removal.
    assert!(cat.delete("employees", vec![Value::I64(2)]).unwrap());
    assert!(cat.delete("employees", vec![Value::I64(1)]).unwrap());
}

// --- composite & unique-target -----------------------------------------------

#[test]
fn composite_foreign_key_is_enforced() {
    let cat = Catalog::create();
    cat.create_table(TableDef::new(
        "regions",
        vec![
            ColumnDef::new("country", TypeKind::Text),
            ColumnDef::new("code", TypeKind::I64),
        ],
        vec!["country", "code"],
    ))
    .unwrap();
    cat.create_table(
        TableDef::new(
            "cities",
            vec![
                ColumnDef::new("id", TypeKind::I64),
                ColumnDef::new("country", TypeKind::Text),
                ColumnDef::new("region", TypeKind::I64),
            ],
            vec!["id"],
        )
        .foreign_key(ForeignKey::new(
            "fk_region",
            vec!["country", "region"],
            "regions",
            vec!["country", "code"],
        )),
    )
    .unwrap();

    cat.insert(
        "regions",
        row(&[
            ("country", Value::Text("US".into())),
            ("code", Value::I64(5)),
        ]),
    )
    .unwrap();
    cat.insert(
        "cities",
        row(&[
            ("id", Value::I64(1)),
            ("country", Value::Text("US".into())),
            ("region", Value::I64(5)),
        ]),
    )
    .unwrap();
    // Right country, wrong region code.
    let err = cat
        .insert(
            "cities",
            row(&[
                ("id", Value::I64(2)),
                ("country", Value::Text("US".into())),
                ("region", Value::I64(6)),
            ]),
        )
        .unwrap_err();
    assert!(
        matches!(err, CatalogError::ForeignKeyViolation { .. }),
        "{err:?}"
    );
}

#[test]
fn changing_a_referenced_unique_key_is_restricted() {
    let cat = Catalog::create();
    // Parent keyed by id, but referenced through a UNIQUE `slug`.
    cat.create_table(TableDef::new(
        "tags",
        vec![
            ColumnDef::new("id", TypeKind::I64),
            ColumnDef::new("slug", TypeKind::Text).unique(),
        ],
        vec!["id"],
    ))
    .unwrap();
    cat.create_table(
        TableDef::new(
            "hits",
            vec![
                ColumnDef::new("id", TypeKind::I64),
                ColumnDef::new("slug", TypeKind::Text),
            ],
            vec!["id"],
        )
        .foreign_key(ForeignKey::new(
            "fk_slug",
            vec!["slug"],
            "tags",
            vec!["slug"],
        )),
    )
    .unwrap();

    cat.insert(
        "tags",
        row(&[("id", Value::I64(1)), ("slug", Value::Text("rust".into()))]),
    )
    .unwrap();
    cat.insert(
        "hits",
        row(&[("id", Value::I64(1)), ("slug", Value::Text("rust".into()))]),
    )
    .unwrap();

    // Renaming the referenced slug would orphan the child.
    let err = cat
        .update(
            "tags",
            vec![Value::I64(1)],
            row(&[("slug", Value::Text("rustlang".into()))]),
        )
        .unwrap_err();
    assert!(
        matches!(err, CatalogError::ReferencedByChildren { .. }),
        "{err:?}"
    );
}

// --- persistence -------------------------------------------------------------

#[test]
fn foreign_keys_survive_reopen() {
    let cat = Catalog::create();
    cat.create_table(users()).unwrap();
    cat.create_table(posts()).unwrap();
    let cat = cat.reopen();
    let def = cat.snapshot().table("posts").unwrap();
    assert_eq!(def, posts());
    assert_eq!(def.foreign_keys.len(), 1);
    assert_eq!(def.foreign_keys[0].parent, "users");
}

// --- generated values -------------------------------------------------------------

const T0: i64 = 1_700_000_000_000_000;

fn events() -> TableDef {
    TableDef::new(
        "events",
        vec![
            ColumnDef::new("id", TypeKind::I64).auto_increment(),
            ColumnDef::new("uid", TypeKind::Uuid).default_uuid_v7(),
            ColumnDef::new("label", TypeKind::Text),
            ColumnDef::new("version", TypeKind::I64).rowversion(),
            ColumnDef::new("created_at", TypeKind::Timestamp).default_now(),
            ColumnDef::new("updated_at", TypeKind::Timestamp).on_update_now(),
        ],
        vec!["id"],
    )
}

fn label(s: &str) -> Vec<(String, Value)> {
    vec![("label".to_string(), Value::Text(s.into()))]
}

#[test]
fn auto_increment_is_sequential_and_survives_reopen() {
    let cat = Catalog::create();
    cat.create_table(events()).unwrap();

    for expect in 1..=5i64 {
        let row = cat.insert("events", label("x")).unwrap();
        assert_eq!(row[0], Value::I64(expect));
    }
    // An explicit key advances the sequence past itself.
    cat.insert(
        "events",
        vec![
            ("id".to_string(), Value::I64(100)),
            ("label".to_string(), Value::Text("explicit".into())),
        ],
    )
    .unwrap();
    assert_eq!(
        cat.insert("events", label("x")).unwrap()[0],
        Value::I64(101)
    );

    // A rejected transaction may burn ids but never reuses one.
    let _ = cat.insert(
        "events",
        vec![
            ("label".to_string(), Value::Text("bad".into())),
            ("ghost".to_string(), Value::I64(0)),
        ],
    );

    // The sequence is durable: reopen and keep counting, no reuse.
    let cat = cat.reopen();
    let row = cat.insert("events", label("after-reopen")).unwrap();
    assert_eq!(row[0], Value::I64(102));
}

#[test]
fn rowversion_starts_at_one_and_bumps_every_update() {
    let cat = Catalog::create();
    cat.create_table(events()).unwrap();
    let row = cat.insert("events", label("v")).unwrap();
    assert_eq!(row[3], Value::I64(1));

    let pk = vec![row[0].clone()];
    for expect in 2..=4i64 {
        let row = cat
            .update("events", pk.clone(), label(&format!("v{expect}")))
            .unwrap();
        assert_eq!(row[3], Value::I64(expect), "rowversion must bump");
    }

    // Explicit writes to the engine-managed column are rejected.
    assert!(matches!(
        cat.update("events", pk, vec![("version".to_string(), Value::I64(99))]),
        Err(CatalogError::EngineManagedColumn { .. })
    ));
}

#[test]
fn now_and_on_update_now_track_the_injected_clock() {
    let cat = Catalog::create();
    cat.create_table(events()).unwrap();

    let row = cat.insert("events", label("t")).unwrap();
    // Both stamps equal the insert-time clock.
    assert_eq!(row[4], Value::Timestamp(T0));
    assert_eq!(row[5], Value::Timestamp(T0));

    cat.now.set(T0 + 5_000_000);
    let pk = vec![row[0].clone()];
    let row = cat.update("events", pk.clone(), label("t2")).unwrap();
    // created_at frozen, updated_at refreshed.
    assert_eq!(row[4], Value::Timestamp(T0));
    assert_eq!(row[5], Value::Timestamp(T0 + 5_000_000));

    cat.now.set(T0 + 6_000_000);
    let row = cat.update("events", pk, label("t3")).unwrap();
    assert_eq!(row[5], Value::Timestamp(T0 + 6_000_000));

    // on_update columns cannot be written explicitly (insert or update).
    assert!(matches!(
        cat.insert(
            "events",
            vec![("updated_at".to_string(), Value::Timestamp(0))]
        ),
        Err(CatalogError::EngineManagedColumn { .. })
    ));
}

// --- indexes ----------------------------------------------------------------------

fn people() -> TableDef {
    TableDef::new(
        "people",
        vec![
            ColumnDef::new("id", TypeKind::I64),
            ColumnDef::new("email", TypeKind::Text).unique(),
            ColumnDef::new("city", TypeKind::Text),
            ColumnDef::new("age", TypeKind::I64),
        ],
        vec!["id"],
    )
    .index(IndexDef::new("by_city_age", vec!["city", "age"]))
}

fn person(id: i64, email: Option<&str>, city: &str, age: i64) -> Vec<(String, Value)> {
    let mut row = vec![
        ("id".to_string(), Value::I64(id)),
        ("city".to_string(), Value::Text(city.into())),
        ("age".to_string(), Value::I64(age)),
    ];
    row.push((
        "email".to_string(),
        email.map_or(Value::Null, |e| Value::Text(e.into())),
    ));
    row
}

#[test]
fn index_definitions_persist_and_unique_columns_get_implicit_indexes() {
    let cat = Catalog::create();
    cat.create_table(people()).unwrap();
    let cat = cat.reopen();
    let def = cat.snapshot().table("people").unwrap();
    let names: Vec<&str> = def.indexes.iter().map(|i| i.name.as_str()).collect();
    assert_eq!(
        names,
        vec![
            "by_city_age",
            implicit_index_name("people", "email").as_str()
        ]
    );
    assert!(!def.indexes[0].unique);
    assert!(def.indexes[1].unique);
    cat.snapshot().validate().unwrap();
}

#[test]
fn maintenance_keeps_indexes_in_sync_through_dml() {
    let cat = Catalog::create();
    cat.create_table(people()).unwrap();

    cat.insert("people", person(1, Some("a@x"), "oslo", 30))
        .unwrap();
    cat.insert("people", person(2, Some("b@x"), "rome", 40))
        .unwrap();
    cat.insert("people", person(3, None, "oslo", 50)).unwrap();
    cat.snapshot().validate().unwrap();

    // Update moving a row across index keys.
    cat.update(
        "people",
        vec![Value::I64(1)],
        vec![
            ("city".to_string(), Value::Text("rome".into())),
            ("email".to_string(), Value::Text("a2@x".into())),
        ],
    )
    .unwrap();
    cat.snapshot().validate().unwrap();

    // Update that leaves index keys unchanged.
    cat.update(
        "people",
        vec![Value::I64(2)],
        vec![("age".to_string(), Value::I64(40))],
    )
    .unwrap();
    cat.snapshot().validate().unwrap();

    // Delete removes entries everywhere.
    assert!(cat.delete("people", vec![Value::I64(1)]).unwrap());
    cat.snapshot().validate().unwrap();
}

#[test]
fn unique_violations_via_indexes() {
    let cat = Catalog::create();
    cat.create_table(people()).unwrap();
    cat.insert("people", person(1, Some("a@x"), "oslo", 30))
        .unwrap();

    // Insert collision on the implicit unique index.
    assert!(matches!(
        cat.insert("people", person(2, Some("a@x"), "rome", 40)),
        Err(CatalogError::UniqueViolation { .. })
    ));
    // Update collision.
    cat.insert("people", person(2, Some("b@x"), "rome", 40))
        .unwrap();
    assert!(matches!(
        cat.update(
            "people",
            vec![Value::I64(2)],
            vec![("email".to_string(), Value::Text("a@x".into()))],
        ),
        Err(CatalogError::UniqueViolation { .. })
    ));
    // NULLs never conflict; freeing a value makes it claimable again.
    cat.update(
        "people",
        vec![Value::I64(1)],
        vec![("email".to_string(), Value::Null)],
    )
    .unwrap();
    cat.update(
        "people",
        vec![Value::I64(2)],
        vec![("email".to_string(), Value::Text("a@x".into()))],
    )
    .unwrap();
    cat.snapshot().validate().unwrap();

    // A multi-row insert with one collision leaves base AND indexes untouched.
    let before = cat.snapshot();
    let result = cat.insert_many(
        "people",
        vec![
            person(10, Some("ten@x"), "oslo", 1),
            person(11, Some("a@x"), "oslo", 2), // taken by row 2
        ],
    );
    assert!(matches!(result, Err(CatalogError::UniqueViolation { .. })));
    let after = cat.snapshot();
    assert_eq!(
        after.scan("people").unwrap(),
        before.scan("people").unwrap()
    );
    after.validate().unwrap();
}

#[test]
fn create_index_backfills_and_rejects_duplicate_data() {
    let cat = Catalog::create();
    cat.create_table(people()).unwrap();
    for i in 0..30 {
        cat.insert("people", person(i, None, &format!("c{}", i % 5), i))
            .unwrap();
    }

    // Backfilled non-unique index over existing rows.
    cat.create_index("people", IndexDef::new("by_age", vec!["age"]))
        .unwrap();
    cat.snapshot().validate().unwrap();

    // A unique index over duplicate data is rejected whole.
    assert!(matches!(
        cat.create_index("people", IndexDef::new("uniq_city", vec!["city"]).unique()),
        Err(CatalogError::UniqueViolation { .. })
    ));
    assert!(cat
        .snapshot()
        .table("people")
        .unwrap()
        .index_pos("uniq_city")
        .is_none());
    cat.snapshot().validate().unwrap();

    // A unique index over distinct data backfills fine; duplicate names don't.
    cat.create_index("people", IndexDef::new("uniq_age", vec!["age"]).unique())
        .unwrap();
    assert!(matches!(
        cat.create_index("people", IndexDef::new("by_age", vec!["city"])),
        Err(CatalogError::IndexExists { .. })
    ));
    // And the new unique index enforces from now on.
    assert!(matches!(
        cat.insert("people", person(100, None, "c0", 7)),
        Err(CatalogError::UniqueViolation { .. })
    ));
    cat.snapshot().validate().unwrap();
}

#[test]
fn drop_index_frees_pages_and_protects_unique_backings() {
    let cat = Catalog::create();
    cat.create_table(people()).unwrap();
    for i in 0..100 {
        cat.insert(
            "people",
            person(i, Some(&format!("u{i}@x")), &format!("city-{i}"), i),
        )
        .unwrap();
    }

    // The implicit backing of a unique column cannot be dropped…
    assert!(matches!(
        cat.drop_index("people", &implicit_index_name("people", "email")),
        Err(CatalogError::InvalidSchema { .. })
    ));
    // …an unknown index is NotFound…
    assert!(matches!(
        cat.drop_index("people", "ghost"),
        Err(CatalogError::UnknownIndex { .. })
    ));
    // …and a user index drops, freeing its pages.
    let before = cat.validate().unwrap();
    cat.drop_index("people", "by_city_age").unwrap();
    cat.insert("people", person(200, None, "x", 0)).unwrap(); // trigger reclaim
    let after = cat.validate().unwrap();
    assert!(
        after.free_ids > before.free_ids,
        "dropping an index over 100 rows should free pages"
    );
    cat.snapshot().validate().unwrap();
}

#[test]
fn drop_table_frees_index_trees_too() {
    let cat = Catalog::create();
    cat.create_table(people()).unwrap();
    for i in 0..100 {
        cat.insert(
            "people",
            person(i, Some(&format!("u{i}@x")), &format!("city-{i}"), i),
        )
        .unwrap();
    }
    let before = cat.validate().unwrap();
    cat.drop_table("people").unwrap();
    cat.create_table(TableDef::new(
        "t",
        vec![ColumnDef::new("id", TypeKind::I64)],
        vec!["id"],
    ))
    .unwrap(); // trigger reclaim
    let after = cat.validate().unwrap();
    assert!(
        after.free_ids > before.free_ids + 3,
        "base and index trees should all be freed (before {}, after {})",
        before.free_ids,
        after.free_ids
    );
}

#[test]
fn a_pinned_snapshot_validates_against_its_own_version() {
    let cat = Catalog::create();
    cat.create_table(people()).unwrap();
    for i in 0..20 {
        cat.insert("people", person(i, Some(&format!("u{i}@x")), "oslo", i))
            .unwrap();
    }
    let pinned = cat.snapshot();

    // Churn after the pin: updates, deletes, a new index.
    for i in 0..20 {
        if i % 3 == 0 {
            cat.delete("people", vec![Value::I64(i)]).unwrap();
        } else {
            cat.update(
                "people",
                vec![Value::I64(i)],
                vec![("city".to_string(), Value::Text(format!("c{i}")))],
            )
            .unwrap();
        }
    }
    cat.create_index("people", IndexDef::new("by_age", vec!["age"]))
        .unwrap();

    // The pinned snapshot is still internally consistent at its version —
    // and doesn't see the new index.
    pinned.validate().unwrap();
    assert!(pinned
        .table("people")
        .unwrap()
        .index_pos("by_age")
        .is_none());
    assert_eq!(pinned.scan("people").unwrap().len(), 20);
    cat.snapshot().validate().unwrap();
}

// --- a random stream --------------------------------------------------------------

const SEEDS: [u64; 4] = [1, 2, 3, 4];
const STEPS: u32 = 400;
const ID_SPACE: u64 = 60;

/// In-memory model: pk → (email, city, age).
type Model = BTreeMap<i64, (Option<String>, String, i64)>;

fn indexed_table() -> TableDef {
    TableDef::new(
        "t",
        vec![
            ColumnDef::new("id", TypeKind::I64),
            ColumnDef::new("email", TypeKind::Text).unique(),
            ColumnDef::new("city", TypeKind::Text),
            ColumnDef::new("age", TypeKind::I64),
        ],
        vec!["id"],
    )
    .index(IndexDef::new("by_city_age", vec!["city", "age"]))
    .index(IndexDef::new("by_age", vec!["age"]))
}

fn rand_email(rng: &mut SeededRng) -> Option<String> {
    // Small space → frequent unique collisions; None → NULL (never conflicts).
    match rng.next_u64() % 4 {
        0 => None,
        _ => Some(format!("e{}@x", rng.next_u64() % 40)),
    }
}

fn rand_city(rng: &mut SeededRng) -> String {
    format!("c{}", rng.next_u64() % 8)
}

fn row_values(id: i64, email: &Option<String>, city: &str, age: i64) -> Vec<(String, Value)> {
    vec![
        ("id".to_string(), Value::I64(id)),
        (
            "email".to_string(),
            email
                .as_ref()
                .map_or(Value::Null, |e| Value::Text(e.clone())),
        ),
        ("city".to_string(), Value::Text(city.to_string())),
        ("age".to_string(), Value::I64(age)),
    ]
}

/// The model's view of which emails are taken (excluding `but_not`).
fn email_taken(model: &Model, email: &str, but_not: Option<i64>) -> bool {
    model
        .iter()
        .any(|(id, (e, _, _))| Some(*id) != but_not && e.as_deref() == Some(email))
}

fn run_dml(seed: u64) {
    let mut rng = SeededRng::new(seed);
    let cat = Catalog::create();
    cat.create_table(indexed_table()).unwrap();
    let mut model = Model::new();

    for step in 0..STEPS {
        let id = (rng.next_u64() % ID_SPACE) as i64;
        match rng.next_u64() % 4 {
            // Insert.
            0..=1 => {
                let email = rand_email(&mut rng);
                let city = rand_city(&mut rng);
                let age = (rng.next_u64() % 50) as i64;
                let result = cat.insert("t", row_values(id, &email, &city, age));
                let conflict = model.contains_key(&id)
                    || email
                        .as_deref()
                        .is_some_and(|e| email_taken(&model, e, None));
                match result {
                    Ok(_) => {
                        assert!(!conflict, "seed {seed} step {step}: accepted a conflict");
                        model.insert(id, (email, city, age));
                    }
                    Err(
                        CatalogError::DuplicateKey { .. } | CatalogError::UniqueViolation { .. },
                    ) => {
                        assert!(conflict, "seed {seed} step {step}: spurious rejection");
                    }
                    Err(e) => panic!("seed {seed} step {step}: unexpected error {e:?}"),
                }
            }
            // Update (email and/or city).
            2 => {
                let email = rand_email(&mut rng);
                let city = rand_city(&mut rng);
                let sets = vec![
                    (
                        "email".to_string(),
                        email
                            .as_ref()
                            .map_or(Value::Null, |e| Value::Text(e.clone())),
                    ),
                    ("city".to_string(), Value::Text(city.clone())),
                ];
                let result = cat.update("t", vec![Value::I64(id)], sets);
                if !model.contains_key(&id) {
                    assert!(
                        matches!(result, Err(CatalogError::RowNotFound { .. })),
                        "seed {seed} step {step}: update of missing row"
                    );
                    continue;
                }
                let conflict = email
                    .as_deref()
                    .is_some_and(|e| email_taken(&model, e, Some(id)));
                match result {
                    Ok(_) => {
                        assert!(!conflict, "seed {seed} step {step}: accepted a conflict");
                        if let Some(entry) = model.get_mut(&id) {
                            entry.0 = email;
                            entry.1 = city;
                        }
                    }
                    Err(CatalogError::UniqueViolation { .. }) => {
                        assert!(conflict, "seed {seed} step {step}: spurious rejection");
                    }
                    Err(e) => panic!("seed {seed} step {step}: unexpected error {e:?}"),
                }
            }
            // Delete.
            _ => {
                let deleted = cat.delete("t", vec![Value::I64(id)]).unwrap();
                assert_eq!(
                    deleted,
                    model.remove(&id).is_some(),
                    "seed {seed} step {step}: delete disagreed with the model"
                );
            }
        }

        if step % 40 == 0 {
            check_against(&cat, &model, seed, step);
        }
    }
    check_against(&cat, &model, seed, STEPS);
}

/// Base table matches the model; every index matches a brute-force base scan.
fn check_against(cat: &Catalog, model: &Model, seed: u64, step: u32) {
    let snap = cat.snapshot();
    // validate() IS the base↔index brute-force cross-check (plus tree
    // structural validation); the model comparison proves the base itself.
    snap.validate()
        .unwrap_or_else(|e| panic!("seed {seed} step {step}: validate: {e:?}"));
    let rows = snap.scan("t").unwrap();
    assert_eq!(rows.len(), model.len(), "seed {seed} step {step}");
    for row in rows {
        let Value::I64(id) = row[0] else {
            panic!("bad id")
        };
        let (email, city, age) = model.get(&id).expect("row not in model");
        let want_email = email
            .as_ref()
            .map_or(Value::Null, |e| Value::Text(e.clone()));
        assert_eq!(row[1], want_email, "seed {seed} step {step} id {id}");
        assert_eq!(row[2], Value::Text(city.clone()), "seed {seed} step {step}");
        assert_eq!(row[3], Value::I64(*age), "seed {seed} step {step}");
    }
}

#[test]
fn random_dml_keeps_every_index_consistent() {
    for seed in SEEDS {
        run_dml(seed);
    }
}

// --- snapshots --------------------------------------------------------------------

fn table(name: &str) -> TableDef {
    TableDef::new(
        name,
        vec![
            ColumnDef::new("id", TypeKind::I64),
            ColumnDef::new("v", TypeKind::Text),
        ],
        vec!["id"],
    )
}

fn kv(id: i64, v: &str) -> Vec<(String, Value)> {
    vec![
        ("id".to_string(), Value::I64(id)),
        ("v".to_string(), Value::Text(v.into())),
    ]
}

#[test]
fn a_snapshot_pins_schema_and_data_together() {
    let cat = Catalog::create();
    cat.create_table(table("a")).unwrap();
    cat.insert("a", kv(1, "old")).unwrap();

    let before = cat.snapshot();

    // Everything changes after the pin: data, schema, table set.
    cat.update("a", vec![Value::I64(1)], kv(1, "new")[1..].to_vec())
        .unwrap();
    cat.insert("a", kv(2, "extra")).unwrap();
    cat.add_column("a", ColumnDef::new("w", TypeKind::I64))
        .unwrap();
    cat.create_table(table("b")).unwrap();
    cat.drop_table("b").unwrap();
    cat.create_table(table("c")).unwrap();

    // The snapshot still reads the world as it was.
    assert_eq!(before.tables().unwrap(), vec!["a"]);
    assert_eq!(before.table("a").unwrap().columns.len(), 2);
    assert_eq!(
        before.scan("a").unwrap(),
        vec![vec![Value::I64(1), Value::Text("old".into())]]
    );
    assert!(matches!(
        before.table("c"),
        Err(CatalogError::UnknownTable { .. })
    ));

    // A fresh snapshot sees the new world.
    let after = cat.snapshot();
    assert_eq!(after.tables().unwrap(), vec!["a", "c"]);
    assert_eq!(after.table("a").unwrap().columns.len(), 3);
    assert_eq!(after.scan("a").unwrap().len(), 2);
    assert!(after.txn_id() > before.txn_id());
}

#[test]
fn many_tables_stay_independent() {
    let cat = Catalog::create();
    for name in ["x", "y", "z"] {
        cat.create_table(table(name)).unwrap();
        for i in 0..20 {
            cat.insert(name, kv(i, name)).unwrap();
        }
    }
    cat.delete("y", vec![Value::I64(0)]).unwrap();

    let snap = cat.snapshot();
    assert_eq!(snap.scan("x").unwrap().len(), 20);
    assert_eq!(snap.scan("y").unwrap().len(), 19);
    assert_eq!(snap.scan("z").unwrap().len(), 20);
    assert_eq!(
        snap.get("z", &[Value::I64(7)]).unwrap().unwrap()[1],
        Value::Text("z".into())
    );
    cat.validate().unwrap();
}

// --- conditional writes -----------------------------------------------------------

/// Matches rows by one cell, and sets other cells.
struct Where {
    column: &'static str,
    values: Vec<Value>,
    set: Vec<(Value, Vec<Cell>)>,
}

impl RowFilter for Where {
    fn matches(&self, def: &TableDef, row: &Vec<Value>) -> Result<bool, PolicyError> {
        Ok(self.values.contains(&row[def.col_index(self.column).unwrap()]))
    }
}

impl RowUpdater for Where {
    fn new_values(&self, def: &TableDef, row: &Vec<Value>) -> Result<Vec<Cell>, PolicyError> {
        let at = &row[def.col_index(self.column).unwrap()];
        Ok(self.set.iter().find(|(v, _)| v == at).map(|(_, c)| c.clone()).unwrap_or_default())
    }
}

/// Refuses every row.
struct Refuses;

impl RowFilter for Refuses {
    fn matches(&self, _def: &TableDef, _row: &Vec<Value>) -> Result<bool, PolicyError> {
        Err(PolicyError { category: ErrorCategory::Conflict, text: "not now".to_string() })
    }
}

fn two_people() -> Catalog {
    let cat = Catalog::create();
    cat.create_table(people()).unwrap();
    cat.insert("people", person(1, Some("a@x"), "oslo", 30)).unwrap();
    cat.insert("people", person(2, Some("b@x"), "rome", 40)).unwrap();
    cat
}

#[test]
fn a_swap_of_unique_values_keeps_both_entries() {
    let cat = two_people();
    let email = |s: &str| vec![("email".to_string(), text(s))];
    let swap = Where {
        column: "id",
        values: vec![Value::I64(1), Value::I64(2)],
        set: vec![(Value::I64(1), email("b@x")), (Value::I64(2), email("a@x"))],
    };
    assert_eq!(cat.update_where("people", &swap).unwrap(), 2);
    cat.snapshot().validate().unwrap();
    let rows = cat.snapshot().scan("people").unwrap();
    assert_eq!(rows[0][1], text("b@x"));
    assert_eq!(rows[1][1], text("a@x"));
    // Both emails are still taken.
    for e in ["a@x", "b@x"] {
        assert!(matches!(
            cat.insert("people", person(3, Some(e), "bonn", 1)),
            Err(CatalogError::UniqueViolation { .. })
        ));
    }
}

#[test]
fn two_rows_of_one_batch_cannot_take_one_value() {
    let cat = two_people();
    let same = vec![("email".to_string(), text("c@x"))];
    let clash = Where {
        column: "id",
        values: vec![Value::I64(1), Value::I64(2)],
        set: vec![(Value::I64(1), same.clone()), (Value::I64(2), same)],
    };
    assert!(matches!(
        cat.update_where("people", &clash),
        Err(CatalogError::UniqueViolation { .. })
    ));
    // Nor a value that a row outside the batch holds.
    let taken = Where {
        column: "id",
        values: vec![Value::I64(1)],
        set: vec![(Value::I64(1), vec![("email".to_string(), text("b@x"))])],
    };
    assert!(matches!(
        cat.update_where("people", &taken),
        Err(CatalogError::UniqueViolation { .. })
    ));
    cat.snapshot().validate().unwrap();
    assert_eq!(cat.snapshot().scan("people").unwrap()[0][1], text("a@x"));
}

#[test]
fn conditional_writes_count_their_rows() {
    let cat = two_people();
    cat.insert("people", person(3, None, "oslo", 50)).unwrap();
    let oslo = Where { column: "city", values: vec![text("oslo")], set: vec![] };
    assert_eq!(cat.delete_where("people", &oslo).unwrap(), 2);
    assert_eq!(cat.delete_where("people", &oslo).unwrap(), 0);
    assert_eq!(cat.update_where("people", &oslo).unwrap(), 0);
    assert_eq!(cat.snapshot().scan("people").unwrap().len(), 1);
    cat.snapshot().validate().unwrap();
}

#[test]
fn a_policy_rejection_keeps_its_category() {
    let cat = two_people();
    let err = cat.delete_where("people", &Refuses).unwrap_err();
    assert!(matches!(&err, CatalogError::Policy { text, .. } if text == "not now"));
    assert_eq!(err.category(), ErrorCategory::Conflict);
    assert_eq!(cat.snapshot().scan("people").unwrap().len(), 2);
}

#[test]
fn a_self_referential_chain_can_go_together() {
    let cat = Catalog::create();
    cat.create_table(employees()).unwrap();
    // One batch may refer to its own earlier rows.
    cat.insert_many(
        "employees",
        vec![
            row(&[("id", Value::I64(1)), ("manager", Value::Null)]),
            row(&[("id", Value::I64(2)), ("manager", Value::I64(1))]),
            row(&[("id", Value::I64(3)), ("manager", Value::I64(2))]),
        ],
    )
    .unwrap();
    let some = |ids: &[i64]| Where {
        column: "id",
        values: ids.iter().map(|i| Value::I64(*i)).collect(),
        set: vec![],
    };
    // Employee 3 still refers to 2.
    assert!(matches!(
        cat.delete_where("employees", &some(&[1, 2])),
        Err(CatalogError::ReferencedByChildren { .. })
    ));
    assert_eq!(cat.delete_where("employees", &some(&[1, 2, 3])).unwrap(), 3);
}

#[test]
fn a_lost_index_entry_is_found() {
    let cat = two_people();
    let opened = cat.open_at(cat.root.get(), "people").unwrap();
    let (key, _) = cat.range(opened.indexes[0], None, None).remove(0);
    let mut pager = cat.pager.borrow_mut();
    let shrunk = BTree::new(&mut pager).delete(opened.indexes[0], &key).unwrap().new_root;
    let entry = encode_key(&iroot_key("people", "by_city_age"));
    let root = BTree::new(&mut pager)
        .insert(cat.root.get(), &entry, &encode_root(shrunk))
        .unwrap()
        .new_root;
    drop(pager);
    cat.root.set(root);
    cat.commit();
    let outcome = cat.snapshot().validate();
    match outcome {
        Err(CatalogError::IndexOutOfSync { table, index }) => {
            assert_eq!((table.as_str(), index.as_str()), ("people", "by_city_age"));
        }
        other => panic!("{other:?}"),
    }
}

#[test]
fn an_oversized_row_is_refused_before_anything_is_written() {
    let cat = two_people();
    let before = cat.root.get();
    let long = "x".repeat(3000);
    let err = cat.insert("people", person(9, None, &long, 1)).unwrap_err();
    assert!(matches!(err, CatalogError::BTree(_)));
    assert_eq!(err.category(), ErrorCategory::ResourceLimit);
    assert_eq!(cat.root.get(), before);
}

#[test]
fn an_applied_plan_leaves_the_old_trees_readable() {
    let cat = two_people();
    let opened = cat.open_at(cat.root.get(), "people").unwrap();
    let rows = cat.range(opened.data, None, None);
    let entries = cat.range(opened.indexes[0], None, None);
    let pinned = cat.snapshot();
    cat.delete("people", vec![Value::I64(1)]).unwrap();
    cat.insert("people", person(7, Some("g@x"), "bonn", 1)).unwrap();
    assert_eq!(cat.range(opened.data, None, None), rows);
    assert_eq!(cat.range(opened.indexes[0], None, None), entries);
    pinned.validate().unwrap();
    cat.snapshot().validate().unwrap();
}

#[test]
fn pages_are_neither_lost_nor_kept_twice() {
    // After a drop and a reclaim, only the catalog tree itself is in use.
    let cat = two_people();
    for i in 10..80 {
        cat.insert("people", person(i, Some(&format!("p{i}@x")), "oslo", i)).unwrap();
    }
    cat.drop_table("people").unwrap();
    cat.begin();
    cat.commit();
    let stats = cat.validate().unwrap();
    let live = pages_of(&mut cat.pager.borrow_mut(), cat.root.get()).unwrap().len() as u64;
    // The commit that reclaimed them parked its trunk pages once more.
    assert!(stats.page_count - 2 - live - stats.free_ids <= 2 * stats.trunk_count + 1);
}

#[test]
fn other_tables_are_left_alone() {
    let cat = two_people();
    cat.create_table(accounts()).unwrap();
    let before = cat.snapshot().scan("people").unwrap();
    cat.drop_table("accounts").unwrap();
    assert_eq!(cat.snapshot().scan("people").unwrap(), before);
    assert_eq!(cat.snapshot().tables().unwrap(), vec!["people".to_string()]);
    let lo = encode_key(&iroot_band("accounts"));
    assert!(cat.range(cat.root.get(), Some(&lo), Some(&band_end(&lo))).is_empty());
    for key in [tbl_key("accounts"), root_key("accounts"), seq_key("accounts")] {
        assert_eq!(cat.lookup(cat.root.get(), &encode_key(&key)), None);
    }
    cat.snapshot().validate().unwrap();
}

#[test]
fn a_new_table_has_empty_trees_at_its_recorded_roots() {
    let mut pager = Pager::create(MemoryBackend::new()).unwrap();
    let catalog = BTree::new(&mut pager).create().unwrap();
    let keys = table_keys(&people());
    let n = keys.indexes.len();
    let done = plant_table(&mut pager, catalog, &keys, &vec![7, 8], true).unwrap();
    assert_eq!(done.site.roots.indexes.len(), n);
    let mut tree = BTree::new(&mut pager);
    let mut entry = |key: &Vec<u8>| tree.lookup(done.site.catalog, key).unwrap().unwrap();
    assert_eq!(entry(&keys.table), vec![7, 8]);
    assert_eq!(entry(&keys.root), encode_root(done.site.roots.data));
    assert_eq!(entry(&keys.seq), vec![1, 0, 0, 0, 0, 0, 0, 0]);
    for i in 0..n {
        assert_eq!(entry(&keys.indexes[i]), encode_root(done.site.roots.indexes[i]));
    }
    assert_eq!(load_roots(&mut pager, done.site.catalog, &keys).unwrap(), done.site.roots);
    // Each tree of its own, with nothing in it.
    for root in [done.site.roots.data].iter().chain(&done.site.roots.indexes) {
        assert_eq!(pages_of(&mut pager, *root).unwrap(), vec![*root]);
        assert_eq!(BTree::new(&mut pager).validate(*root).unwrap().entries, 0);
    }
}

#[test]
fn a_missing_root_entry_is_corrupt() {
    let mut pager = Pager::create(MemoryBackend::new()).unwrap();
    let catalog = BTree::new(&mut pager).create().unwrap();
    let keys = table_keys(&people());
    let err = load_roots(&mut pager, catalog, &keys).unwrap_err();
    assert!(matches!(err, CatalogError::Corrupt(CatalogCorruption::MissingEntry)));
    let catalog =
        BTree::new(&mut pager).insert(catalog, &keys.root, &[1, 2, 3]).unwrap().new_root;
    let err = load_roots(&mut pager, catalog, &keys).unwrap_err();
    assert!(matches!(err, CatalogError::Corrupt(CatalogCorruption::BadValue)));
}

#[test]
fn a_crash_between_commits_spares_committed_tables() {
    let mut pager = Pager::create(FaultInjectingBackend::new(MemoryBackend::new())).unwrap();
    let catalog = BTree::new(&mut pager).create().unwrap();
    let keys = table_keys(&people());
    let made = plant_table(&mut pager, catalog, &keys, &vec![1], false).unwrap();
    pager.set_catalog_root(Some(made.site.catalog));
    pager.commit().unwrap();
    let gone = fell_table(&mut pager, &made.site, &keys).unwrap();
    pager.set_catalog_root(Some(gone.new_root));
    pager.backend_mut().reset_counters();
    pager.backend_mut().arm(FaultPoint::Sync, 1);
    assert!(pager.commit().is_err());
    pager.backend_mut().disarm();
    let mut reopened = Pager::open(pager.into_backend()).unwrap();
    let root = reopened.catalog_root().unwrap();
    assert_eq!(root, made.site.catalog);
    assert_eq!(load_roots(&mut reopened, root, &keys).unwrap(), made.site.roots);
}
