//! Staging of writes: validate, then apply.
//!
//! Every row that a transaction writes is staged first. Staging makes every probe
//! and check, so a refused transaction has changed nothing; what it leaves is a
//! plan of tree operations that keeps the indexes in step with the base table.

use vstd::prelude::*;
use super::error::{passes, CatalogError, CatalogErrorV, Res, Result};
use super::form::Encoded;
use super::row::{cells_named, index_cols};
use super::schema::{TableDef, TableV};
use crate::btree::error::BTreeError;
use crate::btree::insert::{cell_need, check_entry, need_told};
use crate::btree::node::MAX_CELL;
use crate::bytes::{bytes_eq, to_vec};
use crate::index::{encoded_view, entry, entry_of, Entry, EntryV, IndexError};
use crate::order::strings;
use crate::value::{values, TypeError, Value, ValueV};
use crate::views::{opt, views};

verus! {

/// A full row with the encodings of its indexed columns, one for each index.
#[derive(Debug, PartialEq, Eq)]
pub struct Keyed {
    /// The row.
    pub row: Vec<Value>,
    /// For each index, the encoding of the row's cells in its columns.
    pub keys: Vec<Encoded>,
}

/// What a [`Keyed`] row holds.
#[verifier::ext_equal]
pub struct KeyedV {
    pub row: Seq<ValueV>,
    pub keys: Seq<core::result::Result<Seq<u8>, TypeError>>,
}

/// What encodings hold.
pub open spec fn encodings(keys: Seq<Encoded>) -> Seq<core::result::Result<Seq<u8>, TypeError>> {
    Seq::new(keys.len(), |i: int| encoded_view(keys[i]))
}

impl View for Keyed {
    type V = KeyedV;

    open spec fn view(&self) -> KeyedV {
        KeyedV { row: values(self.row@), keys: encodings(self.keys@) }
    }
}

/// The entry that a row contributes to index `i`, if it contributes one.
pub open spec fn contribution(t: TableV, i: int, pk: Seq<u8>, row: Option<KeyedV>) -> core::result::Result<
    Option<EntryV>,
    IndexError,
> {
    match row {
        None => Ok(None),
        Some(k) => entry_of(
            cells_named(t, k.row, t.indexes[i].columns),
            k.keys[i],
            pk,
            t.indexes[i].unique,
        ),
    }
}

/// How one index changes with a row.
#[derive(Debug, PartialEq, Eq)]
pub struct Delta {
    /// The index, by position.
    pub index: usize,
    /// The entry that leaves.
    pub old: Option<Entry>,
    /// The entry that arrives.
    pub new: Option<Entry>,
    /// Whether the committed index holds the arriving entry's key.
    pub taken: bool,
}

/// What a [`Delta`] says.
#[verifier::ext_equal]
pub struct DeltaV {
    pub index: nat,
    pub old: Option<EntryV>,
    pub new: Option<EntryV>,
    pub taken: bool,
}

impl View for Delta {
    type V = DeltaV;

    open spec fn view(&self) -> DeltaV {
        DeltaV {
            index: self.index as nat,
            old: opt(self.old),
            new: opt(self.new),
            taken: self.taken,
        }
    }
}

/// A staged row.
#[derive(Debug, PartialEq, Eq)]
pub struct Change {
    /// The encoded primary key.
    pub pk_key: Vec<u8>,
    /// The encoded row, or nothing where the row is removed.
    pub bytes: Option<Vec<u8>>,
    /// How the indexes change.
    pub deltas: Vec<Delta>,
}

/// What a [`Change`] says.
#[verifier::ext_equal]
pub struct ChangeV {
    pub pk_key: Seq<u8>,
    pub bytes: Option<Seq<u8>>,
    pub deltas: Seq<DeltaV>,
}

impl View for Change {
    type V = ChangeV;

    open spec fn view(&self) -> ChangeV {
        ChangeV {
            pk_key: self.pk_key@,
            bytes: opt(self.bytes),
            deltas: views(self.deltas@),
        }
    }
}

/// Which write a row is staged for: they differ in when a unique key that is taken
/// is refused.
#[derive(Debug, Clone, Copy, PartialEq, Eq, Structural)]
pub enum Mode {
    /// An insert: a key in the committed index or in the batch is taken.
    Insert,
    /// An update of one row: a key in the committed index is taken.
    Update,
    /// A row of an update of many: a key that another row of the batch takes is
    /// taken; the committed index is looked at when all rows are staged.
    Many,
}

/// Whether a staged row brings this key to index `i`.
pub open spec fn brings(c: ChangeV, i: nat, key: Seq<u8>) -> bool {
    exists|d: int|
        0 <= d < c.deltas.len() && (#[trigger] c.deltas[d]).index == i && c.deltas[d].new is Some
            && c.deltas[d].new->Some_0.key == key
}

/// Whether a staged row takes this key from index `i`.
pub open spec fn takes(c: ChangeV, i: nat, key: Seq<u8>) -> bool {
    exists|d: int|
        0 <= d < c.deltas.len() && (#[trigger] c.deltas[d]).index == i && c.deltas[d].old is Some
            && c.deltas[d].old->Some_0.key == key
}

/// Whether some staged row brings this key to index `i`.
pub open spec fn arriving(changes: Seq<ChangeV>, i: nat, key: Seq<u8>) -> bool {
    exists|c: int| 0 <= c < changes.len() && brings(#[trigger] changes[c], i, key)
}

/// Whether some staged row takes this key from index `i`.
pub open spec fn leaving(changes: Seq<ChangeV>, i: nat, key: Seq<u8>) -> bool {
    exists|c: int| 0 <= c < changes.len() && takes(#[trigger] changes[c], i, key)
}

/// The key of an entry, if there is one.
pub open spec fn key_of(e: Option<EntryV>) -> Option<Seq<u8>> {
    match e {
        Some(e) => Some(e.key),
        None => None,
    }
}

/// The refusal of an entry that could never fit a node.
pub open spec fn too_large(key: Seq<u8>, value: Seq<u8>) -> Option<CatalogErrorV> {
    if cell_need(key, value) > MAX_CELL {
        Some(
            CatalogErrorV::BTree(
                BTreeError::EntryTooLarge { entry: need_told(key, value), max: MAX_CELL },
            ),
        )
    } else {
        None
    }
}

/// What an index refuses of an arriving entry.
pub open spec fn arrival_error(
    table: Seq<char>,
    t: TableV,
    mode: Mode,
    changes: Seq<ChangeV>,
    taken: bool,
    i: int,
    e: EntryV,
) -> Option<CatalogErrorV> {
    let clash = match mode {
        Mode::Insert => taken || arriving(changes, i as nat, e.key),
        Mode::Update => taken,
        Mode::Many => arriving(changes, i as nat, e.key),
    };
    let violation = CatalogErrorV::UniqueViolation { table, index: t.indexes[i].name };
    let refused = t.indexes[i].unique && clash;
    if mode == Mode::Many {
        match too_large(e.key, e.value) {
            Some(x) => Some(x),
            None => if refused {
                Some(violation)
            } else {
                None
            },
        }
    } else if refused {
        Some(violation)
    } else {
        too_large(e.key, e.value)
    }
}

/// A row to be written: what it was and what it becomes, and what was found out
/// about it.
#[verifier::ext_equal]
pub struct MoveV {
    pub pk_key: Seq<u8>,
    pub old: Option<KeyedV>,
    pub new: Option<KeyedV>,
    pub taken: Seq<bool>,
    pub bytes: core::result::Result<Seq<u8>, TypeError>,
}

/// How index `i` changes with a row: only an entry whose key changed moves.
pub open spec fn delta_at(
    table: Seq<char>,
    t: TableV,
    mode: Mode,
    changes: Seq<ChangeV>,
    m: MoveV,
    i: int,
) -> Res<Option<DeltaV>> {
    match contribution(t, i, m.pk_key, m.old) {
        Err(e) => Err(CatalogErrorV::Index(e)),
        Ok(old) => match contribution(t, i, m.pk_key, m.new) {
            Err(e) => Err(CatalogErrorV::Index(e)),
            Ok(new) => if key_of(old) == key_of(new) {
                Ok(None)
            } else {
                let d = DeltaV { index: i as nat, old, new, taken: m.taken[i] };
                match new {
                    None => Ok(Some(d)),
                    Some(e) => match arrival_error(table, t, mode, changes, m.taken[i], i, e) {
                        Some(x) => Err(x),
                        None => Ok(Some(d)),
                    },
                }
            },
        },
    }
}

/// How the indexes from `i` on change with a row.
pub open spec fn deltas_from(
    table: Seq<char>,
    t: TableV,
    mode: Mode,
    changes: Seq<ChangeV>,
    m: MoveV,
    i: int,
) -> Res<Seq<DeltaV>>
    decreases t.indexes.len() - i,
{
    if i < 0 || i >= t.indexes.len() {
        Ok(Seq::empty())
    } else {
        match delta_at(table, t, mode, changes, m, i) {
            Err(e) => Err(e),
            Ok(d) => match deltas_from(table, t, mode, changes, m, i + 1) {
                Err(e) => Err(e),
                Ok(rest) => Ok(
                    match d {
                        Some(d) => seq![d] + rest,
                        None => rest,
                    },
                ),
            },
        }
    }
}

/// Whether a row with this primary key is staged already.
pub open spec fn is_staged(changes: Seq<ChangeV>, pk: Seq<u8>) -> bool {
    exists|c: int| 0 <= c < changes.len() && (#[trigger] changes[c]).pk_key == pk
}

/// A row as it is staged, or why it is refused.
pub open spec fn staged(
    table: Seq<char>,
    t: TableV,
    mode: Mode,
    changes: Seq<ChangeV>,
    m: MoveV,
) -> Res<ChangeV> {
    match deltas_from(table, t, mode, changes, m, 0) {
        Err(e) => Err(e),
        Ok(deltas) => if m.new is None {
            Ok(ChangeV { pk_key: m.pk_key, bytes: None, deltas })
        } else {
            match m.bytes {
                Err(e) => Err(CatalogErrorV::Type(e)),
                Ok(b) => match too_large(m.pk_key, b) {
                    Some(x) => Err(x),
                    None => Ok(ChangeV { pk_key: m.pk_key, bytes: Some(b), deltas }),
                },
            }
        },
    }
}

/// Whether index `i` is left with a key of two rows: one arrives that the
/// committed index holds and that no staged row takes away.
pub open spec fn clashes(changes: Seq<ChangeV>, i: nat) -> bool {
    exists|c: int, d: int| #[trigger] clashes_at(changes, i, c, d)
}

/// Whether this arriving entry clashes with a committed one.
pub open spec fn clashes_at(changes: Seq<ChangeV>, i: nat, c: int, d: int) -> bool {
    &&& 0 <= c < changes.len()
    &&& 0 <= d < changes[c].deltas.len()
    &&& changes[c].deltas[d].index == i
    &&& changes[c].deltas[d].new is Some
    &&& changes[c].deltas[d].taken
    &&& !leaving(changes, i, changes[c].deltas[d].new->Some_0.key)
}

/// The first unique index from `i` on that staged rows leave with a clash.
pub open spec fn clash_error(
    table: Seq<char>,
    t: TableV,
    changes: Seq<ChangeV>,
    i: int,
) -> Option<CatalogErrorV>
    decreases t.indexes.len() - i,
{
    if i < 0 || i >= t.indexes.len() {
        None
    } else if t.indexes[i].unique && clashes(changes, i as nat) {
        Some(CatalogErrorV::UniqueViolation { table, index: t.indexes[i].name })
    } else {
        clash_error(table, t, changes, i + 1)
    }
}

fn entry_for(def: &TableDef, i: usize, row: &Option<Keyed>, pk_key: &Vec<u8>) -> (r: Result<
    Option<Entry>,
>)
    requires
        i < def@.indexes.len(),
        row matches Some(k) ==> k.keys@.len() == def@.indexes.len(),
    ensures
        match r {
            Ok(e) => contribution(def@, i as int, pk_key@, opt(*row)) == Ok::<
                Option<EntryV>,
                IndexError,
            >(opt(e)),
            Err(e) => contribution(def@, i as int, pk_key@, opt(*row)) is Err && e@
                == CatalogErrorV::Index(contribution(def@, i as int, pk_key@, opt(*row))->Err_0),
        },
{
    match row {
        None => Ok(None),
        Some(k) => {
            assert(def@.indexes[i as int] == def.indexes@[i as int]@);
            assert(k@.keys[i as int] == encoded_view(k.keys@[i as int]));
            let cols = index_cols(def, &def.indexes[i], &k.row);
            match entry(&cols, &k.keys[i], pk_key.as_slice(), def.indexes[i].unique) {
                Ok(e) => Ok(e),
                Err(e) => Err(CatalogError::Index(e)),
            }
        },
    }
}

fn same_entry_key(a: &Option<Entry>, b: &Option<Entry>) -> (r: bool)
    ensures
        r == (key_of(opt(*a)) == key_of(opt(*b))),
{
    match (a, b) {
        (None, None) => true,
        (Some(x), Some(y)) => bytes_eq(x.key.as_slice(), y.key.as_slice()),
        _ => false,
    }
}

fn check_size(key: &Vec<u8>, value: &Vec<u8>) -> (r: Result<()>)
    ensures
        passes(r, too_large(key@, value@)),
{
    match check_entry(key.as_slice(), value.as_slice()) {
        Ok(_) => Ok(()),
        Err(e) => Err(CatalogError::BTree(e)),
    }
}

fn change_brings(c: &Change, i: usize, key: &Vec<u8>) -> (r: bool)
    ensures
        r == brings(c@, i as nat, key@),
{
    let ghost ds = c@.deltas;
    let mut d: usize = 0;
    while d < c.deltas.len()
        invariant
            d <= c.deltas@.len(),
            ds == views(c.deltas@),
            ds == c@.deltas,
            forall|j: int|
                0 <= j < d ==> !((#[trigger] ds[j]).index == i && ds[j].new is Some
                    && ds[j].new->Some_0.key == key@),
        decreases c.deltas@.len() - d,
    {
        assert(ds[d as int] == c.deltas@[d as int]@);
        if c.deltas[d].index == i {
            if let Some(e) = &c.deltas[d].new {
                if bytes_eq(e.key.as_slice(), key.as_slice()) {
                    assert(ds[d as int].new->Some_0.key == key@);
                    return true;
                }
            }
        }
        d = d + 1;
    }
    false
}

fn change_takes(c: &Change, i: usize, key: &Vec<u8>) -> (r: bool)
    ensures
        r == takes(c@, i as nat, key@),
{
    let ghost ds = c@.deltas;
    let mut d: usize = 0;
    while d < c.deltas.len()
        invariant
            d <= c.deltas@.len(),
            ds == views(c.deltas@),
            ds == c@.deltas,
            forall|j: int|
                0 <= j < d ==> !((#[trigger] ds[j]).index == i && ds[j].old is Some
                    && ds[j].old->Some_0.key == key@),
        decreases c.deltas@.len() - d,
    {
        assert(ds[d as int] == c.deltas@[d as int]@);
        if c.deltas[d].index == i {
            if let Some(e) = &c.deltas[d].old {
                if bytes_eq(e.key.as_slice(), key.as_slice()) {
                    assert(ds[d as int].old->Some_0.key == key@);
                    return true;
                }
            }
        }
        d = d + 1;
    }
    false
}

/// A row to be written: what it was and what it becomes, and what was found out
/// about it.
#[derive(Debug, PartialEq, Eq)]
pub struct Move {
    /// The encoded primary key.
    pub pk_key: Vec<u8>,
    /// The committed row, if there is one.
    pub old: Option<Keyed>,
    /// The row after the write, unless it is removed.
    pub new: Option<Keyed>,
    /// For each index, whether the committed index holds the new row's key.
    pub taken: Vec<bool>,
    /// The encoding of the new row.
    pub bytes: Encoded,
}

impl View for Move {
    type V = MoveV;

    open spec fn view(&self) -> MoveV {
        MoveV {
            pk_key: self.pk_key@,
            old: opt(self.old),
            new: opt(self.new),
            taken: self.taken@,
            bytes: encoded_view(self.bytes),
        }
    }
}

impl Move {
    /// Whether there is something for each index.
    pub open spec fn complete(self, n: nat) -> bool {
        &&& self.taken@.len() == n
        &&& self.old matches Some(k) ==> k.keys@.len() == n
        &&& self.new matches Some(k) ==> k.keys@.len() == n
    }
}

/// The staged rows of a transaction.
#[derive(Debug, PartialEq, Eq)]
pub struct Batch {
    /// The staged rows, in order.
    pub changes: Vec<Change>,
}

impl View for Batch {
    type V = Seq<ChangeV>;

    open spec fn view(&self) -> Seq<ChangeV> {
        views(self.changes@)
    }
}

impl Batch {
    /// No rows staged.
    pub fn new() -> (r: Self)
        ensures
            r@ == Seq::<ChangeV>::empty(),
    {
        let r = Batch { changes: Vec::new() };
        assert(r@ =~= Seq::empty());
        r
    }

    fn is_arriving(&self, i: usize, key: &Vec<u8>) -> (r: bool)
        ensures
            r == arriving(self@, i as nat, key@),
    {
        let ghost cs = self@;
        let mut c: usize = 0;
        while c < self.changes.len()
            invariant
                c <= self.changes@.len(),
                cs == views(self.changes@),
                cs == self@,
                forall|j: int| 0 <= j < c ==> !brings(#[trigger] cs[j], i as nat, key@),
            decreases self.changes@.len() - c,
        {
            assert(cs[c as int] == self.changes@[c as int]@);
            if change_brings(&self.changes[c], i, key) {
                assert(brings(cs[c as int], i as nat, key@));
                return true;
            }
            c = c + 1;
        }
        false
    }

    fn is_leaving(&self, i: usize, key: &Vec<u8>) -> (r: bool)
        ensures
            r == leaving(self@, i as nat, key@),
    {
        let ghost cs = self@;
        let mut c: usize = 0;
        while c < self.changes.len()
            invariant
                c <= self.changes@.len(),
                cs == views(self.changes@),
                cs == self@,
                forall|j: int| 0 <= j < c ==> !takes(#[trigger] cs[j], i as nat, key@),
            decreases self.changes@.len() - c,
        {
            assert(cs[c as int] == self.changes@[c as int]@);
            if change_takes(&self.changes[c], i, key) {
                assert(takes(cs[c as int], i as nat, key@));
                return true;
            }
            c = c + 1;
        }
        false
    }

    fn check_arrival(
        &self,
        table: &str,
        def: &TableDef,
        mode: Mode,
        taken: bool,
        i: usize,
        e: &Entry,
    ) -> (r: Result<()>)
        requires
            i < def@.indexes.len(),
        ensures
            passes(r, arrival_error(table@, def@, mode, self@, taken, i as int, e@)),
    {
        assert(def@.indexes[i as int] == def.indexes@[i as int]@);
        let clash = match mode {
            Mode::Insert => taken || self.is_arriving(i, &e.key),
            Mode::Update => taken,
            Mode::Many => self.is_arriving(i, &e.key),
        };
        let refused = def.indexes[i].unique && clash;
        if mode == Mode::Many {
            match check_size(&e.key, &e.value) {
                Ok(_) => {},
                Err(x) => {
                    return Err(x);
                },
            }
        }
        if refused {
            return Err(
                CatalogError::UniqueViolation {
                    table: table.to_owned(),
                    index: def.indexes[i].name.clone(),
                },
            );
        }
        check_size(&e.key, &e.value)
    }

    fn delta(&self, table: &str, def: &TableDef, mode: Mode, m: &Move, i: usize) -> (r: Result<
        Option<Delta>,
    >)
        requires
            i < def@.indexes.len(),
            m.complete(def@.indexes.len()),
        ensures
            match r {
                Ok(d) => delta_at(table@, def@, mode, self@, m@, i as int) == Ok::<
                    Option<DeltaV>,
                    CatalogErrorV,
                >(opt(d)),
                Err(e) => delta_at(table@, def@, mode, self@, m@, i as int) == Err::<
                    Option<DeltaV>,
                    CatalogErrorV,
                >(e@),
            },
    {
        let old = match entry_for(def, i, &m.old, &m.pk_key) {
            Ok(e) => e,
            Err(e) => {
                return Err(e);
            },
        };
        let new = match entry_for(def, i, &m.new, &m.pk_key) {
            Ok(e) => e,
            Err(e) => {
                return Err(e);
            },
        };
        if same_entry_key(&old, &new) {
            return Ok(None);
        }
        if let Some(e) = &new {
            match self.check_arrival(table, def, mode, m.taken[i], i, e) {
                Ok(_) => {},
                Err(x) => {
                    return Err(x);
                },
            }
        }
        Ok(Some(Delta { index: i, old, new, taken: m.taken[i] }))
    }

    fn deltas(&self, table: &str, def: &TableDef, mode: Mode, m: &Move) -> (r: Result<Vec<Delta>>)
        requires
            m.complete(def@.indexes.len()),
        ensures
            match r {
                Ok(ds) => deltas_from(table@, def@, mode, self@, m@, 0) == Ok::<
                    Seq<DeltaV>,
                    CatalogErrorV,
                >(views(ds@)),
                Err(e) => deltas_from(table@, def@, mode, self@, m@, 0) == Err::<
                    Seq<DeltaV>,
                    CatalogErrorV,
                >(e@),
            },
    {
        let ghost t = def@;
        let ghost goal = deltas_from(table@, t, mode, self@, m@, 0);
        let mut out: Vec<Delta> = Vec::new();
        let mut i: usize = 0;
        proof {
            assert(t.indexes.len() == def.indexes@.len());
            assert(views(out@) =~= Seq::empty());
            lemma_behind_unit(goal);
        }
        while i < def.indexes.len()
            invariant
                i <= def.indexes@.len(),
                t == def@,
                t.indexes.len() == def.indexes@.len(),
                m.complete(t.indexes.len()),
                goal == deltas_from(table@, t, mode, self@, m@, 0),
                goal == behind(
                    views(out@),
                    deltas_from(table@, t, mode, self@, m@, i as int),
                ),
            decreases def.indexes@.len() - i,
        {
            let ghost before = views(out@);
            let ghost rest = deltas_from(table@, t, mode, self@, m@, i + 1);
            match self.delta(table, def, mode, m, i) {
                Err(e) => {
                    return Err(e);
                },
                Ok(d) => {
                    if let Some(d) = d {
                        proof {
                            lemma_behind_step(before, d@, rest);
                        }
                        out.push(d);
                        assert(views(out@) =~= before.push(d@));
                    }
                },
            }
            i = i + 1;
        }
        assert(views(out@) + Seq::empty() =~= views(out@));
        Ok(out)
    }

    fn stage(&mut self, table: &str, def: &TableDef, mode: Mode, m: Move) -> (r: Result<()>)
        requires
            m.complete(def@.indexes.len()),
        ensures
            match r {
                Ok(_) => staged(table@, def@, mode, old(self)@, m@) is Ok && final(self)@
                    == old(self)@.push(staged(table@, def@, mode, old(self)@, m@)->Ok_0),
                Err(e) => staged(table@, def@, mode, old(self)@, m@) == Err::<
                    ChangeV,
                    CatalogErrorV,
                >(e@) && final(self)@ == old(self)@,
            },
    {
        let deltas = match self.deltas(table, def, mode, &m) {
            Ok(ds) => ds,
            Err(e) => {
                return Err(e);
            },
        };
        let change = if m.new.is_none() {
            Change { pk_key: m.pk_key, bytes: None, deltas }
        } else {
            match m.bytes {
                Err(e) => {
                    return Err(CatalogError::Type(e));
                },
                Ok(b) => {
                    match check_size(&m.pk_key, &b) {
                        Ok(_) => {},
                        Err(x) => {
                            return Err(x);
                        },
                    }
                    Change { pk_key: m.pk_key, bytes: Some(b), deltas }
                },
            }
        };
        let ghost before = self.changes@;
        self.changes.push(change);
        assert(self@ =~= views(before).push(change@));
        Ok(())
    }

    /// Whether a row with this primary key is staged.
    pub fn has(&self, pk_key: &Vec<u8>) -> (r: bool)
        ensures
            r == is_staged(self@, pk_key@),
    {
        let ghost cs = self@;
        let mut c: usize = 0;
        while c < self.changes.len()
            invariant
                c <= self.changes@.len(),
                cs == views(self.changes@),
                cs == self@,
                forall|j: int| 0 <= j < c ==> (#[trigger] cs[j]).pk_key != pk_key@,
            decreases self.changes@.len() - c,
        {
            assert(cs[c as int] == self.changes@[c as int]@);
            if bytes_eq(self.changes[c].pk_key.as_slice(), pk_key.as_slice()) {
                assert(cs[c as int].pk_key == pk_key@);
                return true;
            }
            c = c + 1;
        }
        false
    }

    /// The primary keys of the staged rows, in order.
    pub fn keys(&self) -> (r: Vec<Vec<u8>>)
        ensures
            strings(r@) == Seq::new(self@.len(), |i: int| self@[i].pk_key),
    {
        let ghost cs = self@;
        let mut out: Vec<Vec<u8>> = Vec::new();
        let mut c: usize = 0;
        while c < self.changes.len()
            invariant
                c <= self.changes@.len(),
                cs == views(self.changes@),
                out@.len() == c,
                forall|j: int| 0 <= j < c ==> (#[trigger] out@[j])@ == cs[j].pk_key,
            decreases self.changes@.len() - c,
        {
            assert(cs[c as int] == self.changes@[c as int]@);
            out.push(to_vec(self.changes[c].pk_key.as_slice()));
            c = c + 1;
        }
        assert(strings(out@) =~= Seq::new(self@.len(), |i: int| self@[i].pk_key));
        out
    }

    /// Stage a fresh row. `pk_taken` tells whether a committed row has its primary
    /// key.
    pub fn insert(&mut self, table: &str, def: &TableDef, m: Move, pk_taken: bool) -> (r: Result<()>)
        requires
            m.complete(def@.indexes.len()),
        ensures
            match r {
                Ok(_) => {
                    &&& !pk_taken && !is_staged(old(self)@, m@.pk_key)
                    &&& staged(table@, def@, Mode::Insert, old(self)@, m@) is Ok
                    &&& final(self)@ == old(self)@.push(
                        staged(table@, def@, Mode::Insert, old(self)@, m@)->Ok_0,
                    )
                },
                Err(e) => {
                    &&& final(self)@ == old(self)@
                    &&& Some(e@) == (if pk_taken || is_staged(old(self)@, m@.pk_key) {
                        Some(CatalogErrorV::DuplicateKey { table: table@ })
                    } else {
                        match staged(table@, def@, Mode::Insert, old(self)@, m@) {
                            Ok(_) => None,
                            Err(x) => Some(x),
                        }
                    })
                },
            },
    {
        if pk_taken || self.has(&m.pk_key) {
            return Err(CatalogError::DuplicateKey { table: table.to_owned() });
        }
        self.stage(table, def, Mode::Insert, m)
    }

    /// Stage the update of the one row that a transaction updates.
    pub fn update(&mut self, table: &str, def: &TableDef, m: Move) -> (r: Result<()>)
        requires
            m.complete(def@.indexes.len()),
        ensures
            match r {
                Ok(_) => staged(table@, def@, Mode::Update, old(self)@, m@) is Ok && final(self)@
                    == old(self)@.push(staged(table@, def@, Mode::Update, old(self)@, m@)->Ok_0),
                Err(e) => staged(table@, def@, Mode::Update, old(self)@, m@) == Err::<
                    ChangeV,
                    CatalogErrorV,
                >(e@) && final(self)@ == old(self)@,
            },
    {
        self.stage(table, def, Mode::Update, m)
    }

    /// Stage one row of an update of many. When all are staged, see
    /// [`settle`](Self::settle).
    pub fn update_one_of_many(&mut self, table: &str, def: &TableDef, m: Move) -> (r: Result<()>)
        requires
            m.complete(def@.indexes.len()),
        ensures
            match r {
                Ok(_) => staged(table@, def@, Mode::Many, old(self)@, m@) is Ok && final(self)@
                    == old(self)@.push(staged(table@, def@, Mode::Many, old(self)@, m@)->Ok_0),
                Err(e) => staged(table@, def@, Mode::Many, old(self)@, m@) == Err::<
                    ChangeV,
                    CatalogErrorV,
                >(e@) && final(self)@ == old(self)@,
            },
    {
        self.stage(table, def, Mode::Many, m)
    }

    /// Stage the removal of a row.
    pub fn delete(&mut self, table: &str, def: &TableDef, pk_key: Vec<u8>, row: Keyed) -> (r: Result<
        (),
    >)
        requires
            row.keys@.len() == def@.indexes.len(),
        ensures
            ({
                let m = removal(def@.indexes.len(), pk_key@, row@);
                match r {
                    Ok(_) => staged(table@, def@, Mode::Many, old(self)@, m) is Ok && final(self)@
                        == old(self)@.push(staged(table@, def@, Mode::Many, old(self)@, m)->Ok_0),
                    Err(e) => staged(table@, def@, Mode::Many, old(self)@, m) == Err::<
                        ChangeV,
                        CatalogErrorV,
                    >(e@) && final(self)@ == old(self)@,
                }
            }),
    {
        let mut taken: Vec<bool> = Vec::new();
        let mut i: usize = 0;
        assert(def@.indexes.len() == def.indexes@.len());
        while i < def.indexes.len()
            invariant
                i <= def.indexes@.len(),
                taken@.len() == i,
                forall|j: int| 0 <= j < i ==> !(#[trigger] taken@[j]),
            decreases def.indexes@.len() - i,
        {
            taken.push(false);
            i = i + 1;
        }
        let m = Move { pk_key, old: Some(row), new: None, taken, bytes: Ok(Vec::new()) };
        assert(m@ =~= removal(def@.indexes.len(), pk_key@, row@)) by {
            assert(m@.taken =~= Seq::new(def@.indexes.len(), |j: int| false));
            assert(m@.bytes == Ok::<Seq<u8>, TypeError>(Seq::empty()));
        }
        self.stage(table, def, Mode::Many, m)
    }

    fn index_clashes(&self, i: usize) -> (r: bool)
        ensures
            r == clashes(self@, i as nat),
    {
        let ghost cs = self@;
        let mut c: usize = 0;
        while c < self.changes.len()
            invariant
                c <= self.changes@.len(),
                cs == views(self.changes@),
                cs == self@,
                forall|a: int, b: int| 0 <= a < c ==> !#[trigger] clashes_at(cs, i as nat, a, b),
            decreases self.changes@.len() - c,
        {
            assert(cs[c as int] == self.changes@[c as int]@);
            let ds = &self.changes[c].deltas;
            let mut d: usize = 0;
            while d < ds.len()
                invariant
                    c < self.changes@.len(),
                    d <= ds@.len(),
                    cs == views(self.changes@),
                    cs == self@,
                    cs[c as int].deltas == views(ds@),
                    forall|b: int| 0 <= b < d ==> !#[trigger] clashes_at(cs, i as nat, c as int, b),
                decreases ds@.len() - d,
            {
                assert(cs[c as int].deltas[d as int] == ds@[d as int]@);
                if ds[d].index == i && ds[d].taken {
                    if let Some(e) = &ds[d].new {
                        if !self.is_leaving(i, &e.key) {
                            assert(clashes_at(cs, i as nat, c as int, d as int));
                            return true;
                        }
                    }
                }
                d = d + 1;
            }
            c = c + 1;
        }
        false
    }

    /// When all rows of an update of many are staged: a new unique key that hits a
    /// committed entry is a violation unless that entry is one that this batch
    /// removes (a value moving between rows).
    pub fn settle(&self, table: &str, def: &TableDef) -> (r: Result<()>)
        ensures
            passes(r, clash_error(table@, def@, self@, 0)),
    {
        let ghost t = def@;
        let mut i: usize = 0;
        assert(t.indexes.len() == def.indexes@.len());
        while i < def.indexes.len()
            invariant
                i <= def.indexes@.len(),
                t == def@,
                t.indexes.len() == def.indexes@.len(),
                clash_error(table@, t, self@, 0) == clash_error(table@, t, self@, i as int),
            decreases def.indexes@.len() - i,
        {
            assert(t.indexes[i as int] == def.indexes@[i as int]@);
            if def.indexes[i].unique && self.index_clashes(i) {
                return Err(
                    CatalogError::UniqueViolation {
                        table: table.to_owned(),
                        index: def.indexes[i].name.clone(),
                    },
                );
            }
            i = i + 1;
        }
        Ok(())
    }
}

/// The removal of a row.
pub open spec fn removal(n: nat, pk: Seq<u8>, row: KeyedV) -> MoveV {
    MoveV {
        pk_key: pk,
        old: Some(row),
        new: None,
        taken: Seq::new(n, |i: int| false),
        bytes: Ok(Seq::empty()),
    }
}

/// Deltas behind those found already.
spec fn behind(done: Seq<DeltaV>, rest: Res<Seq<DeltaV>>) -> Res<Seq<DeltaV>> {
    match rest {
        Ok(s) => Ok(done + s),
        Err(e) => Err(e),
    }
}

proof fn lemma_behind_unit(r: Res<Seq<DeltaV>>)
    ensures
        behind(Seq::empty(), r) == r,
{
    if r is Ok {
        assert(Seq::empty() + r->Ok_0 =~= r->Ok_0);
    }
}

proof fn lemma_behind_step(done: Seq<DeltaV>, d: DeltaV, rest: Res<Seq<DeltaV>>)
    ensures
        rest is Ok ==> behind(done, Ok(seq![d] + rest->Ok_0)) == behind(done.push(d), rest),
{
    if rest is Ok {
        assert(done + (seq![d] + rest->Ok_0) =~= done.push(d) + rest->Ok_0);
    }
}

/// An entry is refused for its size exactly where the cell that it needs is larger than a
/// node can promise room for, and the refusal tells both sizes.
pub proof fn entries_are_refused_for_their_size_alone(key: Seq<u8>, value: Seq<u8>)
    ensures
        too_large(key, value) is None <==> cell_need(key, value) <= MAX_CELL,
        too_large(key, value) matches Some(e) ==> (e matches CatalogErrorV::BTree(
            BTreeError::EntryTooLarge { entry, max },
        ) && max == MAX_CELL && (cell_need(key, value) <= usize::MAX ==> entry == cell_need(
            key,
            value,
        ))),
{
}

} // verus!
