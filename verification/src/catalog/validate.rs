//! The rules that a table definition must keep.

use vstd::prelude::*;
use super::check::{checks_error, validate_checks};
use super::error::{invalid, invalid_v, passes, CatalogError, CatalogErrorV, Result};
use super::schema::{
    column_at, ColumnDef, ColumnV, DefaultSpec, DefaultV, IndexDef, IndexV, TableDef, TableV,
};
use crate::text::same;
use crate::value::{TypeError, TypeKind, Value, ValueV};
use crate::views::{opt, views};

verus! {

/// The rule that a column's default breaks, if it breaks one. `json` is the
/// error of a JSON default that is not well-formed.
pub open spec fn default_error(c: ColumnV, json: Option<TypeError>) -> Option<CatalogErrorV> {
    match c.default {
        None => None,
        Some(DefaultV::Now) => if c.kind != TypeKind::Timestamp {
            Some(invalid_v("default now requires a timestamp column"@))
        } else {
            None
        },
        Some(DefaultV::UuidV7) => if c.kind != TypeKind::Uuid {
            Some(invalid_v("default uuid_v7 requires a uuid column"@))
        } else {
            None
        },
        Some(DefaultV::Value(v)) => match v.kind() {
            None => if !c.nullable {
                Some(invalid_v("default null on a not-null column"@))
            } else {
                None
            },
            Some(kind) => if kind != c.kind {
                Some(invalid_v("default value kind does not match the column"@))
            } else if v is Json {
                match json {
                    Some(e) => Some(CatalogErrorV::Type(e)),
                    None => None,
                }
            } else {
                None
            },
        },
    }
}

/// Whether a name is that of one of the first `n` columns.
pub open spec fn named_before(columns: Seq<ColumnV>, n: int, name: Seq<char>) -> bool {
    exists|j: int| 0 <= j < n && (#[trigger] columns[j]).name == name
}

/// The rule that column `i` breaks, if it breaks one.
pub open spec fn column_error(columns: Seq<ColumnV>, i: int, json: Option<TypeError>) -> Option<
    CatalogErrorV,
> {
    let c = columns[i];
    if c.name.len() == 0 {
        Some(invalid_v("column names must not be empty"@))
    } else if named_before(columns, i, c.name) {
        Some(invalid_v("duplicate column name"@))
    } else if c.auto_increment && c.kind != TypeKind::I64 {
        Some(invalid_v("auto_increment requires an i64 column"@))
    } else if c.rowversion && c.kind != TypeKind::I64 {
        Some(invalid_v("rowversion requires an i64 column"@))
    } else if c.rowversion && (c.auto_increment || c.default is Some || c.on_update_now) {
        Some(invalid_v("a rowversion column is engine-managed only"@))
    } else if c.on_update_now && c.kind != TypeKind::Timestamp {
        Some(invalid_v("on_update: now requires a timestamp column"@))
    } else {
        default_error(c, json)
    }
}

/// The first rule that the columns from `i` on break, if they break one.
pub open spec fn columns_error(
    columns: Seq<ColumnV>,
    i: int,
    json: Seq<Option<TypeError>>,
) -> Option<CatalogErrorV>
    decreases columns.len() - i,
{
    if i < 0 || i >= columns.len() {
        None
    } else {
        match column_error(columns, i, json[i]) {
            Some(e) => Some(e),
            None => columns_error(columns, i + 1, json),
        }
    }
}

/// How many of the first `n` columns are auto-increment.
pub open spec fn autos(columns: Seq<ColumnV>, n: nat) -> nat
    decreases n,
{
    if n == 0 || n > columns.len() {
        0
    } else {
        autos(columns, (n - 1) as nat) + if columns[n - 1].auto_increment {
            1nat
        } else {
            0nat
        }
    }
}

/// How many of the first `n` columns are row versions.
pub open spec fn versions(columns: Seq<ColumnV>, n: nat) -> nat
    decreases n,
{
    if n == 0 || n > columns.len() {
        0
    } else {
        versions(columns, (n - 1) as nat) + if columns[n - 1].rowversion {
            1nat
        } else {
            0nat
        }
    }
}

/// Whether a name is one of the first `n` of a list.
pub open spec fn listed_before(names: Seq<Seq<char>>, n: int, name: Seq<char>) -> bool {
    exists|j: int| 0 <= j < n && #[trigger] names[j] == name
}

/// The first rule that the primary-key columns from `i` on break.
pub open spec fn key_error(t: TableV, i: int) -> Option<CatalogErrorV>
    decreases t.pk.len() - i,
{
    if i < 0 || i >= t.pk.len() {
        None
    } else if listed_before(t.pk, i, t.pk[i]) {
        Some(invalid_v("duplicate primary-key column"@))
    } else {
        match column_at(t.columns, t.pk[i]) {
            None => Some(CatalogErrorV::UnknownColumn { table: t.name, column: t.pk[i] }),
            Some(c) => if t.columns[c].kind == TypeKind::Json {
                Some(invalid_v("json columns cannot be key components"@))
            } else if t.columns[c].rowversion {
                Some(invalid_v("a rowversion column cannot be a primary key"@))
            } else {
                key_error(t, i + 1)
            },
        }
    }
}

/// The first rule that the columns of an index from `j` on break.
pub open spec fn indexed_error(t: TableV, columns: Seq<Seq<char>>, j: int) -> Option<CatalogErrorV>
    decreases columns.len() - j,
{
    if j < 0 || j >= columns.len() {
        None
    } else if listed_before(columns, j, columns[j]) {
        Some(invalid_v("duplicate column within an index"@))
    } else {
        match column_at(t.columns, columns[j]) {
            None => Some(CatalogErrorV::UnknownColumn { table: t.name, column: columns[j] }),
            Some(c) => if t.columns[c].kind == TypeKind::Json {
                Some(invalid_v("json columns cannot be indexed"@))
            } else {
                indexed_error(t, columns, j + 1)
            },
        }
    }
}

/// Whether one of the first `n` indexes has this name.
pub open spec fn index_before(indexes: Seq<IndexV>, n: int, name: Seq<char>) -> bool {
    exists|j: int| 0 <= j < n && (#[trigger] indexes[j]).name == name
}

/// The first rule that the indexes from `i` on break.
pub open spec fn indexes_error(t: TableV, i: int) -> Option<CatalogErrorV>
    decreases t.indexes.len() - i,
{
    if i < 0 || i >= t.indexes.len() {
        None
    } else {
        let index = t.indexes[i];
        if index.name.len() == 0 {
            Some(invalid_v("index names must not be empty"@))
        } else if index_before(t.indexes, i, index.name) {
            Some(invalid_v("duplicate index name"@))
        } else if index.columns.len() == 0 {
            Some(invalid_v("an index needs at least one column"@))
        } else {
            match indexed_error(t, index.columns, 0) {
                Some(e) => Some(e),
                None => indexes_error(t, i + 1),
            }
        }
    }
}

/// The first rule that a definition breaks, if it breaks one. `json` holds, for
/// each column, the error of a JSON default that is not well-formed.
pub open spec fn table_error(t: TableV, json: Seq<Option<TypeError>>) -> Option<CatalogErrorV> {
    if t.name.len() == 0 {
        Some(invalid_v("table name must not be empty"@))
    } else if t.columns.len() == 0 {
        Some(invalid_v("a table needs at least one column"@))
    } else {
        match columns_error(t.columns, 0, json) {
            Some(e) => Some(e),
            None => if autos(t.columns, t.columns.len()) > 1 {
                Some(invalid_v("at most one auto_increment column per table"@))
            } else if versions(t.columns, t.columns.len()) > 1 {
                Some(invalid_v("at most one rowversion column per table"@))
            } else if t.pk.len() == 0 {
                Some(invalid_v("every table requires a primary key"@))
            } else {
                match key_error(t, 0) {
                    Some(e) => Some(e),
                    None => match checks_error(t.checks, t, 0) {
                        Some(e) => Some(e),
                        None => indexes_error(t, 0),
                    },
                }
            },
        }
    }
}

fn is_empty(s: &String) -> (r: bool)
    ensures
        r == (s@.len() == 0),
{
    proof {
        reveal_strlit("");
        assert(""@ =~= Seq::empty());
        if s@.len() == 0 {
            assert(s@ =~= Seq::empty());
        }
    }
    same(s.as_str(), "")
}

fn check_default(c: &ColumnDef, json: &Option<TypeError>) -> (r: Result<()>)
    ensures
        passes(r, default_error(c@, *json)),
{
    match &c.default {
        None => Ok(()),
        Some(d) => match d {
            DefaultSpec::Now => if c.kind != TypeKind::Timestamp {
                Err(invalid("default now requires a timestamp column"))
            } else {
                Ok(())
            },
            DefaultSpec::UuidV7 => if c.kind != TypeKind::Uuid {
                Err(invalid("default uuid_v7 requires a uuid column"))
            } else {
                Ok(())
            },
            DefaultSpec::Value(v) => match v.kind() {
                None => if !c.nullable {
                    Err(invalid("default null on a not-null column"))
                } else {
                    Ok(())
                },
                Some(kind) => if kind != c.kind {
                    Err(invalid("default value kind does not match the column"))
                } else {
                    match v {
                        Value::Json(_) => match json {
                            Some(e) => Err(CatalogError::Type(e.copy())),
                            None => Ok(()),
                        },
                        _ => Ok(()),
                    }
                },
            },
        },
    }
}

fn check_column(columns: &Vec<ColumnDef>, i: usize, json: &Option<TypeError>) -> (r: Result<()>)
    requires
        i < columns@.len(),
    ensures
        passes(r, column_error(views(columns@), i as int, *json)),
{
    let c = &columns[i];
    let ghost vs = views(columns@);
    assert(vs[i as int] == c@);
    if is_empty(&c.name) {
        return Err(invalid("column names must not be empty"));
    }
    let mut j: usize = 0;
    while j < i
        invariant
            j <= i < columns@.len(),
            vs == views(columns@),
            c@ == vs[i as int],
            forall|k: int| 0 <= k < j ==> (#[trigger] vs[k]).name != c@.name,
            c@.name.len() != 0,
        decreases i - j,
    {
        assert(vs[j as int] == columns@[j as int]@);
        if same(columns[j].name.as_str(), c.name.as_str()) {
            assert(named_before(vs, i as int, c@.name));
            return Err(invalid("duplicate column name"));
        }
        j = j + 1;
    }
    assert(!named_before(vs, i as int, c@.name));
    if c.auto_increment && c.kind != TypeKind::I64 {
        return Err(invalid("auto_increment requires an i64 column"));
    }
    if c.rowversion && c.kind != TypeKind::I64 {
        return Err(invalid("rowversion requires an i64 column"));
    }
    if c.rowversion && (c.auto_increment || c.default.is_some() || c.on_update_now) {
        return Err(invalid("a rowversion column is engine-managed only"));
    }
    if c.on_update_now && c.kind != TypeKind::Timestamp {
        return Err(invalid("on_update: now requires a timestamp column"));
    }
    check_default(c, json)
}

fn check_columns(columns: &Vec<ColumnDef>, json: &Vec<Option<TypeError>>) -> (r: Result<()>)
    requires
        json@.len() == columns@.len(),
    ensures
        passes(r, columns_error(views(columns@), 0, json@)),
{
    let ghost vs = views(columns@);
    let mut i: usize = 0;
    while i < columns.len()
        invariant
            i <= columns@.len(),
            json@.len() == columns@.len(),
            vs == views(columns@),
            columns_error(vs, 0, json@) == columns_error(vs, i as int, json@),
        decreases columns@.len() - i,
    {
        match check_column(columns, i, &json[i]) {
            Ok(_) => {},
            Err(e) => {
                return Err(e);
            },
        }
        i = i + 1;
    }
    Ok(())
}

fn count_marked(columns: &Vec<ColumnDef>) -> (r: (usize, usize))
    ensures
        r.0 == autos(views(columns@), columns@.len()),
        r.1 == versions(views(columns@), columns@.len()),
{
    let ghost vs = views(columns@);
    let mut auto_count: usize = 0;
    let mut version_count: usize = 0;
    let mut i: usize = 0;
    while i < columns.len()
        invariant
            i <= columns@.len(),
            vs == views(columns@),
            auto_count <= i,
            version_count <= i,
            auto_count == autos(vs, i as nat),
            version_count == versions(vs, i as nat),
        decreases columns@.len() - i,
    {
        assert(vs[i as int] == columns@[i as int]@);
        if columns[i].auto_increment {
            auto_count = auto_count + 1;
        }
        if columns[i].rowversion {
            version_count = version_count + 1;
        }
        i = i + 1;
    }
    (auto_count, version_count)
}

fn repeats(names: &Vec<String>, i: usize) -> (r: bool)
    requires
        i < names@.len(),
    ensures
        r == listed_before(views(names@), i as int, views(names@)[i as int]),
{
    let ghost vs = views(names@);
    let mut j: usize = 0;
    while j < i
        invariant
            j <= i < names@.len(),
            vs == views(names@),
            forall|k: int| 0 <= k < j ==> #[trigger] vs[k] != vs[i as int],
        decreases i - j,
    {
        assert(vs[j as int] == names@[j as int]@ && vs[i as int] == names@[i as int]@);
        if same(names[j].as_str(), names[i].as_str()) {
            assert(vs[j as int] == vs[i as int]);
            return true;
        }
        j = j + 1;
    }
    false
}

fn unknown(table: &TableDef, column: &str) -> (r: CatalogError)
    ensures
        r@ == (CatalogErrorV::UnknownColumn { table: table@.name, column: column@ }),
{
    CatalogError::UnknownColumn { table: table.name.clone(), column: column.to_owned() }
}

fn check_key(t: &TableDef) -> (r: Result<()>)
    ensures
        passes(r, key_error(t@, 0)),
{
    let mut i: usize = 0;
    while i < t.pk.len()
        invariant
            i <= t.pk@.len(),
            key_error(t@, 0) == key_error(t@, i as int),
        decreases t.pk@.len() - i,
    {
        assert(t@.pk[i as int] == t.pk@[i as int]@);
        if repeats(&t.pk, i) {
            return Err(invalid("duplicate primary-key column"));
        }
        match t.col_index(t.pk[i].as_str()) {
            None => {
                return Err(unknown(t, t.pk[i].as_str()));
            },
            Some(c) => {
                assert(t@.columns[c as int] == t.columns@[c as int]@);
                if t.columns[c].kind == TypeKind::Json {
                    return Err(invalid("json columns cannot be key components"));
                }
                if t.columns[c].rowversion {
                    return Err(invalid("a rowversion column cannot be a primary key"));
                }
            },
        }
        i = i + 1;
    }
    Ok(())
}

fn check_indexed(t: &TableDef, columns: &Vec<String>) -> (r: Result<()>)
    ensures
        passes(r, indexed_error(t@, views(columns@), 0)),
{
    let ghost vs = views(columns@);
    let mut j: usize = 0;
    while j < columns.len()
        invariant
            j <= columns@.len(),
            vs == views(columns@),
            indexed_error(t@, vs, 0) == indexed_error(t@, vs, j as int),
        decreases columns@.len() - j,
    {
        assert(vs[j as int] == columns@[j as int]@);
        if repeats(columns, j) {
            return Err(invalid("duplicate column within an index"));
        }
        match t.col_index(columns[j].as_str()) {
            None => {
                return Err(unknown(t, columns[j].as_str()));
            },
            Some(c) => {
                assert(t@.columns[c as int] == t.columns@[c as int]@);
                if t.columns[c].kind == TypeKind::Json {
                    return Err(invalid("json columns cannot be indexed"));
                }
            },
        }
        j = j + 1;
    }
    Ok(())
}

fn index_repeats(indexes: &Vec<IndexDef>, i: usize) -> (r: bool)
    requires
        i < indexes@.len(),
    ensures
        r == index_before(views(indexes@), i as int, views(indexes@)[i as int].name),
{
    let ghost vs = views(indexes@);
    let mut j: usize = 0;
    while j < i
        invariant
            j <= i < indexes@.len(),
            vs == views(indexes@),
            forall|k: int| 0 <= k < j ==> (#[trigger] vs[k]).name != vs[i as int].name,
        decreases i - j,
    {
        assert(vs[j as int] == indexes@[j as int]@ && vs[i as int] == indexes@[i as int]@);
        if same(indexes[j].name.as_str(), indexes[i].name.as_str()) {
            assert(vs[j as int].name == vs[i as int].name);
            return true;
        }
        j = j + 1;
    }
    false
}

fn check_indexes(t: &TableDef) -> (r: Result<()>)
    ensures
        passes(r, indexes_error(t@, 0)),
{
    let mut i: usize = 0;
    while i < t.indexes.len()
        invariant
            i <= t.indexes@.len(),
            indexes_error(t@, 0) == indexes_error(t@, i as int),
        decreases t.indexes@.len() - i,
    {
        let index = &t.indexes[i];
        assert(t@.indexes[i as int] == index@);
        if is_empty(&index.name) {
            return Err(invalid("index names must not be empty"));
        }
        if index_repeats(&t.indexes, i) {
            return Err(invalid("duplicate index name"));
        }
        assert(index@.columns.len() == index.columns@.len());
        if index.columns.len() == 0 {
            return Err(invalid("an index needs at least one column"));
        }
        match check_indexed(t, &index.columns) {
            Ok(_) => {},
            Err(e) => {
                return Err(e);
            },
        }
        i = i + 1;
    }
    Ok(())
}

impl TableDef {
    /// The JSON defaults of the columns, by column, for the value layer to check.
    pub fn json_defaults(&self) -> (r: Vec<Option<Vec<u8>>>)
        ensures
            r@.len() == self@.columns.len(),
            forall|i: int|
                0 <= i < r@.len() ==> opt(#[trigger] r@[i]) == json_default(self@.columns[i]),
    {
        let ghost vs = self@.columns;
        let mut out: Vec<Option<Vec<u8>>> = Vec::new();
        let mut i: usize = 0;
        while i < self.columns.len()
            invariant
                i <= self.columns@.len(),
                vs == views(self.columns@),
                out@.len() == i,
                forall|k: int| 0 <= k < i ==> opt(#[trigger] out@[k]) == json_default(vs[k]),
            decreases self.columns@.len() - i,
        {
            assert(vs[i as int] == self.columns@[i as int]@);
            let doc = match &self.columns[i].default {
                Some(d) => match d {
                    DefaultSpec::Value(v) => match v {
                        Value::Json(doc) => Some(crate::bytes::to_vec(doc.as_slice())),
                        _ => None,
                    },
                    _ => None,
                },
                None => None,
            };
            out.push(doc);
            i = i + 1;
        }
        out
    }

    /// Validate the definition: a primary key, no duplicate columns, and the
    /// typing rules of each feature. `json` holds, for each column, the value
    /// layer's error on its JSON default, if it has one that is not well-formed.
    pub fn validate(&self, json: &Vec<Option<TypeError>>) -> (r: Result<()>)
        requires
            json@.len() == self@.columns.len(),
        ensures
            passes(r, table_error(self@, json@)),
    {
        if is_empty(&self.name) {
            return Err(invalid("table name must not be empty"));
        }
        assert(self@.columns.len() == self.columns@.len());
        assert(self@.pk.len() == self.pk@.len());
        if self.columns.len() == 0 {
            return Err(invalid("a table needs at least one column"));
        }
        match check_columns(&self.columns, json) {
            Ok(_) => {},
            Err(e) => {
                return Err(e);
            },
        }
        let (auto_count, version_count) = count_marked(&self.columns);
        if auto_count > 1 {
            return Err(invalid("at most one auto_increment column per table"));
        }
        if version_count > 1 {
            return Err(invalid("at most one rowversion column per table"));
        }
        if self.pk.len() == 0 {
            return Err(invalid("every table requires a primary key"));
        }
        match check_key(self) {
            Ok(_) => {},
            Err(e) => {
                return Err(e);
            },
        }
        match validate_checks(&self.checks, self, 0) {
            Ok(_) => {},
            Err(e) => {
                return Err(e);
            },
        }
        check_indexes(self)
    }
}

/// The document of a column whose default is one.
pub open spec fn json_default(c: ColumnV) -> Option<Seq<u8>> {
    match c.default {
        Some(DefaultV::Value(ValueV::Json(doc))) => Some(doc),
        _ => None,
    }
}

} // verus!
