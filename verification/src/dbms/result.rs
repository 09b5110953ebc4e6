//! Result decoding: typed, by-name access to a query's output.
//!
//! [`Response`] wraps the wire-level result with a misuse-resistant read surface:
//! columns by name, rows as views, and typed cell accessors that separate null from
//! a wrong type or an unknown column.

use vstd::prelude::*;
use crate::common::error::{CategorizedError, ErrorCategory};
use crate::proto::result::QueryResult;
use crate::text::same;
use crate::value::{values, Value, ValueV};
use crate::views::views;

verus! {

/// A failure decoding a cell from a [`Response`].
#[derive(Debug, PartialEq, Eq)]
#[non_exhaustive]
pub enum DecodeError {
    /// No output column has this name.
    UnknownColumn(String),
    /// The cell is present and non-null but holds a different type.
    TypeMismatch {
        /// The column that was accessed.
        column: String,
        /// The type the accessor expected.
        expected: &'static str,
    },
}

impl CategorizedError for DecodeError {
    open spec fn category_of(&self) -> ErrorCategory {
        ErrorCategory::Validation
    }

    fn category(&self) -> ErrorCategory {
        // Misreading a result is a caller's mistake, not a data fault.
        ErrorCategory::Validation
    }
}

/// The position of the first of `names` that is `name`.
pub open spec fn name_at(names: Seq<Seq<char>>, name: Seq<char>) -> Option<int>
    decreases names.len(),
{
    if names.len() == 0 {
        None
    } else if names[0] == name {
        Some(0)
    } else {
        match name_at(names.drop_first(), name) {
            Some(i) => Some(i + 1),
            None => None,
        }
    }
}

proof fn lemma_name_at(names: Seq<Seq<char>>, name: Seq<char>)
    ensures
        match name_at(names, name) {
            Some(i) => 0 <= i < names.len() && names[i] == name && forall|j: int|
                0 <= j < i ==> #[trigger] names[j] != name,
            None => forall|j: int| 0 <= j < names.len() ==> #[trigger] names[j] != name,
        },
    decreases names.len(),
{
    if names.len() > 0 && names[0] != name {
        let rest = names.drop_first();
        lemma_name_at(rest, name);
        assert forall|j: int| 0 < j < names.len() implies #[trigger] names[j] == rest[j - 1] by {}
    }
}

fn find_name(names: &Vec<String>, name: &str) -> (r: Option<usize>)
    ensures
        match r {
            Some(i) => name_at(views(names@), name@) == Some(i as int) && i < names@.len(),
            None => name_at(views(names@), name@) is None,
        },
{
    let ghost vs = views(names@);
    proof {
        lemma_name_at(vs, name@);
    }
    let mut i: usize = 0;
    while i < names.len()
        invariant
            i <= names@.len(),
            vs == views(names@),
            forall|j: int| 0 <= j < i ==> #[trigger] vs[j] != name@,
            match name_at(vs, name@) {
                Some(k) => 0 <= k < vs.len() && vs[k] == name@ && forall|j: int|
                    0 <= j < k ==> #[trigger] vs[j] != name@,
                None => forall|j: int| 0 <= j < vs.len() ==> #[trigger] vs[j] != name@,
            },
        decreases names@.len() - i,
    {
        assert(vs[i as int] == names@[i as int]@);
        if same(names[i].as_str(), name) {
            return Some(i);
        }
        i = i + 1;
    }
    None
}

/// The outcome of a query: output columns, rows, and any write/pagination metadata.
#[derive(Debug, PartialEq, Eq)]
pub struct Response {
    /// The wire result.
    pub inner: QueryResult,
}

impl Response {
    /// Wrap a wire result.
    pub fn new(inner: QueryResult) -> (r: Self)
        ensures
            r.inner == inner,
    {
        Response { inner }
    }

    /// The output column names, in row order.
    pub fn columns(&self) -> (r: &Vec<String>)
        ensures
            *r == self.inner.columns,
    {
        &self.inner.columns
    }

    /// The position of a named column, if present.
    pub fn column_index(&self, name: &str) -> (r: Option<usize>)
        ensures
            match r {
                Some(i) => name_at(views(self.inner.columns@), name@) == Some(i as int),
                None => name_at(views(self.inner.columns@), name@) is None,
            },
    {
        find_name(&self.inner.columns, name)
    }

    /// The number of rows returned.
    pub fn len(&self) -> (r: usize)
        ensures
            r == self.inner.rows@.len(),
    {
        self.inner.rows.len()
    }

    /// Whether no rows were returned.
    pub fn is_empty(&self) -> (r: bool)
        ensures
            r == (self.inner.rows@.len() == 0),
    {
        self.inner.rows.len() == 0
    }

    /// The row at `index`, as a borrowing view.
    pub fn row(&self, index: usize) -> (r: Option<Row<'_>>)
        ensures
            match r {
                Some(row) => index < self.inner.rows@.len() && *row.columns == self.inner.columns
                    && *row.cells == self.inner.rows@[index as int],
                None => index >= self.inner.rows@.len(),
            },
    {
        if index < self.inner.rows.len() {
            Some(Row { columns: &self.inner.columns, cells: &self.inner.rows[index] })
        } else {
            None
        }
    }

    /// The rows as borrowing views.
    pub fn rows(&self) -> (r: Vec<Row<'_>>)
        ensures
            r@.len() == self.inner.rows@.len(),
            forall|i: int|
                0 <= i < r@.len() ==> *(#[trigger] r@[i]).columns == self.inner.columns
                    && *r@[i].cells == self.inner.rows@[i],
    {
        let mut out: Vec<Row<'_>> = Vec::new();
        let mut i: usize = 0;
        while i < self.inner.rows.len()
            invariant
                i <= self.inner.rows@.len(),
                out@.len() == i,
                forall|j: int|
                    0 <= j < i ==> *(#[trigger] out@[j]).columns == self.inner.columns
                        && *out@[j].cells == self.inner.rows@[j],
            decreases self.inner.rows@.len() - i,
        {
            out.push(Row { columns: &self.inner.columns, cells: &self.inner.rows[i] });
            i = i + 1;
        }
        out
    }

    /// The keyset continuation token, present when more pages remain.
    pub fn cursor(&self) -> (r: Option<&Vec<u8>>)
        ensures
            match r {
                Some(t) => self.inner.cursor == Some(*t),
                None => self.inner.cursor is None,
            },
    {
        match &self.inner.cursor {
            Some(t) => Some(t),
            None => None,
        }
    }

    /// Whether a guarded/conditional write applied (`None` for reads and
    /// unconditional writes).
    pub fn applied(&self) -> (r: Option<bool>)
        ensures
            r == self.inner.applied,
    {
        self.inner.applied
    }

    /// The number of rows a write changed (`None` for reads).
    pub fn affected(&self) -> (r: Option<u64>)
        ensures
            r == self.inner.affected,
    {
        self.inner.affected
    }

    /// Consume the response, yielding the underlying wire result.
    pub fn into_inner(self) -> (r: QueryResult)
        ensures
            r == self.inner,
    {
        self.inner
    }
}

/// A borrowing view of one result row: cells addressable by column name or position,
/// with typed accessors.
#[derive(Debug, Clone, Copy, PartialEq, Eq)]
pub struct Row<'a> {
    /// The column names.
    pub columns: &'a Vec<String>,
    /// The cells.
    pub cells: &'a Vec<Value>,
}

/// The cell of a named column, if there is such a column and the row has a cell for
/// it.
pub open spec fn cell_of(columns: Seq<Seq<char>>, cells: Seq<ValueV>, name: Seq<char>) -> Option<
    ValueV,
> {
    match name_at(columns, name) {
        Some(i) => if i < cells.len() {
            Some(cells[i])
        } else {
            None
        },
        None => None,
    }
}

/// The cell of a name is the one under the first column so called; there is none where no
/// column is called so or the row ends before it.
pub proof fn cells_are_read_by_name(
    columns: Seq<Seq<char>>,
    cells: Seq<ValueV>,
    name: Seq<char>,
    i: int,
)
    ensures
        0 <= i < columns.len() && columns[i] == name && (forall|j: int|
            0 <= j < i ==> #[trigger] columns[j] != name) ==> name_at(columns, name) == Some(i)
            && cell_of(columns, cells, name) == (if i < cells.len() {
            Some(cells[i])
        } else {
            None
        }),
        (forall|j: int| 0 <= j < columns.len() ==> #[trigger] columns[j] != name) ==> name_at(
            columns,
            name,
        ) is None && cell_of(columns, cells, name) is None,
{
    lemma_name_at(columns, name);
    if let Some(k) = name_at(columns, name) {
        assert(columns[k] == name);
    }
}

/// Why a cell could not be read, by what the error says.
pub open spec fn misread(r: DecodeError, column: Seq<char>, wanted: Option<Seq<char>>) -> bool {
    match (r, wanted) {
        (DecodeError::UnknownColumn(c), None) => c@ == column,
        (DecodeError::TypeMismatch { column: c, expected }, Some(w)) => c@ == column && expected@
            == w,
        _ => false,
    }
}

fn mismatch(column: &str, expected: &'static str) -> (r: DecodeError)
    ensures
        misread(r, column@, Some(expected@)),
{
    DecodeError::TypeMismatch { column: column.to_owned(), expected }
}

impl<'a> Row<'a> {
    /// The cell of a named column.
    pub open spec fn named(self, column: Seq<char>) -> Option<ValueV> {
        cell_of(views(self.columns@), values(self.cells@), column)
    }

    /// The raw cell for a named column, or `None` if the column is unknown.
    pub fn get(&self, column: &str) -> (r: Option<&'a Value>)
        ensures
            match r {
                Some(v) => self.named(column@) == Some(v@),
                None => self.named(column@) is None,
            },
    {
        match find_name(self.columns, column) {
            Some(i) => if i < self.cells.len() {
                assert(values(self.cells@)[i as int] == self.cells@[i as int]@);
                Some(&self.cells[i])
            } else {
                None
            },
            None => None,
        }
    }

    /// The raw cell at `index`.
    pub fn at(&self, index: usize) -> (r: Option<&'a Value>)
        ensures
            match r {
                Some(v) => index < self.cells@.len() && *v == self.cells@[index as int],
                None => index >= self.cells@.len(),
            },
    {
        if index < self.cells.len() {
            Some(&self.cells[index])
        } else {
            None
        }
    }

    /// All cells in column order.
    pub fn values(&self) -> (r: &'a Vec<Value>)
        ensures
            *r == *self.cells,
    {
        self.cells
    }

    fn cell(&self, column: &str) -> (r: Result<&'a Value, DecodeError>)
        ensures
            match r {
                Ok(v) => self.named(column@) == Some(v@),
                Err(e) => self.named(column@) is None && misread(e, column@, None),
            },
    {
        match self.get(column) {
            Some(v) => Ok(v),
            None => Err(DecodeError::UnknownColumn(column.to_owned())),
        }
    }

    /// An `i64` cell: `Ok(None)` for null, `Err` for an unknown column or a
    /// non-integer value.
    pub fn get_i64(&self, column: &str) -> (r: Result<Option<i64>, DecodeError>)
        ensures
            match self.named(column@) {
                None => r is Err && misread(r->Err_0, column@, None),
                Some(ValueV::Null) => r is Ok && r->Ok_0 is None,
                Some(ValueV::I64(n)) => r is Ok && r->Ok_0 == Some(n),
                Some(_) => r is Err && misread(r->Err_0, column@, Some("i64"@)),
            },
    {
        match self.cell(column) {
            Err(e) => Err(e),
            Ok(v) => match v {
                Value::Null => Ok(None),
                Value::I64(n) => Ok(Some(*n)),
                _ => Err(mismatch(column, "i64")),
            },
        }
    }

    /// A float cell, by its bits: `Ok(None)` for null, `Err` for an unknown column or
    /// a non-float value.
    pub fn get_f64(&self, column: &str) -> (r: Result<Option<u64>, DecodeError>)
        ensures
            match self.named(column@) {
                None => r is Err && misread(r->Err_0, column@, None),
                Some(ValueV::Null) => r is Ok && r->Ok_0 is None,
                Some(ValueV::F64(n)) => r is Ok && r->Ok_0 == Some(n),
                Some(_) => r is Err && misread(r->Err_0, column@, Some("f64"@)),
            },
    {
        match self.cell(column) {
            Err(e) => Err(e),
            Ok(v) => match v {
                Value::Null => Ok(None),
                Value::F64(n) => Ok(Some(*n)),
                _ => Err(mismatch(column, "f64")),
            },
        }
    }

    /// A `bool` cell: `Ok(None)` for null, `Err` for an unknown column or a
    /// non-boolean value.
    pub fn get_bool(&self, column: &str) -> (r: Result<Option<bool>, DecodeError>)
        ensures
            match self.named(column@) {
                None => r is Err && misread(r->Err_0, column@, None),
                Some(ValueV::Null) => r is Ok && r->Ok_0 is None,
                Some(ValueV::Bool(b)) => r is Ok && r->Ok_0 == Some(b),
                Some(_) => r is Err && misread(r->Err_0, column@, Some("bool"@)),
            },
    {
        match self.cell(column) {
            Err(e) => Err(e),
            Ok(v) => match v {
                Value::Null => Ok(None),
                Value::Bool(b) => Ok(Some(*b)),
                _ => Err(mismatch(column, "bool")),
            },
        }
    }

    /// A `text` cell: `Ok(None)` for null, `Err` for an unknown column or a non-text
    /// value.
    pub fn get_text(&self, column: &str) -> (r: Result<Option<&'a str>, DecodeError>)
        ensures
            match self.named(column@) {
                None => r is Err && misread(r->Err_0, column@, None),
                Some(ValueV::Null) => r is Ok && r->Ok_0 is None,
                Some(ValueV::Text(s)) => r is Ok && r->Ok_0 is Some && r->Ok_0->Some_0@ == s,
                Some(_) => r is Err && misread(r->Err_0, column@, Some("text"@)),
            },
    {
        match self.cell(column) {
            Err(e) => Err(e),
            Ok(v) => match v {
                Value::Null => Ok(None),
                Value::Text(s) => Ok(Some(s.as_str())),
                _ => Err(mismatch(column, "text")),
            },
        }
    }
}

} // verus!
