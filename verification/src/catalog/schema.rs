//! The schema model: tables, columns, constraints, defaults, generators, update
//! policies.

use vstd::prelude::*;
use vstd::string::StringExecFns;
use crate::text::same;
use crate::value::{TypeKind, Value, ValueV};
use crate::views::{opt, views};

verus! {

/// Per-column update policy: a blind absolute set on a guarded column is
/// rejected by the validator.
#[derive(Debug, Clone, Copy, PartialEq, Eq, Structural)]
pub enum UpdatePolicy {
    /// A plain absolute set is allowed (last-write-wins).
    Free,
    /// Only relative or guard-carrying updates are allowed.
    Guarded,
}

/// A column default: a constant value or a generator.
#[derive(Debug, Clone, PartialEq, Eq)]
pub enum DefaultSpec {
    /// A constant value (type-checked against the column at DDL time).
    Value(Value),
    /// The current timestamp (`now`).
    Now,
    /// A fresh time-ordered UUID (`uuid_v7`).
    UuidV7,
}

/// What a [`DefaultSpec`] says.
#[verifier::ext_equal]
pub enum DefaultV {
    Value(ValueV),
    Now,
    UuidV7,
}

impl View for DefaultSpec {
    type V = DefaultV;

    open spec fn view(&self) -> DefaultV {
        match self {
            DefaultSpec::Value(v) => DefaultV::Value(v@),
            DefaultSpec::Now => DefaultV::Now,
            DefaultSpec::UuidV7 => DefaultV::UuidV7,
        }
    }
}

/// One column definition.
#[derive(Debug, Clone, PartialEq, Eq)]
pub struct ColumnDef {
    /// The column name (unique within the table).
    pub name: String,
    /// The declared type.
    pub kind: TypeKind,
    /// `false` = NOT NULL. Primary-key columns are not-null regardless.
    pub nullable: bool,
    /// UNIQUE constraint.
    pub unique: bool,
    /// Applied when the column is omitted on insert.
    pub default: Option<DefaultSpec>,
    /// Engine-assigned ascending integer key (requires `i64`).
    pub auto_increment: bool,
    /// Engine-incremented version counter (requires `i64`; engine-managed).
    pub rowversion: bool,
    /// Refreshed to the current timestamp on every update (requires `timestamp`;
    /// engine-managed; also stamped on insert).
    pub on_update_now: bool,
    /// The update policy.
    pub update: UpdatePolicy,
}

/// What a [`ColumnDef`] says.
#[verifier::ext_equal]
pub struct ColumnV {
    pub name: Seq<char>,
    pub kind: TypeKind,
    pub nullable: bool,
    pub unique: bool,
    pub default: Option<DefaultV>,
    pub auto_increment: bool,
    pub rowversion: bool,
    pub on_update_now: bool,
    pub update: UpdatePolicy,
}

impl View for ColumnDef {
    type V = ColumnV;

    open spec fn view(&self) -> ColumnV {
        ColumnV {
            name: self.name@,
            kind: self.kind,
            nullable: self.nullable,
            unique: self.unique,
            default: opt(self.default),
            auto_increment: self.auto_increment,
            rowversion: self.rowversion,
            on_update_now: self.on_update_now,
            update: self.update,
        }
    }
}

impl ColumnDef {
    /// A plain nullable column of `kind` with policy `free` and no constraints.
    pub fn new(name: &str, kind: TypeKind) -> (r: Self)
        ensures
            r@ == (ColumnV {
                name: name@,
                kind,
                nullable: true,
                unique: false,
                default: None,
                auto_increment: false,
                rowversion: false,
                on_update_now: false,
                update: UpdatePolicy::Free,
            }),
    {
        ColumnDef {
            name: name.to_owned(),
            kind,
            nullable: true,
            unique: false,
            default: None,
            auto_increment: false,
            rowversion: false,
            on_update_now: false,
            update: UpdatePolicy::Free,
        }
    }

    /// Mark NOT NULL.
    pub fn not_null(self) -> (r: Self)
        ensures
            r@ == (ColumnV { nullable: false, ..self@ }),
    {
        let mut c = self;
        c.nullable = false;
        c
    }

    /// Mark UNIQUE.
    pub fn unique(self) -> (r: Self)
        ensures
            r@ == (ColumnV { unique: true, ..self@ }),
    {
        let mut c = self;
        c.unique = true;
        c
    }

    /// Set a constant default.
    pub fn default_value(self, value: Value) -> (r: Self)
        ensures
            r@ == (ColumnV { default: Some(DefaultV::Value(value@)), ..self@ }),
    {
        let mut c = self;
        c.default = Some(DefaultSpec::Value(value));
        c
    }

    /// Default to the current timestamp.
    pub fn default_now(self) -> (r: Self)
        ensures
            r@ == (ColumnV { default: Some(DefaultV::Now), ..self@ }),
    {
        let mut c = self;
        c.default = Some(DefaultSpec::Now);
        c
    }

    /// Default to a fresh UUIDv7.
    pub fn default_uuid_v7(self) -> (r: Self)
        ensures
            r@ == (ColumnV { default: Some(DefaultV::UuidV7), ..self@ }),
    {
        let mut c = self;
        c.default = Some(DefaultSpec::UuidV7);
        c
    }

    /// Mark auto-increment.
    pub fn auto_increment(self) -> (r: Self)
        ensures
            r@ == (ColumnV { auto_increment: true, ..self@ }),
    {
        let mut c = self;
        c.auto_increment = true;
        c
    }

    /// Mark as the table's rowversion column.
    pub fn rowversion(self) -> (r: Self)
        ensures
            r@ == (ColumnV { rowversion: true, ..self@ }),
    {
        let mut c = self;
        c.rowversion = true;
        c
    }

    /// Refresh to `now` on every update.
    pub fn on_update_now(self) -> (r: Self)
        ensures
            r@ == (ColumnV { on_update_now: true, ..self@ }),
    {
        let mut c = self;
        c.on_update_now = true;
        c
    }

    /// Set the `guarded` update policy.
    pub fn guarded(self) -> (r: Self)
        ensures
            r@ == (ColumnV { update: UpdatePolicy::Guarded, ..self@ }),
    {
        let mut c = self;
        c.update = UpdatePolicy::Guarded;
        c
    }
}

/// A comparison operator in a [`CheckExpr`].
#[derive(Debug, Clone, Copy, PartialEq, Eq, Structural)]
pub enum CmpOp {
    /// `=`
    Eq,
    /// `≠`
    Ne,
    /// `<`
    Lt,
    /// `≤`
    Lte,
    /// `>`
    Gt,
    /// `≥`
    Gte,
}

/// A CHECK expression over the row: column-vs-literal comparisons with boolean
/// combinators.
///
/// Evaluation follows SQL three-valued logic: a NULL operand makes a comparison
/// unknown, and a CHECK is violated only when it evaluates to false — unknown
/// passes.
#[derive(Debug, PartialEq, Eq)]
#[allow(inconsistent_fields)]
pub enum CheckExpr {
    /// `column <op> literal`.
    Cmp {
        /// The column name.
        col: String,
        /// The comparison operator.
        op: CmpOp,
        /// The literal to compare against (same kind as the column).
        value: Value,
    },
    /// `column IS NULL`.
    IsNull {
        /// The column name.
        col: String,
    },
    /// `column IS NOT NULL`.
    IsNotNull {
        /// The column name.
        col: String,
    },
    /// Every operand true (3VL: false dominates, then unknown).
    And(Vec<CheckExpr>),
    /// Any operand true (3VL: true dominates, then unknown).
    Or(Vec<CheckExpr>),
    /// Logical negation (unknown stays unknown).
    Not(Box<CheckExpr>),
}

/// What a [`CheckExpr`] says.
#[verifier::ext_equal]
#[allow(inconsistent_fields)]
pub enum CheckV {
    Cmp { col: Seq<char>, op: CmpOp, value: ValueV },
    IsNull { col: Seq<char> },
    IsNotNull { col: Seq<char> },
    And(Seq<CheckV>),
    Or(Seq<CheckV>),
    Not(Box<CheckV>),
}

/// What a check says.
pub open spec fn check_view(c: CheckExpr) -> CheckV
    decreases c,
{
    match c {
        CheckExpr::Cmp { col, op, value } => CheckV::Cmp { col: col@, op, value: value@ },
        CheckExpr::IsNull { col } => CheckV::IsNull { col: col@ },
        CheckExpr::IsNotNull { col } => CheckV::IsNotNull { col: col@ },
        CheckExpr::And(items) => CheckV::And(
            Seq::new(
                items@.len(),
                |i: int|
                    if 0 <= i < items@.len() {
                        check_view(items@[i])
                    } else {
                        CheckV::And(Seq::empty())
                    },
            ),
        ),
        CheckExpr::Or(items) => CheckV::Or(
            Seq::new(
                items@.len(),
                |i: int|
                    if 0 <= i < items@.len() {
                        check_view(items@[i])
                    } else {
                        CheckV::And(Seq::empty())
                    },
            ),
        ),
        CheckExpr::Not(inner) => CheckV::Not(Box::new(check_view(*inner))),
    }
}

impl View for CheckExpr {
    type V = CheckV;

    open spec fn view(&self) -> CheckV {
        check_view(*self)
    }
}

impl CheckExpr {
    /// The view of a combinator is that of its parts.
    pub proof fn lemma_parts(&self)
        ensures
            self matches CheckExpr::And(items) ==> self@ == CheckV::And(views(items@)),
            self matches CheckExpr::Or(items) ==> self@ == CheckV::Or(views(items@)),
    {
        match self {
            CheckExpr::And(items) => {
                assert(self@->And_0 =~= views(items@));
            },
            CheckExpr::Or(items) => {
                assert(self@->Or_0 =~= views(items@));
            },
            _ => {},
        }
    }
}

/// One secondary-index definition.
///
/// A `unique` column on a table implicitly creates a single-column unique index
/// named [`implicit_index_name`]`(table, column)` — that index is the
/// constraint's enforcement and cannot be dropped directly.
#[derive(Debug, Clone, PartialEq, Eq)]
pub struct IndexDef {
    /// The index name (unique within its table).
    pub name: String,
    /// The indexed column names, in key order.
    pub columns: Vec<String>,
    /// Whether the indexed columns must be unique across rows.
    pub unique: bool,
}

/// What an [`IndexDef`] says.
#[verifier::ext_equal]
pub struct IndexV {
    pub name: Seq<char>,
    pub columns: Seq<Seq<char>>,
    pub unique: bool,
}

impl View for IndexDef {
    type V = IndexV;

    open spec fn view(&self) -> IndexV {
        IndexV { name: self.name@, columns: views(self.columns@), unique: self.unique }
    }
}

/// What names hold.
pub open spec fn str_views(list: Seq<&str>) -> Seq<Seq<char>> {
    Seq::new(list.len(), |i: int| list[i]@)
}

fn own_all(list: &Vec<&str>) -> (r: Vec<String>)
    ensures
        views(r@) == str_views(list@),
{
    let mut out: Vec<String> = Vec::new();
    let mut i: usize = 0;
    while i < list.len()
        invariant
            i <= list@.len(),
            out@.len() == i,
            forall|j: int| 0 <= j < i ==> (#[trigger] out@[j])@ == list@[j]@,
        decreases list@.len() - i,
    {
        out.push(list[i].to_owned());
        i = i + 1;
    }
    assert(views(out@) =~= str_views(list@));
    out
}

/// A copy of names.
pub fn copy_names(list: &Vec<String>) -> (r: Vec<String>)
    ensures
        views(r@) == views(list@),
{
    let mut out: Vec<String> = Vec::new();
    let mut i: usize = 0;
    while i < list.len()
        invariant
            i <= list@.len(),
            out@.len() == i,
            forall|j: int| 0 <= j < i ==> (#[trigger] out@[j])@ == list@[j]@,
        decreases list@.len() - i,
    {
        out.push(list[i].clone());
        i = i + 1;
    }
    assert(views(out@) =~= views(list@));
    out
}

impl IndexDef {
    /// A non-unique index over `columns`.
    pub fn new(name: &str, columns: Vec<&str>) -> (r: Self)
        ensures
            r@ == (IndexV { name: name@, columns: str_views(columns@), unique: false }),
    {
        IndexDef { name: name.to_owned(), columns: own_all(&columns), unique: false }
    }

    /// Mark the index unique.
    pub fn unique(self) -> (r: Self)
        ensures
            r@ == (IndexV { unique: true, ..self@ }),
    {
        let mut x = self;
        x.unique = true;
        x
    }

    /// A copy of the definition.
    pub fn copy(&self) -> (r: Self)
        ensures
            r@ == self@,
    {
        IndexDef {
            name: self.name.clone(),
            columns: copy_names(&self.columns),
            unique: self.unique,
        }
    }
}

/// The name of the index backing a `unique` column.
pub open spec fn implicit_name(table: Seq<char>, column: Seq<char>) -> Seq<char> {
    "uniq_"@ + table + "_"@ + column
}

/// The auto-generated name of the index backing a `unique` column.
pub fn implicit_index_name(table: &str, column: &str) -> (r: String)
    ensures
        r@ == implicit_name(table@, column@),
{
    let mut out = "uniq_".to_owned();
    out.append(table);
    out.append("_");
    out.append(column);
    out
}

/// What happens to a child row when its parent goes or changes.
#[derive(Debug, Clone, Copy, PartialEq, Eq, Structural)]
pub enum RefAction {
    /// The parent's write is refused.
    Restrict,
    /// The child row goes or changes too.
    Cascade,
    /// The child's referencing columns become NULL.
    SetNull,
}

/// A foreign key: columns whose values must be those of a parent row's key.
#[derive(Debug, Clone, PartialEq, Eq)]
pub struct ForeignKey {
    /// The constraint's name.
    pub name: String,
    /// The referencing columns.
    pub columns: Vec<String>,
    /// The parent table.
    pub parent: String,
    /// The referenced columns of the parent, in the same order.
    pub parent_columns: Vec<String>,
    /// What deleting a referenced parent row does.
    pub on_delete: RefAction,
    /// What changing a referenced parent key does.
    pub on_update: RefAction,
}

/// What a [`ForeignKey`] says.
#[verifier::ext_equal]
pub struct ForeignKeyV {
    pub name: Seq<char>,
    pub columns: Seq<Seq<char>>,
    pub parent: Seq<char>,
    pub parent_columns: Seq<Seq<char>>,
    pub on_delete: RefAction,
    pub on_update: RefAction,
}

impl View for ForeignKey {
    type V = ForeignKeyV;

    open spec fn view(&self) -> ForeignKeyV {
        ForeignKeyV {
            name: self.name@,
            columns: views(self.columns@),
            parent: self.parent@,
            parent_columns: views(self.parent_columns@),
            on_delete: self.on_delete,
            on_update: self.on_update,
        }
    }
}

impl ForeignKey {
    /// A foreign key with the RESTRICT actions.
    pub fn new(name: &str, columns: Vec<&str>, parent: &str, parent_columns: Vec<&str>) -> (r: Self)
        ensures
            r@ == (ForeignKeyV {
                name: name@,
                columns: str_views(columns@),
                parent: parent@,
                parent_columns: str_views(parent_columns@),
                on_delete: RefAction::Restrict,
                on_update: RefAction::Restrict,
            }),
    {
        ForeignKey {
            name: name.to_owned(),
            columns: own_all(&columns),
            parent: parent.to_owned(),
            parent_columns: own_all(&parent_columns),
            on_delete: RefAction::Restrict,
            on_update: RefAction::Restrict,
        }
    }

    /// Set what deleting a referenced parent row does.
    pub fn on_delete(self, action: RefAction) -> (r: Self)
        ensures
            r@ == (ForeignKeyV { on_delete: action, ..self@ }),
    {
        let mut x = self;
        x.on_delete = action;
        x
    }

    /// Set what changing a referenced parent key does.
    pub fn on_update(self, action: RefAction) -> (r: Self)
        ensures
            r@ == (ForeignKeyV { on_update: action, ..self@ }),
    {
        let mut x = self;
        x.on_update = action;
        x
    }
}

/// One table definition.
#[derive(Debug, PartialEq, Eq)]
pub struct TableDef {
    /// The table name.
    pub name: String,
    /// The columns, in declaration (and row-encoding) order.
    pub columns: Vec<ColumnDef>,
    /// Primary-key column names, in key order. Required, non-empty.
    pub pk: Vec<String>,
    /// CHECK constraints over the row.
    pub checks: Vec<CheckExpr>,
    /// Secondary indexes (user-defined and implicit `unique` backings).
    pub indexes: Vec<IndexDef>,
    /// Foreign keys.
    pub foreign_keys: Vec<ForeignKey>,
}

/// What a [`TableDef`] says.
#[verifier::ext_equal]
pub struct TableV {
    pub name: Seq<char>,
    pub columns: Seq<ColumnV>,
    pub pk: Seq<Seq<char>>,
    pub checks: Seq<CheckV>,
    pub indexes: Seq<IndexV>,
    pub foreign_keys: Seq<ForeignKeyV>,
}

impl View for TableDef {
    type V = TableV;

    open spec fn view(&self) -> TableV {
        TableV {
            name: self.name@,
            columns: views(self.columns@),
            pk: views(self.pk@),
            checks: views(self.checks@),
            indexes: views(self.indexes@),
            foreign_keys: views(self.foreign_keys@),
        }
    }
}

/// The position of the first column with this name.
pub open spec fn column_at(columns: Seq<ColumnV>, name: Seq<char>) -> Option<int>
    decreases columns.len(),
{
    if columns.len() == 0 {
        None
    } else if columns[0].name == name {
        Some(0)
    } else {
        match column_at(columns.drop_first(), name) {
            Some(i) => Some(i + 1),
            None => None,
        }
    }
}

pub proof fn lemma_column_at(columns: Seq<ColumnV>, name: Seq<char>)
    ensures
        match column_at(columns, name) {
            Some(i) => 0 <= i < columns.len() && columns[i].name == name && forall|j: int|
                0 <= j < i ==> (#[trigger] columns[j]).name != name,
            None => forall|j: int| 0 <= j < columns.len() ==> (#[trigger] columns[j]).name != name,
        },
    decreases columns.len(),
{
    if columns.len() > 0 && columns[0].name != name {
        let rest = columns.drop_first();
        lemma_column_at(rest, name);
        assert forall|j: int| 0 < j < columns.len() implies #[trigger] columns[j] == rest[j - 1] by {}
    }
}

/// The position of the first index with this name.
pub open spec fn index_at(indexes: Seq<IndexV>, name: Seq<char>) -> Option<int>
    decreases indexes.len(),
{
    if indexes.len() == 0 {
        None
    } else if indexes[0].name == name {
        Some(0)
    } else {
        match index_at(indexes.drop_first(), name) {
            Some(i) => Some(i + 1),
            None => None,
        }
    }
}

pub proof fn lemma_index_at(indexes: Seq<IndexV>, name: Seq<char>)
    ensures
        match index_at(indexes, name) {
            Some(i) => 0 <= i < indexes.len() && indexes[i].name == name && forall|j: int|
                0 <= j < i ==> (#[trigger] indexes[j]).name != name,
            None => forall|j: int| 0 <= j < indexes.len() ==> (#[trigger] indexes[j]).name != name,
        },
    decreases indexes.len(),
{
    if indexes.len() > 0 && indexes[0].name != name {
        let rest = indexes.drop_first();
        lemma_index_at(rest, name);
        assert forall|j: int| 0 < j < indexes.len() implies #[trigger] indexes[j] == rest[j - 1] by {}
    }
}

impl TableV {
    /// Whether a column is part of the primary key.
    pub open spec fn is_key(self, i: int) -> bool {
        0 <= i < self.columns.len() && self.pk.contains(self.columns[i].name)
    }

    /// Whether a column may hold NULL: declared nullable and not part of the
    /// primary key.
    pub open spec fn may_be_null(self, i: int) -> bool {
        0 <= i < self.columns.len() && self.columns[i].nullable && !self.is_key(i)
    }

    /// Whether `index` is the implicit backing of a `unique` column.
    pub open spec fn backs_unique(self, index: IndexV) -> bool {
        &&& index.unique
        &&& index.columns.len() == 1
        &&& index.name == implicit_name(self.name, index.columns[0])
        &&& exists|i: int|
            0 <= i < self.columns.len() && (#[trigger] self.columns[i]).name == index.columns[0]
                && self.columns[i].unique
    }
}

/// Whether `name` is one of `list`.
pub fn has_name(list: &Vec<String>, name: &str) -> (r: bool)
    ensures
        r == views(list@).contains(name@),
{
    let ghost vs = views(list@);
    let mut i: usize = 0;
    while i < list.len()
        invariant
            i <= list@.len(),
            vs == views(list@),
            forall|j: int| 0 <= j < i ==> #[trigger] vs[j] != name@,
        decreases list@.len() - i,
    {
        assert(vs[i as int] == list@[i as int]@);
        if same(list[i].as_str(), name) {
            return true;
        }
        i = i + 1;
    }
    false
}

/// Whether two lists of names are the same.
pub fn same_names(a: &Vec<String>, b: &Vec<String>) -> (r: bool)
    ensures
        r == (views(a@) == views(b@)),
{
    let ghost va = views(a@);
    let ghost vb = views(b@);
    if a.len() != b.len() {
        assert(va.len() != vb.len());
        return false;
    }
    let mut i: usize = 0;
    while i < a.len()
        invariant
            i <= a@.len(),
            a@.len() == b@.len(),
            va == views(a@),
            vb == views(b@),
            forall|j: int| 0 <= j < i ==> #[trigger] va[j] == vb[j],
        decreases a@.len() - i,
    {
        assert(va[i as int] == a@[i as int]@ && vb[i as int] == b@[i as int]@);
        if !same(a[i].as_str(), b[i].as_str()) {
            assert(va[i as int] != vb[i as int]);
            return false;
        }
        i = i + 1;
    }
    assert(va =~= vb);
    true
}

impl TableDef {
    /// A table over `columns` keyed by `pk`.
    pub fn new(name: &str, columns: Vec<ColumnDef>, pk: Vec<&str>) -> (r: Self)
        ensures
            r@ == (TableV {
                name: name@,
                columns: views(columns@),
                pk: str_views(pk@),
                checks: Seq::empty(),
                indexes: Seq::empty(),
                foreign_keys: Seq::empty(),
            }),
    {
        let r = TableDef {
            name: name.to_owned(),
            columns,
            pk: own_all(&pk),
            checks: Vec::new(),
            indexes: Vec::new(),
            foreign_keys: Vec::new(),
        };
        assert(r@.checks =~= Seq::empty() && r@.indexes =~= Seq::empty() && r@.foreign_keys
            =~= Seq::empty());
        r
    }

    /// Attach a CHECK constraint.
    pub fn check(self, expr: CheckExpr) -> (r: Self)
        ensures
            r@ == (TableV { checks: self@.checks.push(expr@), ..self@ }),
    {
        let mut t = self;
        t.checks.push(expr);
        assert(t@.checks =~= self@.checks.push(expr@));
        t
    }

    /// Attach a secondary index.
    pub fn index(self, index: IndexDef) -> (r: Self)
        ensures
            r@ == (TableV { indexes: self@.indexes.push(index@), ..self@ }),
    {
        let mut t = self;
        t.indexes.push(index);
        assert(t@.indexes =~= self@.indexes.push(index@));
        t
    }

    /// Attach a foreign key.
    pub fn foreign_key(self, key: ForeignKey) -> (r: Self)
        ensures
            r@ == (TableV { foreign_keys: self@.foreign_keys.push(key@), ..self@ }),
    {
        let mut t = self;
        t.foreign_keys.push(key);
        assert(t@.foreign_keys =~= self@.foreign_keys.push(key@));
        t
    }

    /// The position of `index` in [`indexes`](Self::indexes), if it exists.
    pub fn index_pos(&self, index: &str) -> (r: Option<usize>)
        ensures
            match r {
                Some(i) => index_at(self@.indexes, index@) == Some(i as int) && i
                    < self.indexes@.len(),
                None => index_at(self@.indexes, index@) is None,
            },
    {
        let ghost vs = self@.indexes;
        proof {
            lemma_index_at(vs, index@);
        }
        let mut i: usize = 0;
        while i < self.indexes.len()
            invariant
                i <= self.indexes@.len(),
                vs == views(self.indexes@),
                vs == self@.indexes,
                forall|j: int| 0 <= j < i ==> (#[trigger] vs[j]).name != index@,
                match index_at(vs, index@) {
                    Some(k) => 0 <= k < vs.len() && vs[k].name == index@ && forall|j: int|
                        0 <= j < k ==> (#[trigger] vs[j]).name != index@,
                    None => forall|j: int| 0 <= j < vs.len() ==> (#[trigger] vs[j]).name != index@,
                },
            decreases self.indexes@.len() - i,
        {
            assert(vs[i as int] == self.indexes@[i as int]@);
            if same(self.indexes[i].name.as_str(), index) {
                return Some(i);
            }
            i = i + 1;
        }
        None
    }

    /// The index of `column` in [`columns`](Self::columns), if it exists.
    pub fn col_index(&self, column: &str) -> (r: Option<usize>)
        ensures
            match r {
                Some(i) => column_at(self@.columns, column@) == Some(i as int) && i
                    < self.columns@.len(),
                None => column_at(self@.columns, column@) is None,
            },
    {
        let ghost vs = self@.columns;
        proof {
            lemma_column_at(vs, column@);
        }
        let mut i: usize = 0;
        while i < self.columns.len()
            invariant
                i <= self.columns@.len(),
                vs == views(self.columns@),
                vs == self@.columns,
                forall|j: int| 0 <= j < i ==> (#[trigger] vs[j]).name != column@,
                match column_at(vs, column@) {
                    Some(k) => 0 <= k < vs.len() && vs[k].name == column@ && forall|j: int|
                        0 <= j < k ==> (#[trigger] vs[j]).name != column@,
                    None => forall|j: int| 0 <= j < vs.len() ==> (#[trigger] vs[j]).name != column@,
                },
            decreases self.columns@.len() - i,
        {
            assert(vs[i as int] == self.columns@[i as int]@);
            if same(self.columns[i].name.as_str(), column) {
                return Some(i);
            }
            i = i + 1;
        }
        None
    }

    /// Whether `column` (by index) is part of the primary key.
    pub fn is_pk(&self, index: usize) -> (r: bool)
        ensures
            r == self@.is_key(index as int),
    {
        if index < self.columns.len() {
            assert(self@.columns[index as int] == self.columns@[index as int]@);
            has_name(&self.pk, self.columns[index].name.as_str())
        } else {
            false
        }
    }

    /// Whether `column` (by index) may hold NULL: declared nullable and not part
    /// of the primary key (PK implies NOT NULL).
    pub fn is_nullable(&self, index: usize) -> (r: bool)
        ensures
            r == self@.may_be_null(index as int),
    {
        if index < self.columns.len() {
            assert(self@.columns[index as int] == self.columns@[index as int]@);
            self.columns[index].nullable && !self.is_pk(index)
        } else {
            false
        }
    }

    /// Whether `index` is the implicit backing of a `unique` column (and so
    /// cannot be dropped while the column keeps the constraint).
    pub fn backs_unique_column(&self, index: &IndexDef) -> (r: bool)
        ensures
            r == self@.backs_unique(index@),
    {
        if !index.unique || index.columns.len() != 1 {
            assert(index@.columns.len() == index.columns@.len());
            return false;
        }
        let col = &index.columns[0];
        assert(index@.columns[0] == col@);
        let name = implicit_index_name(self.name.as_str(), col.as_str());
        if !same(index.name.as_str(), name.as_str()) {
            return false;
        }
        let ghost vs = self@.columns;
        let mut i: usize = 0;
        while i < self.columns.len()
            invariant
                i <= self.columns@.len(),
                vs == views(self.columns@),
                vs == self@.columns,
                index.unique,
                index@.columns.len() == 1,
                index@.columns[0] == col@,
                index@.name == implicit_name(self@.name, col@),
                forall|j: int|
                    0 <= j < i ==> !((#[trigger] vs[j]).name == col@ && vs[j].unique),
            decreases self.columns@.len() - i,
        {
            assert(vs[i as int] == self.columns@[i as int]@);
            if same(self.columns[i].name.as_str(), col.as_str()) && self.columns[i].unique {
                return true;
            }
            i = i + 1;
        }
        false
    }

    /// Append the implicit unique index for every `unique` column that does not
    /// have its backing index yet. Run before persisting a definition so that
    /// the constraint is always index-enforced.
    pub fn materialize_implicit_indexes(&mut self)
        ensures
            final(self)@ == (TableV {
                indexes: old(self)@.indexes + missing_backings(
                    old(self)@,
                    old(self)@.columns.len(),
                ),
                ..old(self)@
            }),
    {
        let ghost before = self@;
        let mut needed: Vec<IndexDef> = Vec::new();
        let mut i: usize = 0;
        while i < self.columns.len()
            invariant
                i <= self.columns@.len(),
                self@ == before,
                views(needed@) == missing_backings(before, i as nat),
            decreases self.columns@.len() - i,
        {
            let c = &self.columns[i];
            assert(before.columns[i as int] == c@);
            let ghost had = needed@;
            if c.unique {
                let name = implicit_index_name(self.name.as_str(), c.name.as_str());
                if self.index_pos(name.as_str()).is_none() {
                    let mut columns: Vec<String> = Vec::new();
                    columns.push(c.name.clone());
                    assert(views(columns@) =~= seq![c.name@]);
                    let idx = IndexDef { name, columns, unique: true };
                    needed.push(idx);
                    assert(views(needed@) =~= views(had).push(idx@));
                }
            }
            i = i + 1;
        }
        let ghost all = views(needed@);
        let ghost own = self.indexes@;
        self.indexes.append(&mut needed);
        assert(views(self.indexes@) =~= views(own) + all);
    }
}

/// The index backing a `unique` column.
pub open spec fn backing(table: Seq<char>, column: Seq<char>) -> IndexV {
    IndexV { name: implicit_name(table, column), columns: seq![column], unique: true }
}

/// The backing indexes that the first `n` columns still need.
pub open spec fn missing_backings(t: TableV, n: nat) -> Seq<IndexV>
    decreases n,
{
    if n == 0 || n > t.columns.len() {
        Seq::empty()
    } else {
        let c = t.columns[n - 1];
        let rest = missing_backings(t, (n - 1) as nat);
        if c.unique && index_at(t.indexes, implicit_name(t.name, c.name)) is None {
            rest.push(backing(t.name, c.name))
        } else {
            rest
        }
    }
}

/// Every unique column has its backing index once they are materialized.
pub proof fn unique_columns_are_backed(t: TableV, i: int)
    requires
        0 <= i < t.columns.len(),
        t.columns[i].unique,
    ensures
        index_at(
            t.indexes + missing_backings(t, t.columns.len()),
            implicit_name(t.name, t.columns[i].name),
        ) is Some,
{
    let name = implicit_name(t.name, t.columns[i].name);
    let all = t.indexes + missing_backings(t, t.columns.len());
    lemma_index_at(t.indexes, name);
    lemma_index_at(all, name);
    if let Some(k) = index_at(t.indexes, name) {
        assert(all[k].name == name);
    } else {
        let k = lemma_backing_there(t, t.columns.len(), i);
        assert(all[t.indexes.len() + k].name == name);
    }
}

proof fn lemma_backing_there(t: TableV, n: nat, i: int) -> (k: int)
    requires
        0 <= i < n <= t.columns.len(),
        t.columns[i].unique,
        index_at(t.indexes, implicit_name(t.name, t.columns[i].name)) is None,
    ensures
        0 <= k < missing_backings(t, n).len(),
        missing_backings(t, n)[k] == backing(t.name, t.columns[i].name),
    decreases n,
{
    if i == n - 1 {
        missing_backings(t, (n - 1) as nat).len() as int
    } else {
        lemma_backing_there(t, (n - 1) as nat, i)
    }
}

} // verus!
