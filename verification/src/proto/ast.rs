//! The query AST: expressions, pipeline stages, the clause surface, and DML.

use vstd::prelude::*;
use crate::value::{TypeKind, Value, ValueV};
use crate::views::{opt, views};

verus! {

/// A comparison operator (`eq ne lt lte gt gte`).
#[derive(Debug, Clone, Copy, PartialEq, Eq, Structural)]
pub enum CmpOp {
    /// `=`
    Eq,
    /// `<>`
    Ne,
    /// `<`
    Lt,
    /// `<=`
    Lte,
    /// `>`
    Gt,
    /// `>=`
    Gte,
}

impl CmpOp {
    /// The wire node name.
    pub open spec fn named(self) -> Seq<char> {
        match self {
            CmpOp::Eq => "eq"@,
            CmpOp::Ne => "ne"@,
            CmpOp::Lt => "lt"@,
            CmpOp::Lte => "lte"@,
            CmpOp::Gt => "gt"@,
            CmpOp::Gte => "gte"@,
        }
    }

    /// The wire node name.
    pub fn name(self) -> (r: &'static str)
        ensures
            r@ == self.named(),
    {
        match self {
            CmpOp::Eq => "eq",
            CmpOp::Ne => "ne",
            CmpOp::Lt => "lt",
            CmpOp::Lte => "lte",
            CmpOp::Gt => "gt",
            CmpOp::Gte => "gte",
        }
    }
}

/// An arithmetic operator (`add sub mul div mod`).
#[derive(Debug, Clone, Copy, PartialEq, Eq, Structural)]
pub enum ArithOp {
    /// `+`
    Add,
    /// `-`
    Sub,
    /// `*`
    Mul,
    /// `/`
    Div,
    /// `%`
    Mod,
}

impl ArithOp {
    /// The wire node name.
    pub open spec fn named(self) -> Seq<char> {
        match self {
            ArithOp::Add => "add"@,
            ArithOp::Sub => "sub"@,
            ArithOp::Mul => "mul"@,
            ArithOp::Div => "div"@,
            ArithOp::Mod => "mod"@,
        }
    }

    /// The wire node name.
    pub fn name(self) -> (r: &'static str)
        ensures
            r@ == self.named(),
    {
        match self {
            ArithOp::Add => "add",
            ArithOp::Sub => "sub",
            ArithOp::Mul => "mul",
            ArithOp::Div => "div",
            ArithOp::Mod => "mod",
        }
    }
}

/// An aggregate function (`count sum min max avg`).
#[derive(Debug, Clone, Copy, PartialEq, Eq, Structural)]
pub enum AggFunc {
    /// `COUNT`
    Count,
    /// `SUM`
    Sum,
    /// `MIN`
    Min,
    /// `MAX`
    Max,
    /// `AVG`
    Avg,
}

impl AggFunc {
    /// The wire node name.
    pub open spec fn named(self) -> Seq<char> {
        match self {
            AggFunc::Count => "count"@,
            AggFunc::Sum => "sum"@,
            AggFunc::Min => "min"@,
            AggFunc::Max => "max"@,
            AggFunc::Avg => "avg"@,
        }
    }

    /// The wire node name.
    pub fn name(self) -> (r: &'static str)
        ensures
            r@ == self.named(),
    {
        match self {
            AggFunc::Count => "count",
            AggFunc::Sum => "sum",
            AggFunc::Min => "min",
            AggFunc::Max => "max",
            AggFunc::Avg => "avg",
        }
    }
}

/// One expression node. Strictly data; column references are explicit and any
/// bare scalar is a literal.
#[derive(Debug, PartialEq, Eq)]
#[allow(inconsistent_fields)]
pub enum Expr {
    /// `{col:"name"}` or `{col:["alias","name"]}`.
    Column {
        /// The table alias (or name) for a qualified reference.
        table: Option<String>,
        /// The column name.
        column: String,
    },
    /// A bare scalar literal.
    Literal(Value),
    /// `{eq:[a,b]}` … `{gte:[a,b]}`.
    Cmp {
        /// The operator.
        op: CmpOp,
        /// Left operand.
        lhs: Box<Expr>,
        /// Right operand.
        rhs: Box<Expr>,
    },
    /// `{and:[...]}` (non-empty).
    And(Vec<Expr>),
    /// `{or:[...]}` (non-empty).
    Or(Vec<Expr>),
    /// `{not:x}`.
    Not(Box<Expr>),
    /// `{add:[a,b]}` … `{mod:[a,b]}`.
    Arith {
        /// The operator.
        op: ArithOp,
        /// Left operand.
        lhs: Box<Expr>,
        /// Right operand.
        rhs: Box<Expr>,
    },
    /// `{is_null:x}`.
    IsNull(Box<Expr>),
    /// `{is_not_null:x}`.
    IsNotNull(Box<Expr>),
    /// `{between:[x, lo, hi]}`.
    Between {
        /// The tested expression.
        expr: Box<Expr>,
        /// Lower bound (inclusive).
        lo: Box<Expr>,
        /// Upper bound (inclusive).
        hi: Box<Expr>,
    },
    /// `{in:[x, [v1, v2, ...]]}`.
    InList {
        /// The tested expression.
        expr: Box<Expr>,
        /// The candidate list.
        list: Vec<Expr>,
    },
    /// `{like:[x, "abc%"]}` / `{ilike:[x, "abc%"]}`.
    Like {
        /// The tested expression.
        expr: Box<Expr>,
        /// The pattern (`%` any run, `_` one char).
        pattern: String,
        /// `true` for `ilike`.
        case_insensitive: bool,
    },
    /// `{coalesce:[a,b,...]}` (non-empty).
    Coalesce(Vec<Expr>),
    /// `{nullif:[a,b]}`.
    NullIf {
        /// The tested expression.
        lhs: Box<Expr>,
        /// Null is produced when `lhs == rhs`.
        rhs: Box<Expr>,
    },
    /// `{cast:[x, "i64"]}`.
    Cast {
        /// The casted expression.
        expr: Box<Expr>,
        /// The target type.
        to: TypeKind,
    },
    /// `{sum:x}` `{count:x}` … — valid only where the grammar allows aggregates
    /// (a `group` stage, or a clause `select` list).
    Agg {
        /// The aggregate function.
        func: AggFunc,
        /// The aggregated expression (`{count:1}` counts rows).
        arg: Box<Expr>,
    },
}

/// What an [`Expr`] says.
#[verifier::ext_equal]
#[allow(inconsistent_fields)]
pub enum ExprV {
    Column { table: Option<Seq<char>>, column: Seq<char> },
    Literal(ValueV),
    Cmp { op: CmpOp, lhs: Box<ExprV>, rhs: Box<ExprV> },
    And(Seq<ExprV>),
    Or(Seq<ExprV>),
    Not(Box<ExprV>),
    Arith { op: ArithOp, lhs: Box<ExprV>, rhs: Box<ExprV> },
    IsNull(Box<ExprV>),
    IsNotNull(Box<ExprV>),
    Between { expr: Box<ExprV>, lo: Box<ExprV>, hi: Box<ExprV> },
    InList { expr: Box<ExprV>, list: Seq<ExprV> },
    Like { expr: Box<ExprV>, pattern: Seq<char>, case_insensitive: bool },
    Coalesce(Seq<ExprV>),
    NullIf { lhs: Box<ExprV>, rhs: Box<ExprV> },
    Cast { expr: Box<ExprV>, to: TypeKind },
    Agg { func: AggFunc, arg: Box<ExprV> },
}

/// What an expression says.
pub open spec fn expr_view(e: Expr) -> ExprV
    decreases e,
{
    match e {
        Expr::Column { table, column } => ExprV::Column { table: opt(table), column: column@ },
        Expr::Literal(v) => ExprV::Literal(v@),
        Expr::Cmp { op, lhs, rhs } => ExprV::Cmp {
            op,
            lhs: Box::new(expr_view(*lhs)),
            rhs: Box::new(expr_view(*rhs)),
        },
        Expr::And(list) => ExprV::And(
            Seq::new(
                list@.len(),
                |i: int|
                    if 0 <= i < list@.len() {
                        expr_view(list@[i])
                    } else {
                        ExprV::Literal(ValueV::Null)
                    },
            ),
        ),
        Expr::Or(list) => ExprV::Or(
            Seq::new(
                list@.len(),
                |i: int|
                    if 0 <= i < list@.len() {
                        expr_view(list@[i])
                    } else {
                        ExprV::Literal(ValueV::Null)
                    },
            ),
        ),
        Expr::Not(x) => ExprV::Not(Box::new(expr_view(*x))),
        Expr::Arith { op, lhs, rhs } => ExprV::Arith {
            op,
            lhs: Box::new(expr_view(*lhs)),
            rhs: Box::new(expr_view(*rhs)),
        },
        Expr::IsNull(x) => ExprV::IsNull(Box::new(expr_view(*x))),
        Expr::IsNotNull(x) => ExprV::IsNotNull(Box::new(expr_view(*x))),
        Expr::Between { expr, lo, hi } => ExprV::Between {
            expr: Box::new(expr_view(*expr)),
            lo: Box::new(expr_view(*lo)),
            hi: Box::new(expr_view(*hi)),
        },
        Expr::InList { expr, list } => ExprV::InList {
            expr: Box::new(expr_view(*expr)),
            list: Seq::new(
                list@.len(),
                |i: int|
                    if 0 <= i < list@.len() {
                        expr_view(list@[i])
                    } else {
                        ExprV::Literal(ValueV::Null)
                    },
            ),
        },
        Expr::Like { expr, pattern, case_insensitive } => ExprV::Like {
            expr: Box::new(expr_view(*expr)),
            pattern: pattern@,
            case_insensitive,
        },
        Expr::Coalesce(list) => ExprV::Coalesce(
            Seq::new(
                list@.len(),
                |i: int|
                    if 0 <= i < list@.len() {
                        expr_view(list@[i])
                    } else {
                        ExprV::Literal(ValueV::Null)
                    },
            ),
        ),
        Expr::NullIf { lhs, rhs } => ExprV::NullIf {
            lhs: Box::new(expr_view(*lhs)),
            rhs: Box::new(expr_view(*rhs)),
        },
        Expr::Cast { expr, to } => ExprV::Cast { expr: Box::new(expr_view(*expr)), to },
        Expr::Agg { func, arg } => ExprV::Agg { func, arg: Box::new(expr_view(*arg)) },
    }
}

impl View for Expr {
    type V = ExprV;

    open spec fn view(&self) -> ExprV {
        expr_view(*self)
    }
}

impl Expr {
    /// The view of a list node is that of its parts.
    pub proof fn lemma_parts(&self)
        ensures
            self matches Expr::And(list) ==> self@ == ExprV::And(views(list@)),
            self matches Expr::Or(list) ==> self@ == ExprV::Or(views(list@)),
            self matches Expr::Coalesce(list) ==> self@ == ExprV::Coalesce(views(list@)),
            self matches Expr::InList { expr, list } ==> self@ == (ExprV::InList {
                expr: Box::new(expr@),
                list: views(list@),
            }),
    {
        match self {
            Expr::And(list) => {
                assert(self@->And_0 =~= views(list@));
            },
            Expr::Or(list) => {
                assert(self@->Or_0 =~= views(list@));
            },
            Expr::Coalesce(list) => {
                assert(self@->Coalesce_0 =~= views(list@));
            },
            Expr::InList { list, .. } => {
                assert(self@->InList_list =~= views(list@));
            },
            _ => {},
        }
    }
}

/// A table reference with an optional alias: `{table:"users", as:"u"}`.
#[derive(Debug, PartialEq, Eq)]
pub struct TableRef {
    /// The table name.
    pub table: String,
    /// The alias rows are referenced by, if any.
    pub alias: Option<String>,
}

/// What a [`TableRef`] says.
pub struct TableRefV {
    pub table: Seq<char>,
    pub alias: Option<Seq<char>>,
}

impl View for TableRef {
    type V = TableRefV;

    open spec fn view(&self) -> TableRefV {
        TableRefV { table: self.table@, alias: opt(self.alias) }
    }
}

/// A join type.
#[derive(Debug, Clone, Copy, PartialEq, Eq, Structural)]
pub enum JoinKind {
    /// `inner`.
    Inner,
    /// `left`.
    Left,
    /// `cross` (no `on` predicate).
    Cross,
}

impl JoinKind {
    /// The wire name.
    pub open spec fn named(self) -> Seq<char> {
        match self {
            JoinKind::Inner => "inner"@,
            JoinKind::Left => "left"@,
            JoinKind::Cross => "cross"@,
        }
    }

    /// The wire name.
    pub fn name(self) -> (r: &'static str)
        ensures
            r@ == self.named(),
    {
        match self {
            JoinKind::Inner => "inner",
            JoinKind::Left => "left",
            JoinKind::Cross => "cross",
        }
    }
}

/// One join: `{type, table, on}`.
#[derive(Debug, PartialEq, Eq)]
pub struct JoinSpec {
    /// The join type.
    pub kind: JoinKind,
    /// The joined table.
    pub table: TableRef,
    /// The join predicate; required for inner/left, absent for cross.
    pub on: Option<Expr>,
}

/// What a [`JoinSpec`] says.
pub struct JoinSpecV {
    pub kind: JoinKind,
    pub table: TableRefV,
    pub on: Option<ExprV>,
}

impl View for JoinSpec {
    type V = JoinSpecV;

    open spec fn view(&self) -> JoinSpecV {
        JoinSpecV { kind: self.kind, table: self.table@, on: opt(self.on) }
    }
}

/// A sort direction.
#[derive(Debug, Clone, Copy, PartialEq, Eq, Structural)]
pub enum Dir {
    /// Ascending (the default).
    Asc,
    /// Descending.
    Desc,
}

impl Dir {
    /// The wire name.
    pub open spec fn named(self) -> Seq<char> {
        match self {
            Dir::Asc => "asc"@,
            Dir::Desc => "desc"@,
        }
    }

    /// The wire name.
    pub fn name(self) -> (r: &'static str)
        ensures
            r@ == self.named(),
    {
        match self {
            Dir::Asc => "asc",
            Dir::Desc => "desc",
        }
    }
}

/// One sort key: `{expr, dir}`.
#[derive(Debug, PartialEq, Eq)]
pub struct SortKey {
    /// The sorted expression.
    pub expr: Expr,
    /// The direction (`asc` when omitted on the wire).
    pub dir: Dir,
}

/// What a [`SortKey`] says.
pub struct SortKeyV {
    pub expr: ExprV,
    pub dir: Dir,
}

impl View for SortKey {
    type V = SortKeyV;

    open spec fn view(&self) -> SortKeyV {
        SortKeyV { expr: self.expr@, dir: self.dir }
    }
}

/// One projection item: a bare expression, or `{as:[name, expr]}`.
#[derive(Debug, PartialEq, Eq)]
pub enum Projection {
    /// An unaliased expression (output name resolved by the validator).
    Expr(Expr),
    /// An aliased expression.
    Aliased {
        /// The output column name.
        name: String,
        /// The projected expression.
        expr: Expr,
    },
}

/// What a [`Projection`] says.
pub enum ProjectionV {
    Expr(ExprV),
    Aliased { name: Seq<char>, expr: ExprV },
}

impl View for Projection {
    type V = ProjectionV;

    open spec fn view(&self) -> ProjectionV {
        match self {
            Projection::Expr(e) => ProjectionV::Expr(e@),
            Projection::Aliased { name, expr } => ProjectionV::Aliased { name: name@, expr: expr@ },
        }
    }
}

/// One pipeline stage. Stage order is logical; the planner may reorder safe
/// stages.
#[derive(Debug, PartialEq, Eq)]
pub enum Stage {
    /// `{scan:{table, as}}` — the pipeline head.
    Scan(TableRef),
    /// `{match:<expr>}` — WHERE (or HAVING when placed after `group`).
    Match(Expr),
    /// `{join:{type, table, on}}`.
    Join(JoinSpec),
    /// `{group:{by:[...], agg:{name: <agg>, ...}}}`.
    Group {
        /// Grouping keys (empty = one global group).
        by: Vec<Expr>,
        /// Named aggregate outputs, in wire order.
        aggs: Vec<(String, Expr)>,
    },
    /// `{sort:[{expr, dir}, ...]}` — ORDER BY.
    Sort(Vec<SortKey>),
    /// `{project:[...]}` — the SELECT list.
    Project(Vec<Projection>),
    /// `{distinct:true}`.
    Distinct(bool),
    /// `{limit:n, offset:m}` (either may be omitted).
    Limit {
        /// Maximum rows, if capped.
        limit: Option<u64>,
        /// Rows skipped first.
        offset: u64,
    },
    /// `{cursor:<token>}` — resume keyset pagination.
    Cursor(Vec<u8>),
}

/// What a [`Stage`] says.
#[verifier::ext_equal]
pub enum StageV {
    Scan(TableRefV),
    Match(ExprV),
    Join(JoinSpecV),
    Group { by: Seq<ExprV>, aggs: Seq<(Seq<char>, ExprV)> },
    Sort(Seq<SortKeyV>),
    Project(Seq<ProjectionV>),
    Distinct(bool),
    Limit { limit: Option<u64>, offset: u64 },
    Cursor(Seq<u8>),
}

impl View for Stage {
    type V = StageV;

    open spec fn view(&self) -> StageV {
        match self {
            Stage::Scan(t) => StageV::Scan(t@),
            Stage::Match(e) => StageV::Match(e@),
            Stage::Join(j) => StageV::Join(j@),
            Stage::Group { by, aggs } => StageV::Group { by: views(by@), aggs: views(aggs@) },
            Stage::Sort(keys) => StageV::Sort(views(keys@)),
            Stage::Project(items) => StageV::Project(views(items@)),
            Stage::Distinct(on) => StageV::Distinct(*on),
            Stage::Limit { limit, offset } => StageV::Limit { limit: *limit, offset: *offset },
            Stage::Cursor(token) => StageV::Cursor(token@),
        }
    }
}

/// The clause surface — sugar for a fixed-order pipeline (FROM → WHERE → GROUP →
/// HAVING → PROJECT → ORDER → LIMIT).
#[derive(Debug, PartialEq, Eq)]
pub struct ClauseSelect {
    /// `from` — the source table.
    pub from: Option<TableRef>,
    /// `joins`.
    pub joins: Vec<JoinSpec>,
    /// `where`.
    pub where_: Option<Expr>,
    /// `group_by`.
    pub group_by: Vec<Expr>,
    /// `having`.
    pub having: Option<Expr>,
    /// `order_by`.
    pub order_by: Vec<SortKey>,
    /// `select` — the output list (`None` = all columns).
    pub select: Option<Vec<Projection>>,
    /// `distinct`.
    pub distinct: bool,
    /// `limit`.
    pub limit: Option<u64>,
    /// `offset`.
    pub offset: Option<u64>,
    /// `cursor` — a keyset continuation token.
    pub cursor: Option<Vec<u8>>,
}

/// What a [`ClauseSelect`] says.
#[verifier::ext_equal]
pub struct ClauseSelectV {
    pub from: Option<TableRefV>,
    pub joins: Seq<JoinSpecV>,
    pub where_: Option<ExprV>,
    pub group_by: Seq<ExprV>,
    pub having: Option<ExprV>,
    pub order_by: Seq<SortKeyV>,
    pub select: Option<Seq<ProjectionV>>,
    pub distinct: bool,
    pub limit: Option<u64>,
    pub offset: Option<u64>,
    pub cursor: Option<Seq<u8>>,
}

impl View for ClauseSelect {
    type V = ClauseSelectV;

    open spec fn view(&self) -> ClauseSelectV {
        ClauseSelectV {
            from: opt(self.from),
            joins: views(self.joins@),
            where_: opt(self.where_),
            group_by: views(self.group_by@),
            having: opt(self.having),
            order_by: views(self.order_by@),
            select: match self.select {
                Some(items) => Some(views(items@)),
                None => None,
            },
            distinct: self.distinct,
            limit: self.limit,
            offset: self.offset,
            cursor: opt(self.cursor),
        }
    }
}

impl Default for ClauseSelect {
    fn default() -> (r: Self)
        ensures
            r@ == (ClauseSelectV {
                from: None,
                joins: Seq::empty(),
                where_: None,
                group_by: Seq::empty(),
                having: None,
                order_by: Seq::empty(),
                select: None,
                distinct: false,
                limit: None,
                offset: None,
                cursor: None,
            }),
    {
        let r = ClauseSelect {
            from: None,
            joins: Vec::new(),
            where_: None,
            group_by: Vec::new(),
            having: None,
            order_by: Vec::new(),
            select: None,
            distinct: false,
            limit: None,
            offset: None,
            cursor: None,
        };
        assert(r@.joins =~= Seq::empty() && r@.group_by =~= Seq::empty() && r@.order_by
            =~= Seq::empty());
        r
    }
}

/// A select in either surface form.
#[derive(Debug, PartialEq, Eq)]
pub enum Select {
    /// The pipeline form: an ordered stage array.
    Pipeline(Vec<Stage>),
    /// The clause form: `from/where/group_by/having/order_by/select/limit`.
    Clause(Box<ClauseSelect>),
}

/// What a [`Select`] says.
#[verifier::ext_equal]
pub enum SelectV {
    Pipeline(Seq<StageV>),
    Clause(ClauseSelectV),
}

impl View for Select {
    type V = SelectV;

    open spec fn view(&self) -> SelectV {
        match self {
            Select::Pipeline(stages) => SelectV::Pipeline(views(stages@)),
            Select::Clause(c) => SelectV::Clause(c@),
        }
    }
}

/// The row selector of an update/delete: a `where` predicate or an explicit
/// `{all:true}`. Its absence is represented as `None` and rejected by the
/// validator.
#[derive(Debug, PartialEq, Eq)]
pub enum Selector {
    /// `where:<expr>`.
    Where(Expr),
    /// `all:true` — an explicit full-table write.
    All,
}

/// What a [`Selector`] says.
pub enum SelectorV {
    Where(ExprV),
    All,
}

impl View for Selector {
    type V = SelectorV;

    open spec fn view(&self) -> SelectorV {
        match self {
            Selector::Where(e) => SelectorV::Where(e@),
            Selector::All => SelectorV::All,
        }
    }
}

/// `{op:"insert", table, rows:[{col: value, ...}, ...]}`.
#[derive(Debug, PartialEq, Eq)]
pub struct Insert {
    /// The target table.
    pub table: String,
    /// The rows, each as named wire values in wire order.
    pub rows: Vec<Vec<(String, Value)>>,
}

/// What an [`Insert`] says.
#[verifier::ext_equal]
pub struct InsertV {
    pub table: Seq<char>,
    pub rows: Seq<Seq<(Seq<char>, ValueV)>>,
}

impl View for Insert {
    type V = InsertV;

    open spec fn view(&self) -> InsertV {
        InsertV {
            table: self.table@,
            rows: Seq::new(self.rows@.len(), |i: int| views(self.rows@[i]@)),
        }
    }
}

/// `{op:"update", table, where/all, set, unconditional}`.
#[derive(Debug, PartialEq, Eq)]
pub struct Update {
    /// The target table.
    pub table: String,
    /// The row selector; `None` decodes but fails validation.
    pub selector: Option<Selector>,
    /// The set list: column → expression (absolute or relative).
    pub set: Vec<(String, Expr)>,
    /// `unconditional:true` — an explicit blind set (free columns only).
    pub unconditional: bool,
}

/// What an [`Update`] says.
#[verifier::ext_equal]
pub struct UpdateV {
    pub table: Seq<char>,
    pub selector: Option<SelectorV>,
    pub set: Seq<(Seq<char>, ExprV)>,
    pub unconditional: bool,
}

impl View for Update {
    type V = UpdateV;

    open spec fn view(&self) -> UpdateV {
        UpdateV {
            table: self.table@,
            selector: opt(self.selector),
            set: views(self.set@),
            unconditional: self.unconditional,
        }
    }
}

/// `{op:"delete", table, where/all}`.
#[derive(Debug, PartialEq, Eq)]
pub struct Delete {
    /// The target table.
    pub table: String,
    /// The row selector; `None` decodes but fails validation.
    pub selector: Option<Selector>,
}

/// What a [`Delete`] says.
pub struct DeleteV {
    pub table: Seq<char>,
    pub selector: Option<SelectorV>,
}

impl View for Delete {
    type V = DeleteV;

    open spec fn view(&self) -> DeleteV {
        DeleteV { table: self.table@, selector: opt(self.selector) }
    }
}

/// One protocol request.
#[derive(Debug, PartialEq, Eq)]
pub enum Request {
    /// `op:"select"` — either surface form.
    Select(Select),
    /// `op:"insert"`.
    Insert(Insert),
    /// `op:"update"`.
    Update(Update),
    /// `op:"delete"`.
    Delete(Delete),
    /// `op:"transaction"` — atomic multi-op (writes only).
    Transaction(Vec<Request>),
    /// `op:"explain"` — plan a select without executing it.
    Explain(Select),
}

/// What a [`Request`] says.
#[verifier::ext_equal]
pub enum RequestV {
    Select(SelectV),
    Insert(InsertV),
    Update(UpdateV),
    Delete(DeleteV),
    Transaction(Seq<RequestV>),
    Explain(SelectV),
}

/// What a request says.
pub open spec fn request_view(r: Request) -> RequestV
    decreases r,
{
    match r {
        Request::Select(s) => RequestV::Select(s@),
        Request::Insert(i) => RequestV::Insert(i@),
        Request::Update(u) => RequestV::Update(u@),
        Request::Delete(d) => RequestV::Delete(d@),
        Request::Transaction(ops) => RequestV::Transaction(
            Seq::new(
                ops@.len(),
                |i: int|
                    if 0 <= i < ops@.len() {
                        request_view(ops@[i])
                    } else {
                        RequestV::Transaction(Seq::empty())
                    },
            ),
        ),
        Request::Explain(s) => RequestV::Explain(s@),
    }
}

impl View for Request {
    type V = RequestV;

    open spec fn view(&self) -> RequestV {
        request_view(*self)
    }
}

impl Request {
    /// The view of a transaction is that of its parts.
    pub proof fn lemma_parts(&self)
        ensures
            self matches Request::Transaction(ops) ==> self@ == RequestV::Transaction(views(ops@)),
    {
        if let Request::Transaction(ops) = self {
            assert(self@->Transaction_0 =~= views(ops@));
        }
    }
}

} // verus!
