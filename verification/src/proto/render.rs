//! The canonical document of a request: the inverse of the mapping of documents
//! onto requests.

use vstd::prelude::*;
use crate::bytes::to_vec;
use crate::value::{uuid_text, uuid_to_string, Value, ValueV};
use crate::views::{opt, views};
use super::ast::{
    ClauseSelect, ClauseSelectV, Delete, DeleteV, Expr, ExprV, Insert, InsertV, JoinSpec, JoinSpecV,
    Projection, ProjectionV, Request, RequestV, Select, SelectV, Selector, SelectorV, SortKey,
    SortKeyV, Stage, StageV, TableRef, TableRefV, Update, UpdateV,
};
use super::encode::{encode_doc, form};
use super::grammar::{fields, Fields};
use super::request::PROTOCOL_VERSION;
use super::wire::{decode_doc, decoded, docs, entry_keys, entry_vals, DecodeLimits, Doc, DocV};

verus! {

/// The limits that a reader has by default.
pub open spec fn default_limits() -> DecodeLimits {
    DecodeLimits { max_bytes: 1_048_576, max_depth: 64, max_nodes: 100_000 }
}

impl Fields {
    /// No fields.
    pub open spec fn none() -> Fields {
        Fields { keys: Seq::empty(), vals: Seq::empty() }
    }

    /// The fields with one more.
    pub open spec fn with(self, name: Seq<char>, d: DocV) -> Fields {
        Fields { keys: self.keys.push(name), vals: self.vals.push(d) }
    }

    /// The fields with more.
    pub open spec fn and(self, more: Fields) -> Fields {
        Fields { keys: self.keys + more.keys, vals: self.vals + more.vals }
    }

    /// The fields with one more, if it is there.
    pub open spec fn with_opt(self, name: Seq<char>, d: Option<DocV>) -> Fields {
        match d {
            Some(d) => self.with(name, d),
            None => self,
        }
    }

    /// The fields as a map.
    pub open spec fn doc(self) -> DocV {
        DocV::Dict { keys: self.keys, vals: self.vals }
    }
}

/// A map with one field.
pub open spec fn single_doc(name: Seq<char>, body: DocV) -> DocV {
    DocV::Dict { keys: seq![name], vals: seq![body] }
}

fn put(entries: &mut Vec<(String, Doc)>, name: &str, body: Doc)
    ensures
        fields(final(entries)@) == fields(old(entries)@).with(name@, body@),
{
    let ghost before = entries@;
    entries.push((name.to_owned(), body));
    proof {
        assert(entry_keys(entries@) =~= entry_keys(before).push(name@));
        assert(entry_vals(entries@) =~= entry_vals(before).push(body@));
    }
}

fn no_entries() -> (r: Vec<(String, Doc)>)
    ensures
        fields(r@) == Fields::none(),
{
    let r: Vec<(String, Doc)> = Vec::new();
    proof {
        assert(entry_keys(r@) =~= Seq::empty());
        assert(entry_vals(r@) =~= Seq::empty());
    }
    r
}

fn dict(entries: Vec<(String, Doc)>) -> (r: Doc)
    ensures
        r@ == fields(entries@).doc(),
{
    let r = Doc::Dict(entries);
    proof {
        r.lemma_parts();
    }
    r
}

fn single(name: &str, body: Doc) -> (r: Doc)
    ensures
        r@ == single_doc(name@, body@),
{
    let mut entries = no_entries();
    put(&mut entries, name, body);
    assert(fields(entries@).keys =~= seq![name@]);
    assert(fields(entries@).vals =~= seq![body@]);
    dict(entries)
}

fn array2(a: Doc, b: Doc) -> (r: Doc)
    ensures
        r@ == DocV::Array(seq![a@, b@]),
{
    let mut list: Vec<Doc> = Vec::new();
    list.push(a);
    list.push(b);
    assert(docs(list@) =~= seq![a@, b@]);
    let r = Doc::Array(list);
    proof {
        r.lemma_parts();
    }
    r
}

// Expressions.

/// The wire form of an insert-row value. A `json` value is re-decoded so that
/// the canonical encoding nests it structurally; corrupt bytes degrade to a bin.
pub open spec fn value_doc(v: ValueV) -> DocV {
    match v {
        ValueV::Null => DocV::Null,
        ValueV::Bool(b) => DocV::Bool(b),
        ValueV::I64(n) => DocV::Int(n),
        ValueV::F64(f) => DocV::Float(f),
        ValueV::Text(s) => DocV::Str(s),
        ValueV::Blob(b) => DocV::Bin(b),
        ValueV::Json(b) => match decoded(b, default_limits()) {
            Ok(d) => d,
            Err(_) => DocV::Bin(b),
        },
        ValueV::Uuid(u) => DocV::Str(uuid_text(u)),
        ValueV::Timestamp(t) => DocV::Int(t),
    }
}

fn row_value_to_doc(value: &Value) -> (r: Doc)
    ensures
        r@ == value_doc(value@),
{
    match value {
        Value::Null => Doc::Null,
        Value::Bool(b) => Doc::Bool(*b),
        Value::I64(n) => Doc::Int(*n),
        Value::F64(f) => Doc::Float(*f),
        Value::Text(s) => Doc::Str(s.clone()),
        Value::Blob(b) => Doc::Bin(to_vec(b.as_slice())),
        Value::Json(bytes) => {
            let limits = DecodeLimits::default();
            match decode_doc(bytes.as_slice(), &limits) {
                Ok(d) => d,
                Err(_) => Doc::Bin(to_vec(bytes.as_slice())),
            }
        },
        Value::Uuid(u) => Doc::Str(uuid_to_string(u)),
        Value::Timestamp(t) => Doc::Int(*t),
    }
}

/// The document of a column reference.
pub open spec fn column_doc(table: Option<Seq<char>>, column: Seq<char>) -> DocV {
    match table {
        Some(t) => DocV::Array(seq![DocV::Str(t), DocV::Str(column)]),
        None => DocV::Str(column),
    }
}

/// The document of an expression.
pub open spec fn expr_doc(e: ExprV) -> DocV
    decreases e, 0nat,
{
    match e {
        ExprV::Column { table, column } => single_doc("col"@, column_doc(table, column)),
        ExprV::Literal(v) => value_doc(v),
        ExprV::Cmp { op, lhs, rhs } => single_doc(
            op.named(),
            DocV::Array(seq![expr_doc(*lhs), expr_doc(*rhs)]),
        ),
        ExprV::And(list) => single_doc("and"@, DocV::Array(exprs_doc(list))),
        ExprV::Or(list) => single_doc("or"@, DocV::Array(exprs_doc(list))),
        ExprV::Not(x) => single_doc("not"@, expr_doc(*x)),
        ExprV::Arith { op, lhs, rhs } => single_doc(
            op.named(),
            DocV::Array(seq![expr_doc(*lhs), expr_doc(*rhs)]),
        ),
        ExprV::IsNull(x) => single_doc("is_null"@, expr_doc(*x)),
        ExprV::IsNotNull(x) => single_doc("is_not_null"@, expr_doc(*x)),
        ExprV::Between { expr, lo, hi } => single_doc(
            "between"@,
            DocV::Array(seq![expr_doc(*expr), expr_doc(*lo), expr_doc(*hi)]),
        ),
        ExprV::InList { expr, list } => single_doc(
            "in"@,
            DocV::Array(seq![expr_doc(*expr), DocV::Array(exprs_doc(list))]),
        ),
        ExprV::Like { expr, pattern, case_insensitive } => single_doc(
            if case_insensitive {
                "ilike"@
            } else {
                "like"@
            },
            DocV::Array(seq![expr_doc(*expr), DocV::Str(pattern)]),
        ),
        ExprV::Coalesce(list) => single_doc("coalesce"@, DocV::Array(exprs_doc(list))),
        ExprV::NullIf { lhs, rhs } => single_doc(
            "nullif"@,
            DocV::Array(seq![expr_doc(*lhs), expr_doc(*rhs)]),
        ),
        ExprV::Cast { expr, to } => single_doc(
            "cast"@,
            DocV::Array(seq![expr_doc(*expr), DocV::Str(to.name())]),
        ),
        ExprV::Agg { func, arg } => single_doc(func.named(), expr_doc(*arg)),
    }
}

/// The documents of expressions.
pub open spec fn exprs_doc(list: Seq<ExprV>) -> Seq<DocV>
    decreases list, 0nat,
{
    if list.len() == 0 {
        Seq::empty()
    } else {
        seq![expr_doc(list[0])] + exprs_doc(list.drop_first())
    }
}

pub proof fn lemma_exprs_doc(list: Seq<ExprV>)
    ensures
        exprs_doc(list).len() == list.len(),
        forall|i: int| 0 <= i < list.len() ==> #[trigger] exprs_doc(list)[i] == expr_doc(list[i]),
    decreases list.len(),
{
    if list.len() > 0 {
        let rest = list.drop_first();
        lemma_exprs_doc(rest);
        assert forall|i: int| 0 <= i < list.len() implies #[trigger] exprs_doc(list)[i] == expr_doc(
            list[i],
        ) by {
            if i > 0 {
                assert(exprs_doc(list)[i] == exprs_doc(rest)[i - 1]);
            }
        }
    }
}

/// The document of an expression.
fn expr_to_doc(expr: &Expr) -> (r: Doc)
    ensures
        r@ == expr_doc(expr@),
    decreases expr, 0nat,
{
    proof {
        expr.lemma_parts();
    }
    match expr {
        Expr::Column { table, column } => {
            let body = match table {
                Some(t) => array2(Doc::Str(t.clone()), Doc::Str(column.clone())),
                None => Doc::Str(column.clone()),
            };
            single("col", body)
        },
        Expr::Literal(value) => row_value_to_doc(value),
        Expr::Cmp { op, lhs, rhs } => {
            let body = array2(expr_to_doc(lhs), expr_to_doc(rhs));
            single(op.name(), body)
        },
        Expr::And(items) => single("and", list_to_doc(items)),
        Expr::Or(items) => single("or", list_to_doc(items)),
        Expr::Not(inner) => single("not", expr_to_doc(inner)),
        Expr::Arith { op, lhs, rhs } => {
            let body = array2(expr_to_doc(lhs), expr_to_doc(rhs));
            single(op.name(), body)
        },
        Expr::IsNull(inner) => single("is_null", expr_to_doc(inner)),
        Expr::IsNotNull(inner) => single("is_not_null", expr_to_doc(inner)),
        Expr::Between { expr, lo, hi } => {
            let mut list: Vec<Doc> = Vec::new();
            let a = expr_to_doc(expr);
            let b = expr_to_doc(lo);
            let c = expr_to_doc(hi);
            list.push(a);
            list.push(b);
            list.push(c);
            assert(docs(list@) =~= seq![a@, b@, c@]);
            let body = Doc::Array(list);
            proof {
                body.lemma_parts();
            }
            single("between", body)
        },
        Expr::InList { expr, list } => {
            let body = array2(expr_to_doc(expr), list_to_doc(list));
            single("in", body)
        },
        Expr::Like { expr, pattern, case_insensitive } => {
            let body = array2(expr_to_doc(expr), Doc::Str(pattern.clone()));
            single(
                if *case_insensitive {
                    "ilike"
                } else {
                    "like"
                },
                body,
            )
        },
        Expr::Coalesce(items) => single("coalesce", list_to_doc(items)),
        Expr::NullIf { lhs, rhs } => {
            let body = array2(expr_to_doc(lhs), expr_to_doc(rhs));
            single("nullif", body)
        },
        Expr::Cast { expr, to } => {
            let body = array2(expr_to_doc(expr), Doc::Str(to.as_str().to_owned()));
            single("cast", body)
        },
        Expr::Agg { func, arg } => single(func.name(), expr_to_doc(arg)),
    }
}

fn list_to_doc(items: &Vec<Expr>) -> (r: Doc)
    ensures
        r@ == DocV::Array(exprs_doc(views(items@))),
    decreases items, 0nat,
{
    let ghost xs = views(items@);
    proof {
        lemma_exprs_doc(xs);
    }
    let mut list: Vec<Doc> = Vec::new();
    let mut i: usize = 0;
    while i < items.len()
        invariant
            i <= items@.len(),
            list@.len() == i,
            xs == views(items@),
            exprs_doc(xs).len() == xs.len(),
            forall|j: int| 0 <= j < xs.len() ==> #[trigger] exprs_doc(xs)[j] == expr_doc(xs[j]),
            forall|j: int| 0 <= j < i ==> (#[trigger] list@[j])@ == exprs_doc(xs)[j],
        decreases items@.len() - i,
    {
        assert(xs[i as int] == items@[i as int]@);
        assert(decreases_to!(items => items@[i as int]));
        let d = expr_to_doc(&items[i]);
        assert(d@ == exprs_doc(xs)[i as int]);
        list.push(d);
        i = i + 1;
    }
    assert(docs(list@) =~= exprs_doc(xs));
    let r = Doc::Array(list);
    proof {
        r.lemma_parts();
    }
    r
}

// Selects.

/// The document of a table reference.
pub open spec fn table_ref_doc(t: TableRefV) -> DocV {
    Fields::none().with("table"@, DocV::Str(t.table)).with_opt(
        "as"@,
        match t.alias {
            Some(a) => Some(DocV::Str(a)),
            None => None,
        },
    ).doc()
}

fn table_ref_to_doc(t: &TableRef) -> (r: Doc)
    ensures
        r@ == table_ref_doc(t@),
{
    let mut entries = no_entries();
    put(&mut entries, "table", Doc::Str(t.table.clone()));
    if let Some(alias) = &t.alias {
        put(&mut entries, "as", Doc::Str(alias.clone()));
    }
    dict(entries)
}

/// The document of an optional expression.
pub open spec fn opt_expr_doc(e: Option<ExprV>) -> Option<DocV> {
    match e {
        Some(x) => Some(expr_doc(x)),
        None => None,
    }
}

/// The document of a join.
pub open spec fn join_spec_doc(j: JoinSpecV) -> DocV {
    Fields::none().with("type"@, DocV::Str(j.kind.named())).with(
        "table"@,
        table_ref_doc(j.table),
    ).with_opt("on"@, opt_expr_doc(j.on)).doc()
}

fn join_spec_to_doc(j: &JoinSpec) -> (r: Doc)
    ensures
        r@ == join_spec_doc(j@),
{
    let mut entries = no_entries();
    put(&mut entries, "type", Doc::Str(j.kind.name().to_owned()));
    put(&mut entries, "table", table_ref_to_doc(&j.table));
    if let Some(on) = &j.on {
        put(&mut entries, "on", expr_to_doc(on));
    }
    dict(entries)
}

/// The document of a sort key.
pub open spec fn sort_key_doc(k: SortKeyV) -> DocV {
    Fields::none().with("expr"@, expr_doc(k.expr)).with("dir"@, DocV::Str(k.dir.named())).doc()
}

fn sort_key_to_doc(k: &SortKey) -> (r: Doc)
    ensures
        r@ == sort_key_doc(k@),
{
    let mut entries = no_entries();
    put(&mut entries, "expr", expr_to_doc(&k.expr));
    put(&mut entries, "dir", Doc::Str(k.dir.name().to_owned()));
    dict(entries)
}

/// The document of a projection item.
pub open spec fn projection_doc(p: ProjectionV) -> DocV {
    match p {
        ProjectionV::Expr(e) => expr_doc(e),
        ProjectionV::Aliased { name, expr } => single_doc(
            "as"@,
            DocV::Array(seq![DocV::Str(name), expr_doc(expr)]),
        ),
    }
}

fn projection_to_doc(p: &Projection) -> (r: Doc)
    ensures
        r@ == projection_doc(p@),
{
    match p {
        Projection::Expr(e) => expr_to_doc(e),
        Projection::Aliased { name, expr } => {
            let body = array2(Doc::Str(name.clone()), expr_to_doc(expr));
            single("as", body)
        },
    }
}

/// The documents of joins.
pub open spec fn joins_doc(list: Seq<JoinSpecV>) -> DocV {
    DocV::Array(Seq::new(list.len(), |i: int| join_spec_doc(list[i])))
}

fn joins_to_doc(items: &Vec<JoinSpec>) -> (r: Doc)
    ensures
        r@ == joins_doc(views(items@)),
{
    let ghost xs = views(items@);
    let mut list: Vec<Doc> = Vec::new();
    let mut i: usize = 0;
    while i < items.len()
        invariant
            i <= items@.len(),
            list@.len() == i,
            xs == views(items@),
            forall|j: int| 0 <= j < i ==> (#[trigger] list@[j])@ == join_spec_doc(xs[j]),
        decreases items@.len() - i,
    {
        assert(xs[i as int] == items@[i as int]@);
        let d = join_spec_to_doc(&items[i]);
        list.push(d);
        i = i + 1;
    }
    assert(docs(list@) =~= joins_doc(xs)->Array_0);
    let r = Doc::Array(list);
    proof {
        r.lemma_parts();
    }
    r
}

/// The documents of sort keys.
pub open spec fn sorts_doc(list: Seq<SortKeyV>) -> DocV {
    DocV::Array(Seq::new(list.len(), |i: int| sort_key_doc(list[i])))
}

fn sorts_to_doc(items: &Vec<SortKey>) -> (r: Doc)
    ensures
        r@ == sorts_doc(views(items@)),
{
    let ghost xs = views(items@);
    let mut list: Vec<Doc> = Vec::new();
    let mut i: usize = 0;
    while i < items.len()
        invariant
            i <= items@.len(),
            list@.len() == i,
            xs == views(items@),
            forall|j: int| 0 <= j < i ==> (#[trigger] list@[j])@ == sort_key_doc(xs[j]),
        decreases items@.len() - i,
    {
        assert(xs[i as int] == items@[i as int]@);
        let d = sort_key_to_doc(&items[i]);
        list.push(d);
        i = i + 1;
    }
    assert(docs(list@) =~= sorts_doc(xs)->Array_0);
    let r = Doc::Array(list);
    proof {
        r.lemma_parts();
    }
    r
}

/// The documents of projection items.
pub open spec fn projections_doc(list: Seq<ProjectionV>) -> DocV {
    DocV::Array(Seq::new(list.len(), |i: int| projection_doc(list[i])))
}

fn projections_to_doc(items: &Vec<Projection>) -> (r: Doc)
    ensures
        r@ == projections_doc(views(items@)),
{
    let ghost xs = views(items@);
    let mut list: Vec<Doc> = Vec::new();
    let mut i: usize = 0;
    while i < items.len()
        invariant
            i <= items@.len(),
            list@.len() == i,
            xs == views(items@),
            forall|j: int| 0 <= j < i ==> (#[trigger] list@[j])@ == projection_doc(xs[j]),
        decreases items@.len() - i,
    {
        assert(xs[i as int] == items@[i as int]@);
        let d = projection_to_doc(&items[i]);
        list.push(d);
        i = i + 1;
    }
    assert(docs(list@) =~= projections_doc(xs)->Array_0);
    let r = Doc::Array(list);
    proof {
        r.lemma_parts();
    }
    r
}

/// The document of named expressions.
pub open spec fn named_exprs_doc(list: Seq<(Seq<char>, ExprV)>) -> DocV {
    DocV::Dict {
        keys: Seq::new(list.len(), |i: int| list[i].0),
        vals: Seq::new(list.len(), |i: int| expr_doc(list[i].1)),
    }
}

fn named_exprs_to_doc(items: &Vec<(String, Expr)>) -> (r: Doc)
    ensures
        r@ == named_exprs_doc(views(items@)),
{
    let ghost xs = views(items@);
    let mut entries = no_entries();
    let mut i: usize = 0;
    assert(entries@.len() == fields(entries@).keys.len());
    while i < items.len()
        invariant
            i <= items@.len(),
            entries@.len() == i,
            xs == views(items@),
            forall|j: int| 0 <= j < i ==> #[trigger] fields(entries@).keys[j] == xs[j].0,
            forall|j: int| 0 <= j < i ==> #[trigger] fields(entries@).vals[j] == expr_doc(xs[j].1),
        decreases items@.len() - i,
    {
        let e = &items[i];
        assert(xs[i as int] == items@[i as int]@);
        let ghost before = fields(entries@);
        put(&mut entries, e.0.as_str(), expr_to_doc(&e.1));
        assert(entries@.len() == fields(entries@).keys.len());
        i = i + 1;
    }
    proof {
        assert(fields(entries@).keys =~= named_exprs_doc(xs)->keys);
        assert(fields(entries@).vals =~= named_exprs_doc(xs)->vals);
    }
    dict(entries)
}

/// Wire ints are i64; protocol counts saturate rather than wrap.
pub open spec fn count_doc(n: u64) -> DocV {
    DocV::Int(
        if n > i64::MAX {
            i64::MAX
        } else {
            n as i64
        },
    )
}

fn count_to_doc(n: u64) -> (r: Doc)
    ensures
        r@ == count_doc(n),
{
    if n > 0x7FFF_FFFF_FFFF_FFFF {
        Doc::Int(i64::MAX)
    } else {
        Doc::Int(n as i64)
    }
}

/// The document of an optional count.
pub open spec fn opt_count_doc(n: Option<u64>) -> Option<DocV> {
    match n {
        Some(n) => Some(count_doc(n)),
        None => None,
    }
}

/// The document of a stage.
pub open spec fn stage_doc(s: StageV) -> DocV {
    match s {
        StageV::Scan(t) => single_doc("scan"@, table_ref_doc(t)),
        StageV::Match(e) => single_doc("match"@, expr_doc(e)),
        StageV::Join(j) => single_doc("join"@, join_spec_doc(j)),
        StageV::Group { by, aggs } => single_doc(
            "group"@,
            Fields::none().with("by"@, DocV::Array(exprs_doc(by))).with(
                "agg"@,
                named_exprs_doc(aggs),
            ).doc(),
        ),
        StageV::Sort(keys) => single_doc("sort"@, sorts_doc(keys)),
        StageV::Project(items) => single_doc("project"@, projections_doc(items)),
        StageV::Distinct(on) => single_doc("distinct"@, DocV::Bool(on)),
        StageV::Limit { limit, offset } => Fields::none().with_opt(
            "limit"@,
            opt_count_doc(limit),
        ).with("offset"@, count_doc(offset)).doc(),
        StageV::Cursor(token) => single_doc("cursor"@, DocV::Bin(token)),
    }
}

/// The document of a stage.
fn stage_to_doc(stage: &Stage) -> (r: Doc)
    ensures
        r@ == stage_doc(stage@),
{
    match stage {
        Stage::Scan(t) => single("scan", table_ref_to_doc(t)),
        Stage::Match(e) => single("match", expr_to_doc(e)),
        Stage::Join(j) => single("join", join_spec_to_doc(j)),
        Stage::Group { by, aggs } => {
            let mut entries = no_entries();
            put(&mut entries, "by", list_to_doc(by));
            put(&mut entries, "agg", named_exprs_to_doc(aggs));
            single("group", dict(entries))
        },
        Stage::Sort(keys) => single("sort", sorts_to_doc(keys)),
        Stage::Project(items) => single("project", projections_to_doc(items)),
        Stage::Distinct(on) => single("distinct", Doc::Bool(*on)),
        Stage::Limit { limit, offset } => {
            let mut entries = no_entries();
            if let Some(n) = limit {
                put(&mut entries, "limit", count_to_doc(*n));
            }
            put(&mut entries, "offset", count_to_doc(*offset));
            dict(entries)
        },
        Stage::Cursor(token) => single("cursor", Doc::Bin(to_vec(token.as_slice()))),
    }
}

/// The documents of stages.
pub open spec fn stages_doc(list: Seq<StageV>) -> DocV {
    DocV::Array(Seq::new(list.len(), |i: int| stage_doc(list[i])))
}

fn stages_to_doc(items: &Vec<Stage>) -> (r: Doc)
    ensures
        r@ == stages_doc(views(items@)),
{
    let ghost xs = views(items@);
    let mut list: Vec<Doc> = Vec::new();
    let mut i: usize = 0;
    while i < items.len()
        invariant
            i <= items@.len(),
            list@.len() == i,
            xs == views(items@),
            forall|j: int| 0 <= j < i ==> (#[trigger] list@[j])@ == stage_doc(xs[j]),
        decreases items@.len() - i,
    {
        assert(xs[i as int] == items@[i as int]@);
        let d = stage_to_doc(&items[i]);
        list.push(d);
        i = i + 1;
    }
    assert(docs(list@) =~= stages_doc(xs)->Array_0);
    let r = Doc::Array(list);
    proof {
        r.lemma_parts();
    }
    r
}

/// A document, if there is anything to say.
pub open spec fn unless(empty: bool, d: DocV) -> Option<DocV> {
    if empty {
        None
    } else {
        Some(d)
    }
}

/// The fields of a clause select after `m`.
pub open spec fn clause_fields(m: Fields, c: ClauseSelectV) -> Fields {
    m.with_opt(
        "from"@,
        match c.from {
            Some(t) => Some(table_ref_doc(t)),
            None => None,
        },
    ).with_opt("joins"@, unless(c.joins.len() == 0, joins_doc(c.joins))).with_opt(
        "where"@,
        opt_expr_doc(c.where_),
    ).with_opt(
        "group_by"@,
        unless(c.group_by.len() == 0, DocV::Array(exprs_doc(c.group_by))),
    ).with_opt("having"@, opt_expr_doc(c.having)).with_opt(
        "order_by"@,
        unless(c.order_by.len() == 0, sorts_doc(c.order_by)),
    ).with_opt(
        "select"@,
        match c.select {
            Some(list) => Some(projections_doc(list)),
            None => None,
        },
    ).with_opt("distinct"@, unless(!c.distinct, DocV::Bool(true))).with_opt(
        "limit"@,
        opt_count_doc(c.limit),
    ).with_opt("offset"@, opt_count_doc(c.offset)).with_opt(
        "cursor"@,
        match c.cursor {
            Some(t) => Some(DocV::Bin(t)),
            None => None,
        },
    )
}

/// The fields of a select after `m`.
pub open spec fn select_fields(m: Fields, s: SelectV) -> Fields {
    match s {
        SelectV::Pipeline(stages) => m.with("pipeline"@, stages_doc(stages)),
        SelectV::Clause(c) => clause_fields(m, c),
    }
}

fn clause_entries(entries: &mut Vec<(String, Doc)>, c: &ClauseSelect)
    ensures
        fields(final(entries)@) == clause_fields(fields(old(entries)@), c@),
{
    proof {
        assert(c@.joins.len() == c.joins@.len());
        assert(c@.group_by.len() == c.group_by@.len());
        assert(c@.order_by.len() == c.order_by@.len());
    }
    if let Some(from) = &c.from {
        put(entries, "from", table_ref_to_doc(from));
    }
    if c.joins.len() > 0 {
        put(entries, "joins", joins_to_doc(&c.joins));
    }
    if let Some(where_) = &c.where_ {
        put(entries, "where", expr_to_doc(where_));
    }
    if c.group_by.len() > 0 {
        put(entries, "group_by", list_to_doc(&c.group_by));
    }
    if let Some(having) = &c.having {
        put(entries, "having", expr_to_doc(having));
    }
    if c.order_by.len() > 0 {
        put(entries, "order_by", sorts_to_doc(&c.order_by));
    }
    if let Some(select) = &c.select {
        put(entries, "select", projections_to_doc(select));
    }
    if c.distinct {
        put(entries, "distinct", Doc::Bool(true));
    }
    if let Some(limit) = c.limit {
        put(entries, "limit", count_to_doc(limit));
    }
    if let Some(offset) = c.offset {
        put(entries, "offset", count_to_doc(offset));
    }
    if let Some(cursor) = &c.cursor {
        put(entries, "cursor", Doc::Bin(to_vec(cursor.as_slice())));
    }
}

fn select_entries(entries: &mut Vec<(String, Doc)>, select: &Select)
    ensures
        fields(final(entries)@) == select_fields(fields(old(entries)@), select@),
{
    match select {
        Select::Pipeline(stages) => put(entries, "pipeline", stages_to_doc(stages)),
        Select::Clause(c) => clause_entries(entries, c),
    }
}

// Writes.

/// The document of a row.
pub open spec fn row_doc(row: Seq<(Seq<char>, ValueV)>) -> DocV {
    DocV::Dict {
        keys: Seq::new(row.len(), |i: int| row[i].0),
        vals: Seq::new(row.len(), |i: int| value_doc(row[i].1)),
    }
}

fn row_to_doc(row: &Vec<(String, Value)>) -> (r: Doc)
    ensures
        r@ == row_doc(views(row@)),
{
    let ghost xs = views(row@);
    let mut entries = no_entries();
    let mut i: usize = 0;
    assert(entries@.len() == fields(entries@).keys.len());
    while i < row.len()
        invariant
            i <= row@.len(),
            entries@.len() == i,
            xs == views(row@),
            forall|j: int| 0 <= j < i ==> #[trigger] fields(entries@).keys[j] == xs[j].0,
            forall|j: int| 0 <= j < i ==> #[trigger] fields(entries@).vals[j] == value_doc(xs[j].1),
        decreases row@.len() - i,
    {
        let e = &row[i];
        assert(xs[i as int] == row@[i as int]@);
        put(&mut entries, e.0.as_str(), row_value_to_doc(&e.1));
        assert(entries@.len() == fields(entries@).keys.len());
        i = i + 1;
    }
    proof {
        assert(fields(entries@).keys =~= row_doc(xs)->keys);
        assert(fields(entries@).vals =~= row_doc(xs)->vals);
    }
    dict(entries)
}

/// The fields of an insert after `m`.
pub open spec fn insert_fields(m: Fields, i: InsertV) -> Fields {
    m.with("table"@, DocV::Str(i.table)).with(
        "rows"@,
        DocV::Array(Seq::new(i.rows.len(), |j: int| row_doc(i.rows[j]))),
    )
}

fn insert_entries(entries: &mut Vec<(String, Doc)>, insert: &Insert)
    ensures
        fields(final(entries)@) == insert_fields(fields(old(entries)@), insert@),
{
    let ghost xs = insert@.rows;
    let mut rows: Vec<Doc> = Vec::new();
    let mut i: usize = 0;
    while i < insert.rows.len()
        invariant
            i <= insert.rows@.len(),
            rows@.len() == i,
            xs == insert@.rows,
            forall|j: int| 0 <= j < i ==> (#[trigger] rows@[j])@ == row_doc(xs[j]),
        decreases insert.rows@.len() - i,
    {
        assert(xs[i as int] == views(insert.rows@[i as int]@));
        let d = row_to_doc(&insert.rows[i]);
        rows.push(d);
        i = i + 1;
    }
    assert(docs(rows@) =~= Seq::new(xs.len(), |j: int| row_doc(xs[j])));
    let list = Doc::Array(rows);
    proof {
        list.lemma_parts();
    }
    put(entries, "table", Doc::Str(insert.table.clone()));
    put(entries, "rows", list);
}

/// The fields of a selector after `m`.
pub open spec fn selector_fields(m: Fields, s: Option<SelectorV>) -> Fields {
    match s {
        Some(SelectorV::Where(e)) => m.with("where"@, expr_doc(e)),
        Some(SelectorV::All) => m.with("all"@, DocV::Bool(true)),
        None => m,
    }
}

fn selector_entries(entries: &mut Vec<(String, Doc)>, selector: &Option<Selector>)
    ensures
        fields(final(entries)@) == selector_fields(fields(old(entries)@), opt(*selector)),
{
    match selector {
        Some(Selector::Where(e)) => put(entries, "where", expr_to_doc(e)),
        Some(Selector::All) => put(entries, "all", Doc::Bool(true)),
        None => {},
    }
}

/// The fields of an update after `m`.
pub open spec fn update_fields(m: Fields, u: UpdateV) -> Fields {
    selector_fields(m.with("table"@, DocV::Str(u.table)), u.selector).with(
        "set"@,
        named_exprs_doc(u.set),
    ).with_opt("unconditional"@, unless(!u.unconditional, DocV::Bool(true)))
}

fn update_entries(entries: &mut Vec<(String, Doc)>, update: &Update)
    ensures
        fields(final(entries)@) == update_fields(fields(old(entries)@), update@),
{
    put(entries, "table", Doc::Str(update.table.clone()));
    selector_entries(entries, &update.selector);
    put(entries, "set", named_exprs_to_doc(&update.set));
    if update.unconditional {
        put(entries, "unconditional", Doc::Bool(true));
    }
}

/// The fields of a delete after `m`.
pub open spec fn delete_fields(m: Fields, d: DeleteV) -> Fields {
    selector_fields(m.with("table"@, DocV::Str(d.table)), d.selector)
}

fn delete_entries(entries: &mut Vec<(String, Doc)>, delete: &Delete)
    ensures
        fields(final(entries)@) == delete_fields(fields(old(entries)@), delete@),
{
    put(entries, "table", Doc::Str(delete.table.clone()));
    selector_entries(entries, &delete.selector);
}

/// The fields of a request after `m`. The operations of a transaction carry no
/// version.
pub open spec fn request_fields(m: Fields, r: RequestV) -> Fields
    decreases r, 0nat,
{
    match r {
        RequestV::Select(s) => select_fields(m.with("op"@, DocV::Str("select"@)), s),
        RequestV::Insert(i) => insert_fields(m.with("op"@, DocV::Str("insert"@)), i),
        RequestV::Update(u) => update_fields(m.with("op"@, DocV::Str("update"@)), u),
        RequestV::Delete(d) => delete_fields(m.with("op"@, DocV::Str("delete"@)), d),
        RequestV::Transaction(ops) => m.with("op"@, DocV::Str("transaction"@)).with(
            "ops"@,
            DocV::Array(ops_doc(ops)),
        ),
        RequestV::Explain(s) => m.with("op"@, DocV::Str("explain"@)).with(
            "query"@,
            select_fields(Fields::none().with("op"@, DocV::Str("select"@)), s).doc(),
        ),
    }
}

/// The documents of the operations of a transaction.
pub open spec fn ops_doc(ops: Seq<RequestV>) -> Seq<DocV>
    decreases ops, 0nat,
{
    if ops.len() == 0 {
        Seq::empty()
    } else {
        seq![request_fields(Fields::none(), ops[0]).doc()] + ops_doc(ops.drop_first())
    }
}

pub proof fn lemma_ops_doc(ops: Seq<RequestV>)
    ensures
        ops_doc(ops).len() == ops.len(),
        forall|i: int|
            0 <= i < ops.len() ==> #[trigger] ops_doc(ops)[i] == request_fields(
                Fields::none(),
                ops[i],
            ).doc(),
    decreases ops.len(),
{
    if ops.len() > 0 {
        let rest = ops.drop_first();
        lemma_ops_doc(rest);
        assert forall|i: int| 0 <= i < ops.len() implies #[trigger] ops_doc(ops)[i]
            == request_fields(Fields::none(), ops[i]).doc() by {
            if i > 0 {
                assert(ops_doc(ops)[i] == ops_doc(rest)[i - 1]);
            }
        }
    }
}

/// The document of a request.
pub open spec fn request_doc(r: RequestV) -> DocV {
    request_fields(Fields::none().with("v"@, DocV::Int(PROTOCOL_VERSION)), r).doc()
}

fn request_entries(entries: &mut Vec<(String, Doc)>, request: &Request)
    ensures
        fields(final(entries)@) == request_fields(fields(old(entries)@), request@),
    decreases request,
{
    proof {
        request.lemma_parts();
    }
    match request {
        Request::Select(select) => {
            put(entries, "op", Doc::Str("select".to_owned()));
            select_entries(entries, select);
        },
        Request::Insert(insert) => {
            put(entries, "op", Doc::Str("insert".to_owned()));
            insert_entries(entries, insert);
        },
        Request::Update(update) => {
            put(entries, "op", Doc::Str("update".to_owned()));
            update_entries(entries, update);
        },
        Request::Delete(delete) => {
            put(entries, "op", Doc::Str("delete".to_owned()));
            delete_entries(entries, delete);
        },
        Request::Transaction(ops) => {
            put(entries, "op", Doc::Str("transaction".to_owned()));
            let ghost xs = views(ops@);
            proof {
                lemma_ops_doc(xs);
            }
            let mut inner: Vec<Doc> = Vec::new();
            let mut i: usize = 0;
            while i < ops.len()
                invariant
                    i <= ops@.len(),
                    inner@.len() == i,
                    xs == views(ops@),
                    decreases_to!(request => ops),
                    ops_doc(xs).len() == xs.len(),
                    forall|j: int|
                        0 <= j < xs.len() ==> #[trigger] ops_doc(xs)[j] == request_fields(
                            Fields::none(),
                            xs[j],
                        ).doc(),
                    forall|j: int| 0 <= j < i ==> (#[trigger] inner@[j])@ == ops_doc(xs)[j],
                decreases ops@.len() - i,
            {
                assert(xs[i as int] == ops@[i as int]@);
                // Inner ops carry no `v`; the envelope does.
                let mut op = no_entries();
                request_entries(&mut op, &ops[i]);
                let d = dict(op);
                assert(d@ == ops_doc(xs)[i as int]);
                inner.push(d);
                i = i + 1;
            }
            assert(docs(inner@) =~= ops_doc(xs));
            let list = Doc::Array(inner);
            proof {
                list.lemma_parts();
            }
            put(entries, "ops", list);
        },
        Request::Explain(select) => {
            put(entries, "op", Doc::Str("explain".to_owned()));
            let mut query = no_entries();
            put(&mut query, "op", Doc::Str("select".to_owned()));
            select_entries(&mut query, select);
            put(entries, "query", dict(query));
        },
    }
}

/// The canonical document of a request.
pub fn request_to_doc(request: &Request) -> (r: Doc)
    ensures
        r@ == request_doc(request@),
{
    let mut entries = no_entries();
    put(&mut entries, "v", Doc::Int(PROTOCOL_VERSION));
    request_entries(&mut entries, request);
    dict(entries)
}

/// Encode a request in its canonical wire form (the inverse of
/// [`decode_request`](super::select::decode_request)).
pub fn encode_request(request: &Request) -> (r: Vec<u8>)
    ensures
        r@ == form(request_doc(request@)),
{
    encode_doc(&request_to_doc(request))
}

} // verus!
