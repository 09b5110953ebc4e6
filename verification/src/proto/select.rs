//! Selects and whole requests: the strict mapping of documents.

use vstd::prelude::*;
use crate::bytes::to_vec;
use crate::text::same;
use crate::value::{Value, ValueV};
use crate::views::{
    collect, lemma_collect_err, lemma_collect_ok, lemma_views_empty, lemma_views_push, opt, views,
};
use super::ast::{
    ClauseSelect, ClauseSelectV, Delete, DeleteV, Insert, InsertV, JoinSpec, JoinSpecV, Projection,
    ProjectionV, Request, RequestV, Select, SelectV, Selector, SelectorV, SortKey, SortKeyV,
    TableRefV, Update, UpdateV,
};
use super::encode::{encode_doc, form};
use super::error::{ProtoError, ProtoErrorV, Result};
use super::grammar::{
    agrees, array_of, as_array, as_bool, as_map, bool_of, field, fields, find, map_of, names, only,
    req, req_str, required, required_str, token_from, token_of, unknown_field, wrong, wrong_shape,
    Fields, Res,
};
use super::request::{
    joins_from, joins_of, named_exprs_from, named_exprs_of, opt_expr, opt_expr_from, opt_exprs,
    opt_exprs_from, opt_u64, opt_u64_from, projections_from, projections_of, sort_keys_from,
    sort_keys_of, stages_from, stages_of, table_ref_from, table_ref_of, PROTOCOL_VERSION,
};
use super::wire::{decode_doc, decoded, docs, DecodeLimits, Doc, DocV};

verus! {

/// The fields of a select.
pub open spec fn clause_keys() -> Seq<Seq<char>> {
    seq![
        "op"@,
        "v"@,
        "from"@,
        "joins"@,
        "where"@,
        "group_by"@,
        "having"@,
        "order_by"@,
        "select"@,
        "distinct"@,
        "limit"@,
        "offset"@,
        "cursor"@,
        "pipeline"@,
    ]
}

/// The source table of a clause select.
pub open spec fn from_of(m: Fields) -> Res<TableRefV> {
    match required(m, "select"@, "from"@) {
        Err(e) => Err(e),
        Ok(d) => table_ref_of(d, "from"@),
    }
}

/// The joins of a clause select; none if the field is absent.
pub open spec fn opt_joins(m: Fields) -> Res<Seq<JoinSpecV>> {
    match field(m, "joins"@) {
        None => Ok(Seq::empty()),
        Some(d) => match array_of(d, "select"@, "joins"@) {
            Err(e) => Err(e),
            Ok(items) => joins_of(items),
        },
    }
}

/// The sort keys of a clause select; none if the field is absent.
pub open spec fn opt_sorts(m: Fields) -> Res<Seq<SortKeyV>> {
    match field(m, "order_by"@) {
        None => Ok(Seq::empty()),
        Some(d) => sort_keys_of(d, "select"@, "order_by"@),
    }
}

/// The output list of a clause select.
pub open spec fn opt_projections(m: Fields) -> Res<Option<Seq<ProjectionV>>> {
    match field(m, "select"@) {
        None => Ok(None),
        Some(d) => match array_of(d, "select"@, "select"@) {
            Err(e) => Err(e),
            Ok(items) => match projections_of(items) {
                Err(e) => Err(e),
                Ok(list) => Ok(Some(list)),
            },
        },
    }
}

/// The truth value of an optional field; `false` if it is absent.
pub open spec fn opt_bool(m: Fields, node: Seq<char>, name: Seq<char>) -> Res<bool> {
    match field(m, name) {
        None => Ok(false),
        Some(d) => bool_of(d, node, name),
    }
}

/// The token of a clause select.
pub open spec fn opt_token(m: Fields) -> Res<Option<Seq<u8>>> {
    match field(m, "cursor"@) {
        None => Ok(None),
        Some(d) => match token_of(d, "select"@, "cursor"@) {
            Err(e) => Err(e),
            Ok(t) => Ok(Some(t)),
        },
    }
}

/// A clause select: its fields are looked at in this order.
pub open spec fn clause_of(m: Fields) -> Res<ClauseSelectV> {
    let from = from_of(m);
    let joins = opt_joins(m);
    let where_ = opt_expr(m, "where"@);
    let group_by = opt_exprs(m, "select"@, "group_by"@);
    let having = opt_expr(m, "having"@);
    let order_by = opt_sorts(m);
    let select = opt_projections(m);
    let distinct = opt_bool(m, "select"@, "distinct"@);
    let limit = opt_u64(m, "select"@, "limit"@);
    let offset = opt_u64(m, "select"@, "offset"@);
    let cursor = opt_token(m);
    if from is Err {
        Err(from->Err_0)
    } else if joins is Err {
        Err(joins->Err_0)
    } else if where_ is Err {
        Err(where_->Err_0)
    } else if group_by is Err {
        Err(group_by->Err_0)
    } else if having is Err {
        Err(having->Err_0)
    } else if order_by is Err {
        Err(order_by->Err_0)
    } else if select is Err {
        Err(select->Err_0)
    } else if distinct is Err {
        Err(distinct->Err_0)
    } else if limit is Err {
        Err(limit->Err_0)
    } else if offset is Err {
        Err(offset->Err_0)
    } else if cursor is Err {
        Err(cursor->Err_0)
    } else {
        Ok(
            ClauseSelectV {
                from: Some(from->Ok_0),
                joins: joins->Ok_0,
                where_: where_->Ok_0,
                group_by: group_by->Ok_0,
                having: having->Ok_0,
                order_by: order_by->Ok_0,
                select: select->Ok_0,
                distinct: distinct->Ok_0,
                limit: limit->Ok_0,
                offset: offset->Ok_0,
                cursor: cursor->Ok_0,
            },
        )
    }
}

/// A select in either form.
pub open spec fn select_of(m: Fields) -> Res<SelectV> {
    match unknown_field(m, "select"@, clause_keys()) {
        Some(e) => Err(e),
        None => match field(m, "pipeline"@) {
            Some(d) => match unknown_field(m, "select"@, seq!["op"@, "v"@, "pipeline"@]) {
                Some(e) => Err(e),
                None => match array_of(d, "select"@, "pipeline"@) {
                    Err(e) => Err(e),
                    Ok(items) => match stages_of(items) {
                        Err(e) => Err(e),
                        Ok(stages) => Ok(SelectV::Pipeline(stages)),
                    },
                },
            },
            None => match clause_of(m) {
                Err(e) => Err(e),
                Ok(c) => Ok(SelectV::Clause(c)),
            },
        },
    }
}

fn opt_joins_from(map: &Vec<(String, Doc)>) -> (r: Result<Vec<JoinSpec>>)
    ensures
        match r {
            Ok(list) => opt_joins(fields(map@)) == Ok::<Seq<JoinSpecV>, ProtoErrorV>(views(list@)),
            Err(e) => opt_joins(fields(map@)) == Err::<Seq<JoinSpecV>, ProtoErrorV>(e@),
        },
{
    match find(map, "joins") {
        None => {
            let out: Vec<JoinSpec> = Vec::new();
            proof {
                lemma_views_empty::<JoinSpec>();
            }
            Ok(out)
        },
        Some(d) => match as_array(d, "select", "joins") {
            Ok(items) => joins_from(items),
            Err(e) => Err(e),
        },
    }
}

fn opt_sorts_from(map: &Vec<(String, Doc)>) -> (r: Result<Vec<SortKey>>)
    ensures
        match r {
            Ok(list) => opt_sorts(fields(map@)) == Ok::<Seq<SortKeyV>, ProtoErrorV>(views(list@)),
            Err(e) => opt_sorts(fields(map@)) == Err::<Seq<SortKeyV>, ProtoErrorV>(e@),
        },
{
    match find(map, "order_by") {
        None => {
            let out: Vec<SortKey> = Vec::new();
            proof {
                lemma_views_empty::<SortKey>();
            }
            Ok(out)
        },
        Some(d) => sort_keys_from(d, "select", "order_by"),
    }
}

fn opt_projections_from(map: &Vec<(String, Doc)>) -> (r: Result<Option<Vec<Projection>>>)
    ensures
        match r {
            Ok(Some(list)) => opt_projections(fields(map@)) == Ok::<
                Option<Seq<ProjectionV>>,
                ProtoErrorV,
            >(Some(views(list@))),
            Ok(None) => opt_projections(fields(map@)) == Ok::<
                Option<Seq<ProjectionV>>,
                ProtoErrorV,
            >(None),
            Err(e) => opt_projections(fields(map@)) == Err::<
                Option<Seq<ProjectionV>>,
                ProtoErrorV,
            >(e@),
        },
{
    match find(map, "select") {
        None => Ok(None),
        Some(d) => match as_array(d, "select", "select") {
            Ok(items) => match projections_from(items) {
                Ok(list) => Ok(Some(list)),
                Err(e) => Err(e),
            },
            Err(e) => Err(e),
        },
    }
}

fn opt_bool_from(map: &Vec<(String, Doc)>, node: &'static str, name: &'static str) -> (r: Result<
    bool,
>)
    ensures
        match r {
            Ok(b) => opt_bool(fields(map@), node@, name@) == Ok::<bool, ProtoErrorV>(b),
            Err(e) => opt_bool(fields(map@), node@, name@) == Err::<bool, ProtoErrorV>(e@),
        },
{
    match find(map, name) {
        None => Ok(false),
        Some(d) => as_bool(d, node, name),
    }
}

/// Map the fields of a request onto a select.
fn select_from(map: &Vec<(String, Doc)>) -> (r: Result<Select>)
    ensures
        agrees(r, select_of(fields(map@))),
{
    let ghost m = fields(map@);
    let allowed: [&'static str; 14] = [
        "op",
        "v",
        "from",
        "joins",
        "where",
        "group_by",
        "having",
        "order_by",
        "select",
        "distinct",
        "limit",
        "offset",
        "cursor",
        "pipeline",
    ];
    assert(names(allowed@) =~= clause_keys());
    match only(map, "select", allowed.as_slice()) {
        Ok(_) => {},
        Err(e) => {
            return Err(e);
        },
    }
    if let Some(stages) = find(map, "pipeline") {
        // Pipeline form: no clause keys may ride along.
        let allowed: [&'static str; 3] = ["op", "v", "pipeline"];
        assert(names(allowed@) =~= seq!["op"@, "v"@, "pipeline"@]);
        match only(map, "select", allowed.as_slice()) {
            Ok(_) => {},
            Err(e) => {
                return Err(e);
            },
        }
        let items = match as_array(stages, "select", "pipeline") {
            Ok(items) => items,
            Err(e) => {
                return Err(e);
            },
        };
        return match stages_from(items) {
            Ok(out) => Ok(Select::Pipeline(out)),
            Err(e) => Err(e),
        };
    }
    match clause_from(map) {
        Ok(c) => Ok(Select::Clause(Box::new(c))),
        Err(e) => Err(e),
    }
}

fn clause_from(map: &Vec<(String, Doc)>) -> (r: Result<ClauseSelect>)
    ensures
        agrees(r, clause_of(fields(map@))),
{
    let from = match req(map, "select", "from") {
        Ok(d) => match table_ref_from(d, "from") {
            Ok(t) => t,
            Err(e) => {
                return Err(e);
            },
        },
        Err(e) => {
            return Err(e);
        },
    };
    let joins = match opt_joins_from(map) {
        Ok(x) => x,
        Err(e) => {
            return Err(e);
        },
    };
    let where_ = match opt_expr_from(map, "where") {
        Ok(x) => x,
        Err(e) => {
            return Err(e);
        },
    };
    let group_by = match opt_exprs_from(map, "select", "group_by") {
        Ok(x) => x,
        Err(e) => {
            return Err(e);
        },
    };
    let having = match opt_expr_from(map, "having") {
        Ok(x) => x,
        Err(e) => {
            return Err(e);
        },
    };
    let order_by = match opt_sorts_from(map) {
        Ok(x) => x,
        Err(e) => {
            return Err(e);
        },
    };
    let select = match opt_projections_from(map) {
        Ok(x) => x,
        Err(e) => {
            return Err(e);
        },
    };
    let distinct = match opt_bool_from(map, "select", "distinct") {
        Ok(x) => x,
        Err(e) => {
            return Err(e);
        },
    };
    let limit = match opt_u64_from(map, "select", "limit") {
        Ok(x) => x,
        Err(e) => {
            return Err(e);
        },
    };
    let offset = match opt_u64_from(map, "select", "offset") {
        Ok(x) => x,
        Err(e) => {
            return Err(e);
        },
    };
    let cursor = match find(map, "cursor") {
        None => None,
        Some(d) => match token_from(d, "select", "cursor") {
            Ok(t) => Some(t),
            Err(e) => {
                return Err(e);
            },
        },
    };
    Ok(
        ClauseSelect {
            from: Some(from),
            joins,
            where_,
            group_by,
            having,
            order_by,
            select,
            distinct,
            limit,
            offset,
            cursor,
        },
    )
}

// Writes.

/// An insert-row value: scalars map to their value, and any container is a
/// `json` document stored as its canonical MessagePack bytes.
pub open spec fn row_value_of(d: DocV) -> ValueV {
    match d {
        DocV::Null => ValueV::Null,
        DocV::Bool(b) => ValueV::Bool(b),
        DocV::Int(n) => ValueV::I64(n),
        DocV::Float(f) => ValueV::F64(f),
        DocV::Str(s) => ValueV::Text(s),
        DocV::Bin(b) => ValueV::Blob(b),
        DocV::Array(_) => ValueV::Json(form(d)),
        DocV::Dict { .. } => ValueV::Json(form(d)),
    }
}

fn row_value_from(doc: &Doc) -> (r: Value)
    ensures
        r@ == row_value_of(doc@),
{
    proof {
        doc.lemma_parts();
    }
    match doc {
        Doc::Null => Value::Null,
        Doc::Bool(b) => Value::Bool(*b),
        Doc::Int(n) => Value::I64(*n),
        Doc::Float(f) => Value::F64(*f),
        Doc::Str(s) => Value::Text(s.clone()),
        Doc::Bin(b) => Value::Blob(to_vec(b.as_slice())),
        Doc::Array(_) => Value::Json(encode_doc(doc)),
        Doc::Dict(_) => Value::Json(encode_doc(doc)),
    }
}

/// The named values of a row.
pub open spec fn row_of(d: DocV) -> Res<Seq<(Seq<char>, ValueV)>> {
    match map_of(d, "insert"@, "rows"@) {
        Err(e) => Err(e),
        Ok(m) => Ok(Seq::new(m.vals.len(), |i: int| (m.keys[i], row_value_of(m.vals[i])))),
    }
}

fn row_from(row: &Doc) -> (r: Result<Vec<(String, Value)>>)
    ensures
        match r {
            Ok(cols) => row_of(row@) == Ok::<Seq<(Seq<char>, ValueV)>, ProtoErrorV>(views(cols@)),
            Err(e) => row_of(row@) == Err::<Seq<(Seq<char>, ValueV)>, ProtoErrorV>(e@),
        },
{
    let entries = match as_map(row, "insert", "rows") {
        Ok(m) => m,
        Err(e) => {
            return Err(e);
        },
    };
    let ghost m = fields(entries@);
    let ghost want = Seq::new(m.vals.len(), |i: int| (m.keys[i], row_value_of(m.vals[i])));
    let mut cols: Vec<(String, Value)> = Vec::new();
    let mut i: usize = 0;
    while i < entries.len()
        invariant
            i <= entries@.len(),
            cols@.len() == i,
            m == fields(entries@),
            want == Seq::new(m.vals.len(), |i: int| (m.keys[i], row_value_of(m.vals[i]))),
            forall|j: int| 0 <= j < i ==> #[trigger] views(cols@)[j] == want[j],
        decreases entries@.len() - i,
    {
        let e = &entries[i];
        assert(m.vals[i as int] == e.1@ && m.keys[i as int] == e.0@);
        let ghost before = cols@;
        let pair = (e.0.clone(), row_value_from(&e.1));
        cols.push(pair);
        proof {
            lemma_views_push(before, pair);
        }
        i = i + 1;
    }
    assert(views(cols@) =~= want);
    Ok(cols)
}

/// An insert.
pub open spec fn insert_of(m: Fields) -> Res<InsertV> {
    match unknown_field(m, "insert"@, seq!["op"@, "v"@, "table"@, "rows"@]) {
        Some(e) => Err(e),
        None => match required_str(m, "insert"@, "table"@) {
            Err(e) => Err(e),
            Ok(table) => match required(m, "insert"@, "rows"@) {
                Err(e) => Err(e),
                Ok(d) => match array_of(d, "insert"@, "rows"@) {
                    Err(e) => Err(e),
                    Ok(items) => match collect(
                        Seq::new(items.len(), |i: int| row_of(items[i])),
                    ) {
                        Err(e) => Err(e),
                        Ok(rows) => Ok(InsertV { table, rows }),
                    },
                },
            },
        },
    }
}

/// What rows hold.
pub open spec fn rows_view(rows: Seq<Vec<(String, Value)>>) -> Seq<Seq<(Seq<char>, ValueV)>> {
    Seq::new(rows.len(), |i: int| views(rows[i]@))
}

fn insert_from(map: &Vec<(String, Doc)>) -> (r: Result<Insert>)
    ensures
        agrees(r, insert_of(fields(map@))),
{
    let allowed: [&'static str; 4] = ["op", "v", "table", "rows"];
    assert(names(allowed@) =~= seq!["op"@, "v"@, "table"@, "rows"@]);
    match only(map, "insert", allowed.as_slice()) {
        Ok(_) => {},
        Err(e) => {
            return Err(e);
        },
    }
    let table = match req_str(map, "insert", "table") {
        Ok(s) => s.to_owned(),
        Err(e) => {
            return Err(e);
        },
    };
    let items = match req(map, "insert", "rows") {
        Ok(d) => match as_array(d, "insert", "rows") {
            Ok(items) => items,
            Err(e) => {
                return Err(e);
            },
        },
        Err(e) => {
            return Err(e);
        },
    };
    let ghost xs = docs(items@);
    let ghost rs = Seq::new(xs.len(), |i: int| row_of(xs[i]));
    let mut rows: Vec<Vec<(String, Value)>> = Vec::new();
    let mut i: usize = 0;
    while i < items.len()
        invariant
            i <= items@.len(),
            rows@.len() == i,
            xs == docs(items@),
            rs == Seq::new(xs.len(), |i: int| row_of(xs[i])),
            insert_of(fields(map@)) == (match collect(rs) {
                Err(e) => Err::<InsertV, ProtoErrorV>(e),
                Ok(rows) => Ok(InsertV { table: table@, rows }),
            }),
            forall|j: int| 0 <= j < i ==> #[trigger] rs[j] == Ok::<
                Seq<(Seq<char>, ValueV)>,
                ProtoErrorV,
            >(rows_view(rows@)[j]),
        decreases items@.len() - i,
    {
        assert(rs[i as int] == row_of(items@[i as int]@));
        match row_from(&items[i]) {
            Ok(row) => {
                let ghost before = rows@;
                rows.push(row);
                assert(rows_view(rows@) =~= rows_view(before).push(views(row@)));
            },
            Err(e) => {
                proof {
                    lemma_collect_err(rs, i as int);
                }
                return Err(e);
            },
        }
        i = i + 1;
    }
    proof {
        lemma_collect_ok(rs, rows_view(rows@));
    }
    let r = Insert { table, rows };
    assert(r@.rows =~= rows_view(rows@));
    Ok(r)
}

/// The row selector of an update or delete.
pub open spec fn selector_of(m: Fields, node: Seq<char>) -> Res<Option<SelectorV>> {
    match (field(m, "where"@), field(m, "all"@)) {
        (Some(_), Some(_)) => Err(
            ProtoErrorV::InvalidValue { node, field: "all"@, found: "set together with where"@ },
        ),
        (Some(d), None) => match super::grammar::expr_of(d) {
            Err(e) => Err(e),
            Ok(x) => Ok(Some(SelectorV::Where(x))),
        },
        (None, Some(d)) => match bool_of(d, node, "all"@) {
            Err(e) => Err(e),
            Ok(b) => if b {
                Ok(Some(SelectorV::All))
            } else {
                Err(ProtoErrorV::InvalidValue { node, field: "all"@, found: "false"@ })
            },
        },
        (None, None) => Ok(None),
    }
}

fn selector_from(map: &Vec<(String, Doc)>, node: &'static str) -> (r: Result<Option<Selector>>)
    ensures
        match r {
            Ok(s) => selector_of(fields(map@), node@) == Ok::<Option<SelectorV>, ProtoErrorV>(
                opt(s),
            ),
            Err(e) => selector_of(fields(map@), node@) == Err::<Option<SelectorV>, ProtoErrorV>(e@),
        },
{
    let where_ = find(map, "where");
    let all = find(map, "all");
    match (where_, all) {
        (Some(_), Some(_)) => Err(
            ProtoError::InvalidValue {
                node,
                field: "all",
                found: "set together with where".to_owned(),
            },
        ),
        (Some(d), None) => match super::grammar::expr_from(d) {
            Ok(x) => Ok(Some(Selector::Where(x))),
            Err(e) => Err(e),
        },
        (None, Some(d)) => match as_bool(d, node, "all") {
            Ok(b) => if b {
                Ok(Some(Selector::All))
            } else {
                Err(
                    ProtoError::InvalidValue { node, field: "all", found: "false".to_owned() },
                )
            },
            Err(e) => Err(e),
        },
        (None, None) => Ok(None),
    }
}

/// An update.
pub open spec fn update_of(m: Fields) -> Res<UpdateV> {
    match unknown_field(
        m,
        "update"@,
        seq!["op"@, "v"@, "table"@, "where"@, "all"@, "set"@, "unconditional"@],
    ) {
        Some(e) => Err(e),
        None => match required_str(m, "update"@, "table"@) {
            Err(e) => Err(e),
            Ok(table) => match selector_of(m, "update"@) {
                Err(e) => Err(e),
                Ok(selector) => match required(m, "update"@, "set"@) {
                    Err(e) => Err(e),
                    Ok(d) => match map_of(d, "update"@, "set"@) {
                        Err(e) => Err(e),
                        Ok(list) => match named_exprs_of(list) {
                            Err(e) => Err(e),
                            Ok(set) => match opt_bool(m, "update"@, "unconditional"@) {
                                Err(e) => Err(e),
                                Ok(unconditional) => Ok(
                                    UpdateV { table, selector, set, unconditional },
                                ),
                            },
                        },
                    },
                },
            },
        },
    }
}

fn update_from(map: &Vec<(String, Doc)>) -> (r: Result<Update>)
    ensures
        agrees(r, update_of(fields(map@))),
{
    let allowed: [&'static str; 7] = [
        "op",
        "v",
        "table",
        "where",
        "all",
        "set",
        "unconditional",
    ];
    assert(names(allowed@) =~= seq![
        "op"@,
        "v"@,
        "table"@,
        "where"@,
        "all"@,
        "set"@,
        "unconditional"@,
    ]);
    match only(map, "update", allowed.as_slice()) {
        Ok(_) => {},
        Err(e) => {
            return Err(e);
        },
    }
    let table = match req_str(map, "update", "table") {
        Ok(s) => s.to_owned(),
        Err(e) => {
            return Err(e);
        },
    };
    let selector = match selector_from(map, "update") {
        Ok(s) => s,
        Err(e) => {
            return Err(e);
        },
    };
    let set = match req(map, "update", "set") {
        Ok(d) => match as_map(d, "update", "set") {
            Ok(m) => match named_exprs_from(m) {
                Ok(list) => list,
                Err(e) => {
                    return Err(e);
                },
            },
            Err(e) => {
                return Err(e);
            },
        },
        Err(e) => {
            return Err(e);
        },
    };
    let unconditional = match opt_bool_from(map, "update", "unconditional") {
        Ok(b) => b,
        Err(e) => {
            return Err(e);
        },
    };
    Ok(Update { table, selector, set, unconditional })
}

/// A delete.
pub open spec fn delete_of(m: Fields) -> Res<DeleteV> {
    match unknown_field(m, "delete"@, seq!["op"@, "v"@, "table"@, "where"@, "all"@]) {
        Some(e) => Err(e),
        None => match required_str(m, "delete"@, "table"@) {
            Err(e) => Err(e),
            Ok(table) => match selector_of(m, "delete"@) {
                Err(e) => Err(e),
                Ok(selector) => Ok(DeleteV { table, selector }),
            },
        },
    }
}

fn delete_from(map: &Vec<(String, Doc)>) -> (r: Result<Delete>)
    ensures
        agrees(r, delete_of(fields(map@))),
{
    let allowed: [&'static str; 5] = ["op", "v", "table", "where", "all"];
    assert(names(allowed@) =~= seq!["op"@, "v"@, "table"@, "where"@, "all"@]);
    match only(map, "delete", allowed.as_slice()) {
        Ok(_) => {},
        Err(e) => {
            return Err(e);
        },
    }
    let table = match req_str(map, "delete", "table") {
        Ok(s) => s.to_owned(),
        Err(e) => {
            return Err(e);
        },
    };
    match selector_from(map, "delete") {
        Ok(selector) => Ok(Delete { table, selector }),
        Err(e) => Err(e),
    }
}

/// A write: the only requests that compose into a transaction.
pub open spec fn write_of(op: Seq<char>, m: Fields) -> Option<Res<RequestV>> {
    if op == "insert"@ {
        Some(
            match insert_of(m) {
                Err(e) => Err(e),
                Ok(x) => Ok(RequestV::Insert(x)),
            },
        )
    } else if op == "update"@ {
        Some(
            match update_of(m) {
                Err(e) => Err(e),
                Ok(x) => Ok(RequestV::Update(x)),
            },
        )
    } else if op == "delete"@ {
        Some(
            match delete_of(m) {
                Err(e) => Err(e),
                Ok(x) => Ok(RequestV::Delete(x)),
            },
        )
    } else {
        None
    }
}

fn write_from(op: &str, map: &Vec<(String, Doc)>) -> (r: Option<Result<Request>>)
    ensures
        match r {
            Some(x) => write_of(op@, fields(map@)) is Some && agrees(
                x,
                write_of(op@, fields(map@))->Some_0,
            ),
            None => write_of(op@, fields(map@)) is None,
        },
{
    if same(op, "insert") {
        Some(
            match insert_from(map) {
                Ok(x) => Ok(Request::Insert(x)),
                Err(e) => Err(e),
            },
        )
    } else if same(op, "update") {
        Some(
            match update_from(map) {
                Ok(x) => Ok(Request::Update(x)),
                Err(e) => Err(e),
            },
        )
    } else if same(op, "delete") {
        Some(
            match delete_from(map) {
                Ok(x) => Ok(Request::Delete(x)),
                Err(e) => Err(e),
            },
        )
    } else {
        None
    }
}

/// One operation of a transaction.
pub open spec fn op_of(d: DocV) -> Res<RequestV> {
    match map_of(d, "transaction"@, "ops"@) {
        Err(e) => Err(e),
        Ok(m) => match required_str(m, "transaction op"@, "op"@) {
            Err(e) => Err(e),
            Ok(op) => match write_of(op, m) {
                Some(r) => r,
                None => Err(ProtoErrorV::UnknownNode { context: "transaction op"@, name: op }),
            },
        },
    }
}

fn op_from(doc: &Doc) -> (r: Result<Request>)
    ensures
        agrees(r, op_of(doc@)),
{
    let map = match as_map(doc, "transaction", "ops") {
        Ok(m) => m,
        Err(e) => {
            return Err(e);
        },
    };
    // Only writes compose into a transaction.
    let op = match req_str(map, "transaction op", "op") {
        Ok(s) => s,
        Err(e) => {
            return Err(e);
        },
    };
    match write_from(op, map) {
        Some(r) => r,
        None => Err(ProtoError::UnknownNode { context: "transaction op", name: op.to_owned() }),
    }
}

/// A transaction.
pub open spec fn transaction_of(m: Fields) -> Res<RequestV> {
    match unknown_field(m, "transaction"@, seq!["op"@, "v"@, "ops"@]) {
        Some(e) => Err(e),
        None => match required(m, "transaction"@, "ops"@) {
            Err(e) => Err(e),
            Ok(d) => match array_of(d, "transaction"@, "ops"@) {
                Err(e) => Err(e),
                Ok(items) => match collect(Seq::new(items.len(), |i: int| op_of(items[i]))) {
                    Err(e) => Err(e),
                    Ok(ops) => Ok(RequestV::Transaction(ops)),
                },
            },
        },
    }
}

fn transaction_from(map: &Vec<(String, Doc)>) -> (r: Result<Request>)
    ensures
        agrees(r, transaction_of(fields(map@))),
{
    let allowed: [&'static str; 3] = ["op", "v", "ops"];
    assert(names(allowed@) =~= seq!["op"@, "v"@, "ops"@]);
    match only(map, "transaction", allowed.as_slice()) {
        Ok(_) => {},
        Err(e) => {
            return Err(e);
        },
    }
    let items = match req(map, "transaction", "ops") {
        Ok(d) => match as_array(d, "transaction", "ops") {
            Ok(items) => items,
            Err(e) => {
                return Err(e);
            },
        },
        Err(e) => {
            return Err(e);
        },
    };
    let ghost xs = docs(items@);
    let ghost rs = Seq::new(xs.len(), |i: int| op_of(xs[i]));
    let mut ops: Vec<Request> = Vec::new();
    let mut i: usize = 0;
    while i < items.len()
        invariant
            i <= items@.len(),
            ops@.len() == i,
            xs == docs(items@),
            rs == Seq::new(xs.len(), |i: int| op_of(xs[i])),
            transaction_of(fields(map@)) == (match collect(rs) {
                Err(e) => Err::<RequestV, ProtoErrorV>(e),
                Ok(ops) => Ok(RequestV::Transaction(ops)),
            }),
            forall|j: int| 0 <= j < i ==> #[trigger] rs[j] == Ok::<RequestV, ProtoErrorV>(
                views(ops@)[j],
            ),
        decreases items@.len() - i,
    {
        assert(rs[i as int] == op_of(items@[i as int]@));
        match op_from(&items[i]) {
            Ok(x) => {
                let ghost before = ops@;
                ops.push(x);
                proof {
                    lemma_views_push(before, x);
                }
            },
            Err(e) => {
                proof {
                    lemma_collect_err(rs, i as int);
                }
                return Err(e);
            },
        }
        i = i + 1;
    }
    proof {
        lemma_collect_ok(rs, views(ops@));
    }
    let r = Request::Transaction(ops);
    proof {
        r.lemma_parts();
    }
    Ok(r)
}

/// An explain.
pub open spec fn explain_of(m: Fields) -> Res<RequestV> {
    match unknown_field(m, "explain"@, seq!["op"@, "v"@, "query"@]) {
        Some(e) => Err(e),
        None => match required(m, "explain"@, "query"@) {
            Err(e) => Err(e),
            Ok(d) => match map_of(d, "explain"@, "query"@) {
                Err(e) => Err(e),
                Ok(q) => match required_str(q, "explain query"@, "op"@) {
                    Err(e) => Err(e),
                    Ok(op) => if op == "select"@ {
                        match select_of(q) {
                            Err(e) => Err(e),
                            Ok(s) => Ok(RequestV::Explain(s)),
                        }
                    } else {
                        Err(ProtoErrorV::UnknownNode { context: "explain query"@, name: op })
                    },
                },
            },
        },
    }
}

fn explain_from(map: &Vec<(String, Doc)>) -> (r: Result<Request>)
    ensures
        agrees(r, explain_of(fields(map@))),
{
    let allowed: [&'static str; 3] = ["op", "v", "query"];
    assert(names(allowed@) =~= seq!["op"@, "v"@, "query"@]);
    match only(map, "explain", allowed.as_slice()) {
        Ok(_) => {},
        Err(e) => {
            return Err(e);
        },
    }
    let query = match req(map, "explain", "query") {
        Ok(d) => match as_map(d, "explain", "query") {
            Ok(m) => m,
            Err(e) => {
                return Err(e);
            },
        },
        Err(e) => {
            return Err(e);
        },
    };
    let op = match req_str(query, "explain query", "op") {
        Ok(s) => s,
        Err(e) => {
            return Err(e);
        },
    };
    if same(op, "select") {
        match select_from(query) {
            Ok(s) => Ok(Request::Explain(s)),
            Err(e) => Err(e),
        }
    } else {
        Err(ProtoError::UnknownNode { context: "explain query", name: op.to_owned() })
    }
}

/// What is wrong with the version field, if anything is.
pub open spec fn version_flaw(m: Fields) -> Option<ProtoErrorV> {
    match field(m, "v"@) {
        None => None,
        Some(DocV::Int(n)) => if n == PROTOCOL_VERSION {
            None
        } else {
            Some(ProtoErrorV::UnsupportedVersion { found: n as int })
        },
        Some(d) => Some(wrong_shape("request"@, "v"@, "int"@, d)),
    }
}

/// The request that a document is.
pub open spec fn request_of(d: DocV) -> Res<RequestV> {
    match map_of(d, "request"@, "request"@) {
        Err(e) => Err(e),
        Ok(m) => match version_flaw(m) {
            Some(e) => Err(e),
            None => match required_str(m, "request"@, "op"@) {
                Err(e) => Err(e),
                Ok(op) => if op == "select"@ {
                    match select_of(m) {
                        Err(e) => Err(e),
                        Ok(s) => Ok(RequestV::Select(s)),
                    }
                } else if op == "transaction"@ {
                    transaction_of(m)
                } else if op == "explain"@ {
                    explain_of(m)
                } else {
                    match write_of(op, m) {
                        Some(r) => r,
                        None => Err(ProtoErrorV::UnknownNode { context: "request"@, name: op }),
                    }
                },
            },
        },
    }
}

/// Map an already-decoded [`Doc`] onto a [`Request`].
pub fn request_from_doc(doc: &Doc) -> (r: Result<Request>)
    ensures
        agrees(r, request_of(doc@)),
{
    let map = match as_map(doc, "request", "request") {
        Ok(m) => m,
        Err(e) => {
            return Err(e);
        },
    };
    if let Some(v) = find(map, "v") {
        match v {
            Doc::Int(n) => {
                if *n != PROTOCOL_VERSION {
                    return Err(ProtoError::UnsupportedVersion { found: *n });
                }
            },
            other => {
                return Err(wrong("request", "v", "int", other));
            },
        }
    }
    let op = match req_str(map, "request", "op") {
        Ok(s) => s,
        Err(e) => {
            return Err(e);
        },
    };
    if same(op, "select") {
        return match select_from(map) {
            Ok(s) => Ok(Request::Select(s)),
            Err(e) => Err(e),
        };
    }
    if same(op, "transaction") {
        return transaction_from(map);
    }
    if same(op, "explain") {
        return explain_from(map);
    }
    match write_from(op, map) {
        Some(r) => r,
        None => Err(ProtoError::UnknownNode { context: "request", name: op.to_owned() }),
    }
}

/// The request that the bytes of a message are.
pub open spec fn request_in(bytes: Seq<u8>, limits: DecodeLimits) -> Res<RequestV> {
    match decoded(bytes, limits) {
        Err(e) => Err(e),
        Ok(d) => request_of(d),
    }
}

/// Decode one request from wire bytes under `limits`.
pub fn decode_request(bytes: &[u8], limits: &DecodeLimits) -> (r: Result<Request>)
    ensures
        agrees(r, request_in(bytes@, *limits)),
{
    match decode_doc(bytes, limits) {
        Ok(doc) => request_from_doc(&doc),
        Err(e) => Err(e),
    }
}

} // verus!
