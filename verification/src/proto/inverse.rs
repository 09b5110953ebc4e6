//! That requests survive the wire: decoding undoes encoding.

use vstd::prelude::*;
use crate::value::ValueV;
use crate::views::{collect, lemma_collect_ok};
use super::ast::{
    ClauseSelectV, DeleteV, ExprV, InsertV, JoinKind, JoinSpecV, ProjectionV, RequestV, SelectV,
    SelectorV, SortKeyV, StageV, TableRefV, UpdateV,
};
use super::encode::{documents_round_trip, fits, form, node_count};
use super::error::ProtoErrorV;
use super::grammar::{expr_of, exprs_of, field, lemma_no_stranger, unknown_field, Fields};
use super::render::{
    clause_fields, count_doc, default_limits, delete_fields, expr_doc, exprs_doc, insert_fields,
    join_spec_doc, joins_doc, lemma_ops_doc, named_exprs_doc, opt_count_doc, opt_expr_doc, ops_doc,
    projection_doc, projections_doc, request_doc, request_fields, row_doc, select_fields,
    selector_fields, single_doc, sort_key_doc, sorts_doc, stage_doc, stages_doc, table_ref_doc,
    unless, update_fields, value_doc,
};
use super::request::{
    group_of, join_spec_of, joins_of, named_exprs_of, opt_expr, opt_exprs, opt_u64, projection_of,
    projections_of, single_stage_of, sort_key_of, sort_keys_of, stage_of, stages_of, table_ref_of,
    PROTOCOL_VERSION,
};
use super::roundtrip::{
    expr_ok, exprs_ok, lemma_expr_back, lemma_list_back, lemma_not_aliased, plain,
};
use super::select::{
    clause_keys, clause_of, delete_of, explain_of, from_of, insert_of, op_of, opt_bool, opt_joins,
    opt_projections, opt_sorts, opt_token, request_in, request_of, row_of, row_value_of, select_of,
    selector_of, transaction_of, update_of, write_of,
};
use super::wire::{
    lemma_position, lemma_position_at, lemma_position_none, position, DecodeLimits, DocV,
};

verus! {

/// What the names of fields are.
proof fn lemma_field_names()
    ensures
        "table"@.len() == 5,
        "table"@[0] == 't',
        "table"@[1] == 'a',
        "table"@[2] == 'b',
        "as"@.len() == 2,
        "as"@[0] == 'a',
        "as"@[1] == 's',
        "type"@.len() == 4,
        "type"@[0] == 't',
        "type"@[1] == 'y',
        "type"@[2] == 'p',
        "on"@.len() == 2,
        "on"@[0] == 'o',
        "on"@[1] == 'n',
        "expr"@.len() == 4,
        "expr"@[0] == 'e',
        "expr"@[1] == 'x',
        "expr"@[2] == 'p',
        "dir"@.len() == 3,
        "dir"@[0] == 'd',
        "dir"@[1] == 'i',
        "dir"@[2] == 'r',
        "op"@.len() == 2,
        "op"@[0] == 'o',
        "op"@[1] == 'p',
        "v"@.len() == 1,
        "v"@[0] == 'v',
        "from"@.len() == 4,
        "from"@[0] == 'f',
        "from"@[1] == 'r',
        "from"@[2] == 'o',
        "joins"@.len() == 5,
        "joins"@[0] == 'j',
        "joins"@[1] == 'o',
        "joins"@[2] == 'i',
        "where"@.len() == 5,
        "where"@[0] == 'w',
        "where"@[1] == 'h',
        "where"@[2] == 'e',
        "group_by"@.len() == 8,
        "group_by"@[0] == 'g',
        "group_by"@[1] == 'r',
        "group_by"@[2] == 'o',
        "having"@.len() == 6,
        "having"@[0] == 'h',
        "having"@[1] == 'a',
        "having"@[2] == 'v',
        "order_by"@.len() == 8,
        "order_by"@[0] == 'o',
        "order_by"@[1] == 'r',
        "order_by"@[2] == 'd',
        "select"@.len() == 6,
        "select"@[0] == 's',
        "select"@[1] == 'e',
        "select"@[2] == 'l',
        "distinct"@.len() == 8,
        "distinct"@[0] == 'd',
        "distinct"@[1] == 'i',
        "distinct"@[2] == 's',
        "limit"@.len() == 5,
        "limit"@[0] == 'l',
        "limit"@[1] == 'i',
        "limit"@[2] == 'm',
        "offset"@.len() == 6,
        "offset"@[0] == 'o',
        "offset"@[1] == 'f',
        "offset"@[2] == 'f',
        "cursor"@.len() == 6,
        "cursor"@[0] == 'c',
        "cursor"@[1] == 'u',
        "cursor"@[2] == 'r',
        "pipeline"@.len() == 8,
        "pipeline"@[0] == 'p',
        "pipeline"@[1] == 'i',
        "pipeline"@[2] == 'p',
        "rows"@.len() == 4,
        "rows"@[0] == 'r',
        "rows"@[1] == 'o',
        "rows"@[2] == 'w',
        "all"@.len() == 3,
        "all"@[0] == 'a',
        "all"@[1] == 'l',
        "all"@[2] == 'l',
        "set"@.len() == 3,
        "set"@[0] == 's',
        "set"@[1] == 'e',
        "set"@[2] == 't',
        "unconditional"@.len() == 13,
        "unconditional"@[0] == 'u',
        "unconditional"@[1] == 'n',
        "unconditional"@[2] == 'c',
        "ops"@.len() == 3,
        "ops"@[0] == 'o',
        "ops"@[1] == 'p',
        "ops"@[2] == 's',
        "query"@.len() == 5,
        "query"@[0] == 'q',
        "query"@[1] == 'u',
        "query"@[2] == 'e',
        "scan"@.len() == 4,
        "scan"@[0] == 's',
        "scan"@[1] == 'c',
        "scan"@[2] == 'a',
        "match"@.len() == 5,
        "match"@[0] == 'm',
        "match"@[1] == 'a',
        "match"@[2] == 't',
        "join"@.len() == 4,
        "join"@[0] == 'j',
        "join"@[1] == 'o',
        "join"@[2] == 'i',
        "group"@.len() == 5,
        "group"@[0] == 'g',
        "group"@[1] == 'r',
        "group"@[2] == 'o',
        "sort"@.len() == 4,
        "sort"@[0] == 's',
        "sort"@[1] == 'o',
        "sort"@[2] == 'r',
        "project"@.len() == 7,
        "project"@[0] == 'p',
        "project"@[1] == 'r',
        "project"@[2] == 'o',
        "by"@.len() == 2,
        "by"@[0] == 'b',
        "by"@[1] == 'y',
        "agg"@.len() == 3,
        "agg"@[0] == 'a',
        "agg"@[1] == 'g',
        "agg"@[2] == 'g',
        "insert"@.len() == 6,
        "insert"@[0] == 'i',
        "insert"@[1] == 'n',
        "insert"@[2] == 's',
        "update"@.len() == 6,
        "update"@[0] == 'u',
        "update"@[1] == 'p',
        "update"@[2] == 'd',
        "delete"@.len() == 6,
        "delete"@[0] == 'd',
        "delete"@[1] == 'e',
        "delete"@[2] == 'l',
        "transaction"@.len() == 11,
        "transaction"@[0] == 't',
        "transaction"@[1] == 'r',
        "transaction"@[2] == 'a',
        "explain"@.len() == 7,
        "explain"@[0] == 'e',
        "explain"@[1] == 'x',
        "explain"@[2] == 'p',
        "inner"@.len() == 5,
        "inner"@[0] == 'i',
        "inner"@[1] == 'n',
        "inner"@[2] == 'n',
        "left"@.len() == 4,
        "left"@[0] == 'l',
        "left"@[1] == 'e',
        "left"@[2] == 'f',
        "cross"@.len() == 5,
        "cross"@[0] == 'c',
        "cross"@[1] == 'r',
        "cross"@[2] == 'o',
        "asc"@.len() == 3,
        "asc"@[0] == 'a',
        "asc"@[1] == 's',
        "asc"@[2] == 'c',
        "desc"@.len() == 4,
        "desc"@[0] == 'd',
        "desc"@[1] == 'e',
        "desc"@[2] == 's',
{
    reveal_strlit("table");
    reveal_strlit("as");
    reveal_strlit("type");
    reveal_strlit("on");
    reveal_strlit("expr");
    reveal_strlit("dir");
    reveal_strlit("op");
    reveal_strlit("v");
    reveal_strlit("from");
    reveal_strlit("joins");
    reveal_strlit("where");
    reveal_strlit("group_by");
    reveal_strlit("having");
    reveal_strlit("order_by");
    reveal_strlit("select");
    reveal_strlit("distinct");
    reveal_strlit("limit");
    reveal_strlit("offset");
    reveal_strlit("cursor");
    reveal_strlit("pipeline");
    reveal_strlit("rows");
    reveal_strlit("all");
    reveal_strlit("set");
    reveal_strlit("unconditional");
    reveal_strlit("ops");
    reveal_strlit("query");
    reveal_strlit("scan");
    reveal_strlit("match");
    reveal_strlit("join");
    reveal_strlit("group");
    reveal_strlit("sort");
    reveal_strlit("project");
    reveal_strlit("by");
    reveal_strlit("agg");
    reveal_strlit("insert");
    reveal_strlit("update");
    reveal_strlit("delete");
    reveal_strlit("transaction");
    reveal_strlit("explain");
    reveal_strlit("inner");
    reveal_strlit("left");
    reveal_strlit("cross");
    reveal_strlit("asc");
    reveal_strlit("desc");
}


/// Whether there is a value for each field name.
pub open spec fn matched(m: Fields) -> bool {
    m.keys.len() == m.vals.len()
}

/// A field after one more was added.
proof fn lemma_with(m: Fields, name: Seq<char>, d: DocV, k: Seq<char>)
    requires
        matched(m),
    ensures
        matched(m.with(name, d)),
        field(m.with(name, d), k) == (match field(m, k) {
            Some(x) => Some(x),
            None => if name == k {
                Some(d)
            } else {
                None
            },
        }),
{
    let m2 = m.with(name, d);
    lemma_position(m.keys, k);
    match position(m.keys, k) {
        Some(i) => {
            assert(m2.keys[i] == k);
            assert forall|j: int| 0 <= j < i implies #[trigger] m2.keys[j] != k by {
                assert(m.keys[j] != k);
            }
            lemma_position_at(m2.keys, k, i);
        },
        None => {
            assert forall|j: int| 0 <= j < m.keys.len() implies #[trigger] m2.keys[j] != k by {
                assert(m.keys[j] != k);
            }
            if name == k {
                lemma_position_at(m2.keys, k, m.keys.len() as int);
            } else {
                lemma_position_none(m2.keys, k);
            }
        },
    }
}

/// A field after an optional one was added.
proof fn lemma_with_opt(m: Fields, name: Seq<char>, d: Option<DocV>, k: Seq<char>)
    requires
        matched(m),
    ensures
        matched(m.with_opt(name, d)),
        field(m.with_opt(name, d), k) == (match field(m, k) {
            Some(x) => Some(x),
            None => if name == k {
                d
            } else {
                None
            },
        }),
{
    if let Some(x) = d {
        lemma_with(m, name, x, k);
    }
}

proof fn lemma_none(k: Seq<char>)
    ensures
        matched(Fields::none()),
        field(Fields::none(), k) is None,
        forall|allowed: Seq<Seq<char>>| known(Fields::none(), allowed),
{
    lemma_position_none(Fields::none().keys, k);
}

/// Whether all fields are allowed.
pub open spec fn known(m: Fields, allowed: Seq<Seq<char>>) -> bool {
    forall|i: int| 0 <= i < m.keys.len() ==> allowed.contains(#[trigger] m.keys[i])
}

proof fn lemma_known_with(m: Fields, name: Seq<char>, d: DocV, allowed: Seq<Seq<char>>, at: int)
    requires
        known(m, allowed),
        0 <= at < allowed.len(),
        allowed[at] == name,
    ensures
        known(m.with(name, d), allowed),
        known(m.with_opt(name, Some(d)), allowed),
{
    let m2 = m.with(name, d);
    assert forall|i: int| 0 <= i < m2.keys.len() implies allowed.contains(#[trigger] m2.keys[i]) by {
        if i < m.keys.len() {
            assert(m2.keys[i] == m.keys[i]);
        }
    }
}

proof fn lemma_known_opt(m: Fields, name: Seq<char>, d: Option<DocV>, allowed: Seq<Seq<char>>, at: int)
    requires
        known(m, allowed),
        0 <= at < allowed.len(),
        allowed[at] == name,
    ensures
        known(m.with_opt(name, d), allowed),
{
    if let Some(x) = d {
        lemma_known_with(m, name, x, allowed, at);
    }
}

proof fn lemma_all_known(m: Fields, node: Seq<char>, allowed: Seq<Seq<char>>)
    requires
        known(m, allowed),
    ensures
        unknown_field(m, node, allowed) is None,
{
    lemma_no_stranger(m.keys, allowed);
}

// Table references, joins, sort keys and projections.

proof fn lemma_table_ref_back(t: TableRefV, at: Seq<char>)
    ensures
        table_ref_of(table_ref_doc(t), at) == Ok::<TableRefV, ProtoErrorV>(t),
{
    lemma_field_names();
    let allowed = seq!["table"@, "as"@];
    let alias = match t.alias {
        Some(a) => Some(DocV::Str(a)),
        None => None,
    };
    let m0 = Fields::none();
    let m1 = m0.with("table"@, DocV::Str(t.table));
    let m2 = m1.with_opt("as"@, alias);
    lemma_none("table"@);
    lemma_none("as"@);
    lemma_with(m0, "table"@, DocV::Str(t.table), "table"@);
    lemma_with(m0, "table"@, DocV::Str(t.table), "as"@);
    lemma_with_opt(m1, "as"@, alias, "table"@);
    lemma_with_opt(m1, "as"@, alias, "as"@);
    lemma_known_with(m0, "table"@, DocV::Str(t.table), allowed, 0);
    lemma_known_opt(m1, "as"@, alias, allowed, 1);
    lemma_all_known(m2, "table ref"@, allowed);
    assert(table_ref_doc(t) == m2.doc());
}

/// Whether a join is one of the grammar.
pub open spec fn join_ok(j: JoinSpecV) -> bool {
    match j.on {
        Some(e) => j.kind != JoinKind::Cross && expr_ok(e),
        None => j.kind == JoinKind::Cross,
    }
}

proof fn lemma_join_back(j: JoinSpecV)
    requires
        join_ok(j),
    ensures
        join_spec_of(join_spec_doc(j)) == Ok::<JoinSpecV, ProtoErrorV>(j),
{
    lemma_field_names();
    let allowed = seq!["type"@, "table"@, "on"@];
    let kind = DocV::Str(j.kind.named());
    let table = table_ref_doc(j.table);
    let on = opt_expr_doc(j.on);
    let m0 = Fields::none();
    let m1 = m0.with("type"@, kind);
    let m2 = m1.with("table"@, table);
    let m3 = m2.with_opt("on"@, on);
    lemma_join_fields(kind, table, on, "type"@);
    lemma_join_fields(kind, table, on, "table"@);
    lemma_join_fields(kind, table, on, "on"@);
    lemma_none("on"@);
    lemma_known_with(m0, "type"@, kind, allowed, 0);
    lemma_known_with(m1, "table"@, table, allowed, 1);
    lemma_known_opt(m2, "on"@, on, allowed, 2);
    lemma_all_known(m3, "join"@, allowed);
    lemma_table_ref_back(j.table, "table"@);
    if let Some(e) = j.on {
        lemma_expr_back(e);
    }
    assert(join_spec_doc(j) == m3.doc());
}

proof fn lemma_join_fields(kind: DocV, table: DocV, on: Option<DocV>, k: Seq<char>)
    ensures
        field(
            Fields::none().with("type"@, kind).with("table"@, table).with_opt("on"@, on),
            k,
        ) == (if k == "type"@ {
            Some(kind)
        } else if k == "table"@ {
            Some(table)
        } else if k == "on"@ {
            on
        } else {
            None
        }),
{
    lemma_field_names();
    let m0 = Fields::none();
    let m1 = m0.with("type"@, kind);
    let m2 = m1.with("table"@, table);
    lemma_none(k);
    lemma_with(m0, "type"@, kind, k);
    lemma_with(m1, "table"@, table, k);
    lemma_with_opt(m2, "on"@, on, k);
}

proof fn lemma_sort_key_back(s: SortKeyV, at: Seq<char>)
    requires
        expr_ok(s.expr),
    ensures
        sort_key_of(sort_key_doc(s), at) == Ok::<SortKeyV, ProtoErrorV>(s),
{
    lemma_field_names();
    let allowed = seq!["expr"@, "dir"@];
    let x = expr_doc(s.expr);
    let dir = DocV::Str(s.dir.named());
    let m0 = Fields::none();
    let m1 = m0.with("expr"@, x);
    let m2 = m1.with("dir"@, dir);
    lemma_none("expr"@);
    lemma_none("dir"@);
    lemma_with(m0, "expr"@, x, "expr"@);
    lemma_with(m0, "expr"@, x, "dir"@);
    lemma_with(m1, "dir"@, dir, "expr"@);
    lemma_with(m1, "dir"@, dir, "dir"@);
    lemma_known_with(m0, "expr"@, x, allowed, 0);
    lemma_known_with(m1, "dir"@, dir, allowed, 1);
    lemma_all_known(m2, "sort key"@, allowed);
    lemma_expr_back(s.expr);
    assert(sort_key_doc(s) == m2.doc());
}

/// Whether sort keys are of the grammar.
pub open spec fn sorts_ok(list: Seq<SortKeyV>) -> bool {
    forall|i: int| 0 <= i < list.len() ==> expr_ok((#[trigger] list[i]).expr)
}

proof fn lemma_sorts_back(list: Seq<SortKeyV>, node: Seq<char>, at: Seq<char>)
    requires
        sorts_ok(list),
    ensures
        sort_keys_of(sorts_doc(list), node, at) == Ok::<Seq<SortKeyV>, ProtoErrorV>(list),
{
    let items = sorts_doc(list)->Array_0;
    let rs = Seq::new(items.len(), |i: int| sort_key_of(items[i], at));
    assert forall|i: int| 0 <= i < rs.len() implies #[trigger] rs[i] == Ok::<
        SortKeyV,
        ProtoErrorV,
    >(list[i]) by {
        lemma_sort_key_back(list[i], at);
    }
    lemma_collect_ok(rs, list);
}

/// The expression of a projection item.
pub open spec fn projected(p: ProjectionV) -> ExprV {
    match p {
        ProjectionV::Expr(e) => e,
        ProjectionV::Aliased { expr, .. } => expr,
    }
}

/// Whether projection items are of the grammar.
pub open spec fn projections_ok(list: Seq<ProjectionV>) -> bool {
    forall|i: int| 0 <= i < list.len() ==> expr_ok(projected(#[trigger] list[i]))
}

proof fn lemma_projection_back(p: ProjectionV)
    requires
        expr_ok(projected(p)),
    ensures
        projection_of(projection_doc(p)) == Ok::<ProjectionV, ProtoErrorV>(p),
{
    lemma_expr_back(projected(p));
    match p {
        ProjectionV::Expr(e) => {
            lemma_not_aliased(e);
        },
        ProjectionV::Aliased { name, expr } => {
            let parts = seq![DocV::Str(name), expr_doc(expr)];
            assert(parts[0] == DocV::Str(name) && parts[1] == expr_doc(expr));
            let keys = seq!["as"@];
            let vals = seq![DocV::Array(parts)];
            assert(keys[0] == "as"@ && vals[0] == DocV::Array(parts));
        },
    }
}

proof fn lemma_projections_back(list: Seq<ProjectionV>)
    requires
        projections_ok(list),
    ensures
        projections_of(projections_doc(list)->Array_0) == Ok::<Seq<ProjectionV>, ProtoErrorV>(list),
{
    let items = projections_doc(list)->Array_0;
    let rs = Seq::new(items.len(), |i: int| projection_of(items[i]));
    assert forall|i: int| 0 <= i < rs.len() implies #[trigger] rs[i] == Ok::<
        ProjectionV,
        ProtoErrorV,
    >(list[i]) by {
        lemma_projection_back(list[i]);
    }
    lemma_collect_ok(rs, list);
}

/// Whether joins are of the grammar.
pub open spec fn joins_ok(list: Seq<JoinSpecV>) -> bool {
    forall|i: int| 0 <= i < list.len() ==> join_ok(#[trigger] list[i])
}

proof fn lemma_joins_back(list: Seq<JoinSpecV>)
    requires
        joins_ok(list),
    ensures
        joins_of(joins_doc(list)->Array_0) == Ok::<Seq<JoinSpecV>, ProtoErrorV>(list),
{
    let items = joins_doc(list)->Array_0;
    let rs = Seq::new(items.len(), |i: int| join_spec_of(items[i]));
    assert forall|i: int| 0 <= i < rs.len() implies #[trigger] rs[i] == Ok::<
        JoinSpecV,
        ProtoErrorV,
    >(list[i]) by {
        lemma_join_back(list[i]);
    }
    lemma_collect_ok(rs, list);
}

/// Whether named expressions are of the grammar.
pub open spec fn named_ok(list: Seq<(Seq<char>, ExprV)>) -> bool {
    forall|i: int| 0 <= i < list.len() ==> expr_ok((#[trigger] list[i]).1)
}

proof fn lemma_named_back(list: Seq<(Seq<char>, ExprV)>)
    requires
        named_ok(list),
    ensures
        ({
            let d = named_exprs_doc(list);
            named_exprs_of(Fields { keys: d->keys, vals: d->vals }) == Ok::<
                Seq<(Seq<char>, ExprV)>,
                ProtoErrorV,
            >(list)
        }),
{
    let d = named_exprs_doc(list);
    let m = Fields { keys: d->keys, vals: d->vals };
    let rs = Seq::new(
        m.vals.len(),
        |i: int|
            match expr_of(m.vals[i]) {
                Ok(x) => Ok::<(Seq<char>, ExprV), ProtoErrorV>((m.keys[i], x)),
                Err(e) => Err(e),
            },
    );
    assert(named_exprs_of(m) == collect(rs));
    assert forall|i: int| 0 <= i < rs.len() implies #[trigger] rs[i] == Ok::<
        (Seq<char>, ExprV),
        ProtoErrorV,
    >(list[i]) by {
        lemma_expr_back(list[i].1);
        assert(m.vals[i] == expr_doc(list[i].1));
        assert(m.keys[i] == list[i].0);
    }
    lemma_collect_ok(rs, list);
}

proof fn lemma_exprs_back(list: Seq<ExprV>)
    requires
        exprs_ok(list),
    ensures
        exprs_of(exprs_doc(list)) == Ok::<Seq<ExprV>, ProtoErrorV>(list),
        exprs_doc(list).len() == list.len(),
{
    assert forall|i: int| 0 <= i < list.len() implies expr_of(expr_doc(#[trigger] list[i])) == Ok::<
        ExprV,
        ProtoErrorV,
    >(list[i]) by {
        lemma_expr_back(list[i]);
    }
    lemma_list_back(list);
}

// Stages.

/// Whether a count fits a wire integer.
pub open spec fn count_ok(n: u64) -> bool {
    n <= i64::MAX
}

/// Whether an optional count fits a wire integer.
pub open spec fn opt_count_ok(n: Option<u64>) -> bool {
    n matches Some(n) ==> count_ok(n)
}

/// Whether a stage is one of the grammar.
pub open spec fn stage_ok(s: StageV) -> bool {
    match s {
        StageV::Scan(_) => true,
        StageV::Match(e) => expr_ok(e),
        StageV::Join(j) => join_ok(j),
        StageV::Group { by, aggs } => exprs_ok(by) && named_ok(aggs),
        StageV::Sort(keys) => sorts_ok(keys),
        StageV::Project(items) => projections_ok(items),
        StageV::Distinct(_) => true,
        StageV::Limit { limit, offset } => opt_count_ok(limit) && count_ok(offset),
        StageV::Cursor(_) => true,
    }
}

proof fn lemma_group_back(by: Seq<ExprV>, aggs: Seq<(Seq<char>, ExprV)>)
    requires
        exprs_ok(by),
        named_ok(aggs),
    ensures
        group_of(
            Fields::none().with("by"@, DocV::Array(exprs_doc(by))).with(
                "agg"@,
                named_exprs_doc(aggs),
            ).doc(),
        ) == Ok::<StageV, ProtoErrorV>(StageV::Group { by, aggs }),
{
    lemma_field_names();
    let allowed = seq!["by"@, "agg"@];
    let x = DocV::Array(exprs_doc(by));
    let y = named_exprs_doc(aggs);
    let m0 = Fields::none();
    let m1 = m0.with("by"@, x);
    let m2 = m1.with("agg"@, y);
    lemma_none("by"@);
    lemma_none("agg"@);
    lemma_with(m0, "by"@, x, "by"@);
    lemma_with(m0, "by"@, x, "agg"@);
    lemma_with(m1, "agg"@, y, "by"@);
    lemma_with(m1, "agg"@, y, "agg"@);
    lemma_known_with(m0, "by"@, x, allowed, 0);
    lemma_known_with(m1, "agg"@, y, allowed, 1);
    lemma_all_known(m2, "group"@, allowed);
    lemma_exprs_back(by);
    lemma_named_back(aggs);
}

proof fn lemma_limit_back(limit: Option<u64>, offset: u64)
    requires
        opt_count_ok(limit),
        count_ok(offset),
    ensures
        stage_of(stage_doc(StageV::Limit { limit, offset })) == Ok::<StageV, ProtoErrorV>(
            StageV::Limit { limit, offset },
        ),
{
    lemma_field_names();
    let allowed = seq!["limit"@, "offset"@];
    let x = opt_count_doc(limit);
    let y = count_doc(offset);
    let m0 = Fields::none();
    let m1 = m0.with_opt("limit"@, x);
    let m2 = m1.with("offset"@, y);
    lemma_none("limit"@);
    lemma_none("offset"@);
    lemma_with_opt(m0, "limit"@, x, "limit"@);
    lemma_with_opt(m0, "limit"@, x, "offset"@);
    lemma_with(m1, "offset"@, y, "limit"@);
    lemma_with(m1, "offset"@, y, "offset"@);
    lemma_known_opt(m0, "limit"@, x, allowed, 0);
    lemma_known_with(m1, "offset"@, y, allowed, 1);
    lemma_all_known(m2, "limit stage"@, allowed);
}

/// A stage with a name and a body is looked at by its name.
proof fn lemma_single_stage(name: Seq<char>, body: DocV)
    requires
        name != "limit"@,
        name != "offset"@,
    ensures
        stage_of(single_doc(name, body)) == single_stage_of(name, body),
{
    let keys = seq![name];
    let vals = seq![body];
    assert(keys[0] == name && vals[0] == body);
    lemma_position_none(keys, "limit"@);
    lemma_position_none(keys, "offset"@);
}

proof fn lemma_stage_back(s: StageV)
    requires
        stage_ok(s),
    ensures
        stage_of(stage_doc(s)) == Ok::<StageV, ProtoErrorV>(s),
{
    lemma_field_names();
    match s {
        StageV::Scan(t) => {
            lemma_table_ref_back(t, "scan"@);
            lemma_single_stage("scan"@, table_ref_doc(t));
        },
        StageV::Match(e) => {
            lemma_expr_back(e);
            lemma_single_stage("match"@, expr_doc(e));
        },
        StageV::Join(j) => {
            lemma_join_back(j);
            lemma_single_stage("join"@, join_spec_doc(j));
        },
        StageV::Group { by, aggs } => {
            lemma_group_back(by, aggs);
            lemma_single_stage(
                "group"@,
                Fields::none().with("by"@, DocV::Array(exprs_doc(by))).with(
                    "agg"@,
                    named_exprs_doc(aggs),
                ).doc(),
            );
        },
        StageV::Sort(keys) => {
            lemma_sorts_back(keys, "sort"@, "sort"@);
            lemma_single_stage("sort"@, sorts_doc(keys));
        },
        StageV::Project(items) => {
            lemma_projections_back(items);
            lemma_single_stage("project"@, projections_doc(items));
        },
        StageV::Distinct(on) => {
            lemma_single_stage("distinct"@, DocV::Bool(on));
        },
        StageV::Limit { limit, offset } => {
            lemma_limit_back(limit, offset);
        },
        StageV::Cursor(token) => {
            lemma_single_stage("cursor"@, DocV::Bin(token));
        },
    }
}

proof fn lemma_stages_back(list: Seq<StageV>)
    requires
        forall|i: int| 0 <= i < list.len() ==> stage_ok(#[trigger] list[i]),
    ensures
        stages_of(stages_doc(list)->Array_0) == Ok::<Seq<StageV>, ProtoErrorV>(list),
{
    let items = stages_doc(list)->Array_0;
    let rs = Seq::new(items.len(), |i: int| stage_of(items[i]));
    assert forall|i: int| 0 <= i < rs.len() implies #[trigger] rs[i] == Ok::<StageV, ProtoErrorV>(
        list[i],
    ) by {
        lemma_stage_back(list[i]);
    }
    lemma_collect_ok(rs, list);
}

// Selects.

/// The field `k` of a clause select.
spec fn clause_value(c: ClauseSelectV, k: Seq<char>) -> Option<DocV> {
    if k == "from"@ {
        match c.from {
                Some(t) => Some(table_ref_doc(t)),
                None => None,
            }
    } else if k == "joins"@ {
        unless(c.joins.len() == 0, joins_doc(c.joins))
    } else if k == "where"@ {
        opt_expr_doc(c.where_)
    } else if k == "group_by"@ {
        unless(c.group_by.len() == 0, DocV::Array(exprs_doc(c.group_by)))
    } else if k == "having"@ {
        opt_expr_doc(c.having)
    } else if k == "order_by"@ {
        unless(c.order_by.len() == 0, sorts_doc(c.order_by))
    } else if k == "select"@ {
        match c.select {
                Some(list) => Some(projections_doc(list)),
                None => None,
            }
    } else if k == "distinct"@ {
        unless(!c.distinct, DocV::Bool(true))
    } else if k == "limit"@ {
        opt_count_doc(c.limit)
    } else if k == "offset"@ {
        opt_count_doc(c.offset)
    } else if k == "cursor"@ {
        match c.cursor {
                Some(t) => Some(DocV::Bin(t)),
                None => None,
            }
    } else {
        None
    }
}

/// A field of a clause select is what was there before, or one of its own.
proof fn lemma_clause_field(m: Fields, c: ClauseSelectV, k: Seq<char>)
    requires
        matched(m),
    ensures
        matched(clause_fields(m, c)),
        field(clause_fields(m, c), k) == (match field(m, k) {
            Some(x) => Some(x),
            None => clause_value(c, k),
        }),
{
    lemma_field_names();
    let d1 = clause_value(c, "from"@);
    let m1 = m.with_opt("from"@, d1);
    lemma_with_opt(m, "from"@, d1, k);
    let d2 = clause_value(c, "joins"@);
    let m2 = m1.with_opt("joins"@, d2);
    lemma_with_opt(m1, "joins"@, d2, k);
    let d3 = clause_value(c, "where"@);
    let m3 = m2.with_opt("where"@, d3);
    lemma_with_opt(m2, "where"@, d3, k);
    let d4 = clause_value(c, "group_by"@);
    let m4 = m3.with_opt("group_by"@, d4);
    lemma_with_opt(m3, "group_by"@, d4, k);
    let d5 = clause_value(c, "having"@);
    let m5 = m4.with_opt("having"@, d5);
    lemma_with_opt(m4, "having"@, d5, k);
    let d6 = clause_value(c, "order_by"@);
    let m6 = m5.with_opt("order_by"@, d6);
    lemma_with_opt(m5, "order_by"@, d6, k);
    let d7 = clause_value(c, "select"@);
    let m7 = m6.with_opt("select"@, d7);
    lemma_with_opt(m6, "select"@, d7, k);
    let d8 = clause_value(c, "distinct"@);
    let m8 = m7.with_opt("distinct"@, d8);
    lemma_with_opt(m7, "distinct"@, d8, k);
    let d9 = clause_value(c, "limit"@);
    let m9 = m8.with_opt("limit"@, d9);
    lemma_with_opt(m8, "limit"@, d9, k);
    let d10 = clause_value(c, "offset"@);
    let m10 = m9.with_opt("offset"@, d10);
    lemma_with_opt(m9, "offset"@, d10, k);
    let d11 = clause_value(c, "cursor"@);
    let m11 = m10.with_opt("cursor"@, d11);
    lemma_with_opt(m10, "cursor"@, d11, k);
    assert(m11 == clause_fields(m, c));
}

proof fn lemma_clause_known(m: Fields, c: ClauseSelectV)
    requires
        known(m, clause_keys()),
    ensures
        known(clause_fields(m, c), clause_keys()),
{
    lemma_field_names();
    let allowed = clause_keys();
    let d1 = clause_value(c, "from"@);
    let m1 = m.with_opt("from"@, d1);
    lemma_known_opt(m, "from"@, d1, allowed, 2);
    let d2 = clause_value(c, "joins"@);
    let m2 = m1.with_opt("joins"@, d2);
    lemma_known_opt(m1, "joins"@, d2, allowed, 3);
    let d3 = clause_value(c, "where"@);
    let m3 = m2.with_opt("where"@, d3);
    lemma_known_opt(m2, "where"@, d3, allowed, 4);
    let d4 = clause_value(c, "group_by"@);
    let m4 = m3.with_opt("group_by"@, d4);
    lemma_known_opt(m3, "group_by"@, d4, allowed, 5);
    let d5 = clause_value(c, "having"@);
    let m5 = m4.with_opt("having"@, d5);
    lemma_known_opt(m4, "having"@, d5, allowed, 6);
    let d6 = clause_value(c, "order_by"@);
    let m6 = m5.with_opt("order_by"@, d6);
    lemma_known_opt(m5, "order_by"@, d6, allowed, 7);
    let d7 = clause_value(c, "select"@);
    let m7 = m6.with_opt("select"@, d7);
    lemma_known_opt(m6, "select"@, d7, allowed, 8);
    let d8 = clause_value(c, "distinct"@);
    let m8 = m7.with_opt("distinct"@, d8);
    lemma_known_opt(m7, "distinct"@, d8, allowed, 9);
    let d9 = clause_value(c, "limit"@);
    let m9 = m8.with_opt("limit"@, d9);
    lemma_known_opt(m8, "limit"@, d9, allowed, 10);
    let d10 = clause_value(c, "offset"@);
    let m10 = m9.with_opt("offset"@, d10);
    lemma_known_opt(m9, "offset"@, d10, allowed, 11);
    let d11 = clause_value(c, "cursor"@);
    let m11 = m10.with_opt("cursor"@, d11);
    lemma_known_opt(m10, "cursor"@, d11, allowed, 12);
    assert(m11 == clause_fields(m, c));
}

/// Whether a clause select is one of the grammar.
pub open spec fn clause_ok(c: ClauseSelectV) -> bool {
    &&& c.from is Some
    &&& joins_ok(c.joins)
    &&& c.where_ matches Some(e) ==> expr_ok(e)
    &&& exprs_ok(c.group_by)
    &&& c.having matches Some(e) ==> expr_ok(e)
    &&& sorts_ok(c.order_by)
    &&& c.select matches Some(list) ==> projections_ok(list)
    &&& opt_count_ok(c.limit)
    &&& opt_count_ok(c.offset)
}

/// Whether a select is one of the grammar.
pub open spec fn select_ok(s: SelectV) -> bool {
    match s {
        SelectV::Pipeline(stages) => forall|i: int|
            0 <= i < stages.len() ==> stage_ok(#[trigger] stages[i]),
        SelectV::Clause(c) => clause_ok(c),
    }
}

/// Whether `m` holds at most an `op` and a `v`.
spec fn envelope(m: Fields) -> bool {
    &&& matched(m)
    &&& known(m, seq!["op"@, "v"@])
}

proof fn lemma_envelope(m: Fields, k: Seq<char>)
    requires
        envelope(m),
        k != "op"@,
        k != "v"@,
    ensures
        field(m, k) is None,
{
    assert forall|j: int| 0 <= j < m.keys.len() implies #[trigger] m.keys[j] != k by {
        let two = seq!["op"@, "v"@];
        assert(two.contains(m.keys[j]));
        let at = two.index_of(m.keys[j]);
        assert(two[at] == m.keys[j]);
    }
    lemma_position_none(m.keys, k);
}

/// What an envelope holds is allowed wherever `op` and `v` are.
proof fn lemma_envelope_known(m: Fields, allowed: Seq<Seq<char>>)
    requires
        envelope(m),
        allowed.len() >= 2,
        allowed[0] == "op"@,
        allowed[1] == "v"@,
    ensures
        known(m, allowed),
{
    assert forall|j: int| 0 <= j < m.keys.len() implies allowed.contains(#[trigger] m.keys[j]) by {
        let two = seq!["op"@, "v"@];
        assert(two.contains(m.keys[j]));
        let at = two.index_of(m.keys[j]);
        assert(two[at] == m.keys[j]);
        assert(allowed[at] == m.keys[j]);
    }
}

proof fn lemma_clause_back(m: Fields, c: ClauseSelectV)
    requires
        envelope(m),
        clause_ok(c),
    ensures
        clause_of(clause_fields(m, c)) == Ok::<ClauseSelectV, ProtoErrorV>(c),
        field(clause_fields(m, c), "pipeline"@) is None,
{
    lemma_field_names();
    let f = clause_fields(m, c);
    lemma_envelope(m, "from"@);
    lemma_clause_field(m, c, "from"@);
    lemma_envelope(m, "joins"@);
    lemma_clause_field(m, c, "joins"@);
    lemma_envelope(m, "where"@);
    lemma_clause_field(m, c, "where"@);
    lemma_envelope(m, "group_by"@);
    lemma_clause_field(m, c, "group_by"@);
    lemma_envelope(m, "having"@);
    lemma_clause_field(m, c, "having"@);
    lemma_envelope(m, "order_by"@);
    lemma_clause_field(m, c, "order_by"@);
    lemma_envelope(m, "select"@);
    lemma_clause_field(m, c, "select"@);
    lemma_envelope(m, "distinct"@);
    lemma_clause_field(m, c, "distinct"@);
    lemma_envelope(m, "limit"@);
    lemma_clause_field(m, c, "limit"@);
    lemma_envelope(m, "offset"@);
    lemma_clause_field(m, c, "offset"@);
    lemma_envelope(m, "cursor"@);
    lemma_clause_field(m, c, "cursor"@);
    lemma_envelope(m, "pipeline"@);
    lemma_clause_field(m, c, "pipeline"@);
    lemma_table_ref_back(c.from->Some_0, "from"@);
    assert(from_of(f) == Ok::<TableRefV, ProtoErrorV>(c.from->Some_0));
    lemma_joins_back(c.joins);
    assert(c.joins.len() == 0 ==> c.joins =~= Seq::empty());
    assert(opt_joins(f) == Ok::<Seq<JoinSpecV>, ProtoErrorV>(c.joins));
    if let Some(e) = c.where_ {
        lemma_expr_back(e);
    }
    assert(opt_expr(f, "where"@) == Ok::<Option<ExprV>, ProtoErrorV>(c.where_));
    lemma_exprs_back(c.group_by);
    assert(c.group_by.len() == 0 ==> c.group_by =~= Seq::empty());
    assert(opt_exprs(f, "select"@, "group_by"@) == Ok::<Seq<ExprV>, ProtoErrorV>(c.group_by));
    if let Some(e) = c.having {
        lemma_expr_back(e);
    }
    assert(opt_expr(f, "having"@) == Ok::<Option<ExprV>, ProtoErrorV>(c.having));
    lemma_sorts_back(c.order_by, "select"@, "order_by"@);
    assert(c.order_by.len() == 0 ==> c.order_by =~= Seq::empty());
    assert(opt_sorts(f) == Ok::<Seq<SortKeyV>, ProtoErrorV>(c.order_by));
    if let Some(list) = c.select {
        lemma_projections_back(list);
    }
    assert(opt_projections(f) == Ok::<Option<Seq<ProjectionV>>, ProtoErrorV>(c.select));
    assert(opt_bool(f, "select"@, "distinct"@) == Ok::<bool, ProtoErrorV>(c.distinct));
    assert(opt_u64(f, "select"@, "limit"@) == Ok::<Option<u64>, ProtoErrorV>(c.limit));
    assert(opt_u64(f, "select"@, "offset"@) == Ok::<Option<u64>, ProtoErrorV>(c.offset));
    assert(opt_token(f) == Ok::<Option<Seq<u8>>, ProtoErrorV>(c.cursor));
}

proof fn lemma_select_back(m: Fields, s: SelectV)
    requires
        envelope(m),
        select_ok(s),
    ensures
        select_of(select_fields(m, s)) == Ok::<SelectV, ProtoErrorV>(s),
        matched(select_fields(m, s)),
        field(select_fields(m, s), "op"@) == field(m, "op"@),
        field(select_fields(m, s), "v"@) == field(m, "v"@),
{
    lemma_field_names();
    let f = select_fields(m, s);
    lemma_envelope_known(m, clause_keys());
    match s {
        SelectV::Pipeline(stages) => {
            let d = stages_doc(stages);
            let allowed = seq!["op"@, "v"@, "pipeline"@];
            lemma_envelope(m, "pipeline"@);
            lemma_envelope_known(m, allowed);
            lemma_with(m, "pipeline"@, d, "pipeline"@);
            lemma_with(m, "pipeline"@, d, "op"@);
            lemma_with(m, "pipeline"@, d, "v"@);
            lemma_known_with(m, "pipeline"@, d, clause_keys(), 13);
            lemma_known_with(m, "pipeline"@, d, allowed, 2);
            lemma_all_known(f, "select"@, clause_keys());
            lemma_all_known(f, "select"@, allowed);
            lemma_stages_back(stages);
        },
        SelectV::Clause(c) => {
            lemma_clause_known(m, c);
            lemma_all_known(f, "select"@, clause_keys());
            lemma_clause_back(m, c);
            lemma_clause_field(m, c, "op"@);
            lemma_clause_field(m, c, "v"@);
        },
    }
}

// Writes.

/// Whether a value of an insert row survives the wire: a scalar that the wire
/// has, or a container in its canonical form and within the default limits.
pub open spec fn row_value_ok(v: ValueV) -> bool {
    match v {
        ValueV::Json(b) => exists|d: DocV| #[trigger]
            form(d) == b && (d is Array || d is Dict) && fits(d, 0, default_limits().max_depth as nat)
                && node_count(d) <= default_limits().max_nodes && b.len()
                <= default_limits().max_bytes,
        _ => plain(v),
    }
}

proof fn lemma_row_value_back(v: ValueV)
    requires
        row_value_ok(v),
    ensures
        row_value_of(value_doc(v)) == v,
{
    if let ValueV::Json(b) = v {
        let d = choose|d: DocV| #[trigger]
            form(d) == b && (d is Array || d is Dict) && fits(d, 0, default_limits().max_depth as nat)
                && node_count(d) <= default_limits().max_nodes && b.len()
                <= default_limits().max_bytes;
        documents_round_trip(d, default_limits());
    }
}

/// Whether rows survive the wire.
pub open spec fn rows_ok(rows: Seq<Seq<(Seq<char>, ValueV)>>) -> bool {
    forall|i: int, j: int|
        0 <= i < rows.len() && 0 <= j < rows[i].len() ==> row_value_ok((#[trigger] rows[i][j]).1)
}

proof fn lemma_row_back(row: Seq<(Seq<char>, ValueV)>)
    requires
        forall|j: int| 0 <= j < row.len() ==> row_value_ok((#[trigger] row[j]).1),
    ensures
        row_of(row_doc(row)) == Ok::<Seq<(Seq<char>, ValueV)>, ProtoErrorV>(row),
{
    let d = row_doc(row);
    let m = Fields { keys: d->keys, vals: d->vals };
    let got = Seq::new(m.vals.len(), |i: int| (m.keys[i], row_value_of(m.vals[i])));
    assert forall|j: int| 0 <= j < row.len() implies #[trigger] got[j] == row[j] by {
        lemma_row_value_back(row[j].1);
    }
    assert(got =~= row);
}

/// The first fields of a write: the envelope and the table.
proof fn lemma_table_field(m: Fields, op: Seq<char>, table: Seq<char>, k: Seq<char>)
    requires
        envelope(m),
        field(m, "op"@) is None,
    ensures
        matched(m.with("op"@, DocV::Str(op))),
        envelope(m.with("op"@, DocV::Str(op))),
        field(m.with("op"@, DocV::Str(op)), "op"@) == Some(DocV::Str(op)),
        field(m.with("op"@, DocV::Str(op)), "v"@) == field(m, "v"@),
        matched(m.with("op"@, DocV::Str(op)).with("table"@, DocV::Str(table))),
        field(m.with("op"@, DocV::Str(op)).with("table"@, DocV::Str(table)), k) == (if k == "op"@ {
            Some(DocV::Str(op))
        } else if k == "v"@ {
            field(m, "v"@)
        } else if k == "table"@ {
            Some(DocV::Str(table))
        } else {
            None
        }),
{
    lemma_field_names();
    let m1 = m.with("op"@, DocV::Str(op));
    lemma_with(m, "op"@, DocV::Str(op), "op"@);
    lemma_with(m, "op"@, DocV::Str(op), "v"@);
    lemma_with(m, "op"@, DocV::Str(op), k);
    lemma_known_with(m, "op"@, DocV::Str(op), seq!["op"@, "v"@], 0);
    lemma_with(m1, "table"@, DocV::Str(table), k);
    if k != "op"@ && k != "v"@ {
        lemma_envelope(m, k);
    }
}

proof fn lemma_insert_back(m: Fields, x: InsertV)
    requires
        envelope(m),
        field(m, "op"@) is None,
        rows_ok(x.rows),
    ensures
        ({
            let f = insert_fields(m.with("op"@, DocV::Str("insert"@)), x);
            &&& insert_of(f) == Ok::<InsertV, ProtoErrorV>(x)
            &&& matched(f)
            &&& field(f, "op"@) == Some(DocV::Str("insert"@))
            &&& field(f, "v"@) == field(m, "v"@)
        }),
{
    lemma_field_names();
    let allowed = seq!["op"@, "v"@, "table"@, "rows"@];
    let m1 = m.with("op"@, DocV::Str("insert"@));
    let m2 = m1.with("table"@, DocV::Str(x.table));
    let items = Seq::new(x.rows.len(), |j: int| row_doc(x.rows[j]));
    let d = DocV::Array(items);
    let f = m2.with("rows"@, d);
    lemma_table_field(m, "insert"@, x.table, "op"@);
    lemma_table_field(m, "insert"@, x.table, "v"@);
    lemma_table_field(m, "insert"@, x.table, "table"@);
    lemma_table_field(m, "insert"@, x.table, "rows"@);
    lemma_with(m2, "rows"@, d, "op"@);
    lemma_with(m2, "rows"@, d, "v"@);
    lemma_with(m2, "rows"@, d, "table"@);
    lemma_with(m2, "rows"@, d, "rows"@);
    lemma_envelope_known(m1, allowed);
    lemma_known_with(m1, "table"@, DocV::Str(x.table), allowed, 2);
    lemma_known_with(m2, "rows"@, d, allowed, 3);
    lemma_all_known(f, "insert"@, allowed);
    let rs = Seq::new(items.len(), |i: int| row_of(items[i]));
    assert forall|i: int| 0 <= i < rs.len() implies #[trigger] rs[i] == Ok::<
        Seq<(Seq<char>, ValueV)>,
        ProtoErrorV,
    >(x.rows[i]) by {
        assert forall|j: int| 0 <= j < x.rows[i].len() implies row_value_ok(
            (#[trigger] x.rows[i][j]).1,
        ) by {}
        lemma_row_back(x.rows[i]);
    }
    lemma_collect_ok(rs, x.rows);
    assert(f == insert_fields(m1, x));
}

/// Whether a selector is one of the grammar.
pub open spec fn selector_ok(s: Option<SelectorV>) -> bool {
    s matches Some(SelectorV::Where(e)) ==> expr_ok(e)
}

/// A field after a selector was added.
proof fn lemma_selector_field(m: Fields, s: Option<SelectorV>, k: Seq<char>)
    requires
        matched(m),
    ensures
        matched(selector_fields(m, s)),
        field(selector_fields(m, s), k) == (match field(m, k) {
            Some(x) => Some(x),
            None => match s {
                Some(SelectorV::Where(e)) => if k == "where"@ {
                    Some(expr_doc(e))
                } else {
                    None
                },
                Some(SelectorV::All) => if k == "all"@ {
                    Some(DocV::Bool(true))
                } else {
                    None
                },
                None => None,
            },
        }),
{
    match s {
        Some(SelectorV::Where(e)) => {
            lemma_with(m, "where"@, expr_doc(e), k);
        },
        Some(SelectorV::All) => {
            lemma_with(m, "all"@, DocV::Bool(true), k);
        },
        None => {},
    }
}

proof fn lemma_selector_known(m: Fields, s: Option<SelectorV>, allowed: Seq<Seq<char>>)
    requires
        known(m, allowed),
        allowed.len() >= 5,
        allowed[3] == "where"@,
        allowed[4] == "all"@,
    ensures
        known(selector_fields(m, s), allowed),
{
    match s {
        Some(SelectorV::Where(e)) => {
            lemma_known_with(m, "where"@, expr_doc(e), allowed, 3);
        },
        Some(SelectorV::All) => {
            lemma_known_with(m, "all"@, DocV::Bool(true), allowed, 4);
        },
        None => {},
    }
}

proof fn lemma_delete_back(m: Fields, x: DeleteV)
    requires
        envelope(m),
        field(m, "op"@) is None,
        selector_ok(x.selector),
    ensures
        ({
            let f = delete_fields(m.with("op"@, DocV::Str("delete"@)), x);
            &&& delete_of(f) == Ok::<DeleteV, ProtoErrorV>(x)
            &&& matched(f)
            &&& field(f, "op"@) == Some(DocV::Str("delete"@))
            &&& field(f, "v"@) == field(m, "v"@)
        }),
{
    lemma_field_names();
    let allowed = seq!["op"@, "v"@, "table"@, "where"@, "all"@];
    let m1 = m.with("op"@, DocV::Str("delete"@));
    let m2 = m1.with("table"@, DocV::Str(x.table));
    let f = selector_fields(m2, x.selector);
    lemma_table_field(m, "delete"@, x.table, "op"@);
    lemma_table_field(m, "delete"@, x.table, "v"@);
    lemma_table_field(m, "delete"@, x.table, "table"@);
    lemma_table_field(m, "delete"@, x.table, "where"@);
    lemma_table_field(m, "delete"@, x.table, "all"@);
    lemma_selector_field(m2, x.selector, "op"@);
    lemma_selector_field(m2, x.selector, "v"@);
    lemma_selector_field(m2, x.selector, "table"@);
    lemma_selector_field(m2, x.selector, "where"@);
    lemma_selector_field(m2, x.selector, "all"@);
    lemma_envelope_known(m1, allowed);
    lemma_known_with(m1, "table"@, DocV::Str(x.table), allowed, 2);
    lemma_selector_known(m2, x.selector, allowed);
    lemma_all_known(f, "delete"@, allowed);
    if let Some(SelectorV::Where(e)) = x.selector {
        lemma_expr_back(e);
    }
    assert(f == delete_fields(m1, x));
}

/// A field of an update.
proof fn lemma_update_field(m: Fields, x: UpdateV, k: Seq<char>)
    requires
        matched(m),
    ensures
        matched(update_fields(m, x)),
        field(update_fields(m, x), k) == (match field(
            selector_fields(m.with("table"@, DocV::Str(x.table)), x.selector),
            k,
        ) {
            Some(d) => Some(d),
            None => if k == "set"@ {
                Some(named_exprs_doc(x.set))
            } else if k == "unconditional"@ {
                unless(!x.unconditional, DocV::Bool(true))
            } else {
                None
            },
        }),
{
    lemma_field_names();
    let m2 = m.with("table"@, DocV::Str(x.table));
    let m3 = selector_fields(m2, x.selector);
    let set = named_exprs_doc(x.set);
    let m4 = m3.with("set"@, set);
    let u = unless(!x.unconditional, DocV::Bool(true));
    lemma_with(m, "table"@, DocV::Str(x.table), k);
    lemma_selector_field(m2, x.selector, k);
    lemma_with(m3, "set"@, set, k);
    lemma_with_opt(m4, "unconditional"@, u, k);
    assert(update_fields(m, x) == m4.with_opt("unconditional"@, u));
}

proof fn lemma_update_back(m: Fields, x: UpdateV)
    requires
        envelope(m),
        field(m, "op"@) is None,
        selector_ok(x.selector),
        named_ok(x.set),
    ensures
        ({
            let f = update_fields(m.with("op"@, DocV::Str("update"@)), x);
            &&& update_of(f) == Ok::<UpdateV, ProtoErrorV>(x)
            &&& matched(f)
            &&& field(f, "op"@) == Some(DocV::Str("update"@))
            &&& field(f, "v"@) == field(m, "v"@)
        }),
{
    lemma_field_names();
    let allowed = seq!["op"@, "v"@, "table"@, "where"@, "all"@, "set"@, "unconditional"@];
    let m1 = m.with("op"@, DocV::Str("update"@));
    let m2 = m1.with("table"@, DocV::Str(x.table));
    let m3 = selector_fields(m2, x.selector);
    let set = named_exprs_doc(x.set);
    let m4 = m3.with("set"@, set);
    let u = unless(!x.unconditional, DocV::Bool(true));
    let f = m4.with_opt("unconditional"@, u);
    assert(f == update_fields(m1, x));
    lemma_update_name(m, x, "op"@);
    lemma_update_name(m, x, "v"@);
    lemma_update_name(m, x, "table"@);
    lemma_update_name(m, x, "where"@);
    lemma_update_name(m, x, "all"@);
    lemma_update_name(m, x, "set"@);
    lemma_update_name(m, x, "unconditional"@);
    lemma_envelope_known(m1, allowed);
    lemma_known_with(m1, "table"@, DocV::Str(x.table), allowed, 2);
    lemma_selector_known(m2, x.selector, allowed);
    lemma_known_with(m3, "set"@, set, allowed, 5);
    lemma_known_opt(m4, "unconditional"@, u, allowed, 6);
    lemma_all_known(f, "update"@, allowed);
    lemma_named_back(x.set);
    if let Some(SelectorV::Where(e)) = x.selector {
        lemma_expr_back(e);
    }
    assert(selector_of(f, "update"@) == Ok::<Option<SelectorV>, ProtoErrorV>(x.selector));
    assert(opt_bool(f, "update"@, "unconditional"@) == Ok::<bool, ProtoErrorV>(x.unconditional));
}

proof fn lemma_update_name(m: Fields, x: UpdateV, k: Seq<char>)
    requires
        envelope(m),
        field(m, "op"@) is None,
    ensures
        envelope(m.with("op"@, DocV::Str("update"@))),
        matched(update_fields(m.with("op"@, DocV::Str("update"@)), x)),
        field(update_fields(m.with("op"@, DocV::Str("update"@)), x), k) == (if k == "op"@ {
            Some(DocV::Str("update"@))
        } else if k == "v"@ {
            field(m, "v"@)
        } else if k == "table"@ {
            Some(DocV::Str(x.table))
        } else if k == "where"@ {
            match x.selector {
                Some(SelectorV::Where(e)) => Some(expr_doc(e)),
                _ => None,
            }
        } else if k == "all"@ {
            match x.selector {
                Some(SelectorV::All) => Some(DocV::Bool(true)),
                _ => None,
            }
        } else if k == "set"@ {
            Some(named_exprs_doc(x.set))
        } else if k == "unconditional"@ {
            unless(!x.unconditional, DocV::Bool(true))
        } else {
            None
        }),
{
    lemma_field_names();
    let m1 = m.with("op"@, DocV::Str("update"@));
    lemma_table_field(m, "update"@, x.table, k);
    lemma_selector_field(m1.with("table"@, DocV::Str(x.table)), x.selector, k);
    lemma_update_field(m1, x, k);
}

// Requests.

/// Whether a write is one of the grammar.
pub open spec fn write_ok(r: RequestV) -> bool {
    match r {
        RequestV::Insert(x) => rows_ok(x.rows),
        RequestV::Update(x) => selector_ok(x.selector) && named_ok(x.set),
        RequestV::Delete(x) => selector_ok(x.selector),
        _ => false,
    }
}

/// Whether a request is one that the wire can carry: its expressions are of the
/// grammar, its counts fit, its row values have a wire form, and a transaction
/// holds writes only.
pub open spec fn request_ok(r: RequestV) -> bool {
    match r {
        RequestV::Select(s) => select_ok(s),
        RequestV::Transaction(ops) => forall|i: int|
            0 <= i < ops.len() ==> write_ok(#[trigger] ops[i]),
        RequestV::Explain(s) => select_ok(s),
        _ => write_ok(r),
    }
}

proof fn lemma_write_back(m: Fields, r: RequestV)
    requires
        envelope(m),
        field(m, "op"@) is None,
        write_ok(r),
    ensures
        ({
            let f = request_fields(m, r);
            &&& matched(f)
            &&& field(f, "v"@) == field(m, "v"@)
            &&& field(f, "op"@) matches Some(DocV::Str(op)) && write_of(op, f) == Some(
                Ok::<RequestV, ProtoErrorV>(r),
            ) && op != "select"@ && op != "transaction"@ && op != "explain"@
        }),
{
    lemma_field_names();
    match r {
        RequestV::Insert(x) => {
            lemma_insert_back(m, x);
        },
        RequestV::Update(x) => {
            lemma_update_back(m, x);
        },
        RequestV::Delete(x) => {
            lemma_delete_back(m, x);
        },
        _ => {},
    }
}

proof fn lemma_transaction_back(m: Fields, ops: Seq<RequestV>)
    requires
        envelope(m),
        field(m, "op"@) is None,
        forall|i: int| 0 <= i < ops.len() ==> write_ok(#[trigger] ops[i]),
    ensures
        ({
            let f = request_fields(m, RequestV::Transaction(ops));
            &&& transaction_of(f) == Ok::<RequestV, ProtoErrorV>(RequestV::Transaction(ops))
            &&& field(f, "op"@) == Some(DocV::Str("transaction"@))
            &&& field(f, "v"@) == field(m, "v"@)
        }),
{
    lemma_field_names();
    let allowed = seq!["op"@, "v"@, "ops"@];
    let items = ops_doc(ops);
    let d = DocV::Array(items);
    let m1 = m.with("op"@, DocV::Str("transaction"@));
    let f = m1.with("ops"@, d);
    lemma_envelope(m, "ops"@);
    lemma_with(m, "op"@, DocV::Str("transaction"@), "op"@);
    lemma_with(m, "op"@, DocV::Str("transaction"@), "v"@);
    lemma_with(m, "op"@, DocV::Str("transaction"@), "ops"@);
    lemma_with(m1, "ops"@, d, "op"@);
    lemma_with(m1, "ops"@, d, "v"@);
    lemma_with(m1, "ops"@, d, "ops"@);
    lemma_known_with(m, "op"@, DocV::Str("transaction"@), seq!["op"@, "v"@], 0);
    lemma_envelope_known(m1, allowed);
    lemma_known_with(m1, "ops"@, d, allowed, 2);
    lemma_all_known(f, "transaction"@, allowed);
    lemma_ops_doc(ops);
    let rs = Seq::new(items.len(), |i: int| op_of(items[i]));
    assert forall|i: int| 0 <= i < rs.len() implies #[trigger] rs[i] == Ok::<
        RequestV,
        ProtoErrorV,
    >(ops[i]) by {
        let none = Fields::none();
        lemma_none("op"@);
        assert(envelope(none));
        lemma_write_back(none, ops[i]);
        assert(items[i] == request_fields(none, ops[i]).doc());
    }
    lemma_collect_ok(rs, ops);
    assert(f == request_fields(m, RequestV::Transaction(ops)));
}

proof fn lemma_explain_back(m: Fields, s: SelectV)
    requires
        envelope(m),
        field(m, "op"@) is None,
        select_ok(s),
    ensures
        ({
            let f = request_fields(m, RequestV::Explain(s));
            &&& explain_of(f) == Ok::<RequestV, ProtoErrorV>(RequestV::Explain(s))
            &&& field(f, "op"@) == Some(DocV::Str("explain"@))
            &&& field(f, "v"@) == field(m, "v"@)
        }),
{
    lemma_field_names();
    let allowed = seq!["op"@, "v"@, "query"@];
    let none = Fields::none();
    let q0 = none.with("op"@, DocV::Str("select"@));
    let q = select_fields(q0, s);
    let d = q.doc();
    let m1 = m.with("op"@, DocV::Str("explain"@));
    let f = m1.with("query"@, d);
    lemma_none("op"@);
    lemma_with(none, "op"@, DocV::Str("select"@), "op"@);
    lemma_known_with(none, "op"@, DocV::Str("select"@), seq!["op"@, "v"@], 0);
    lemma_select_back(q0, s);
    lemma_envelope(m, "query"@);
    lemma_with(m, "op"@, DocV::Str("explain"@), "op"@);
    lemma_with(m, "op"@, DocV::Str("explain"@), "v"@);
    lemma_with(m, "op"@, DocV::Str("explain"@), "query"@);
    lemma_with(m1, "query"@, d, "op"@);
    lemma_with(m1, "query"@, d, "v"@);
    lemma_with(m1, "query"@, d, "query"@);
    lemma_known_with(m, "op"@, DocV::Str("explain"@), seq!["op"@, "v"@], 0);
    lemma_envelope_known(m1, allowed);
    lemma_known_with(m1, "query"@, d, allowed, 2);
    lemma_all_known(f, "explain"@, allowed);
    assert(f == request_fields(m, RequestV::Explain(s)));
}

/// Reading the canonical document of a request gives back the request.
pub proof fn requests_survive_their_document(r: RequestV)
    requires
        request_ok(r),
    ensures
        request_of(request_doc(r)) == Ok::<RequestV, ProtoErrorV>(r),
{
    lemma_field_names();
    let none = Fields::none();
    let v = DocV::Int(PROTOCOL_VERSION);
    let m = none.with("v"@, v);
    lemma_none("v"@);
    lemma_none("op"@);
    lemma_with(none, "v"@, v, "v"@);
    lemma_with(none, "v"@, v, "op"@);
    lemma_known_with(none, "v"@, v, seq!["op"@, "v"@], 1);
    assert(envelope(m));
    let f = request_fields(m, r);
    assert(request_doc(r) == f.doc());
    match r {
        RequestV::Select(s) => {
            let m1 = m.with("op"@, DocV::Str("select"@));
            lemma_with(m, "op"@, DocV::Str("select"@), "op"@);
            lemma_with(m, "op"@, DocV::Str("select"@), "v"@);
            lemma_known_with(m, "op"@, DocV::Str("select"@), seq!["op"@, "v"@], 0);
            lemma_select_back(m1, s);
        },
        RequestV::Transaction(ops) => {
            lemma_transaction_back(m, ops);
        },
        RequestV::Explain(s) => {
            lemma_explain_back(m, s);
        },
        _ => {
            lemma_write_back(m, r);
        },
    }
}

/// Decoding undoes encoding: what a request encodes to decodes, under limits
/// that admit it, to that request.
pub proof fn requests_round_trip(r: RequestV, limits: DecodeLimits)
    requires
        request_ok(r),
        fits(request_doc(r), 0, limits.max_depth as nat),
        node_count(request_doc(r)) <= limits.max_nodes,
        form(request_doc(r)).len() <= limits.max_bytes,
    ensures
        request_in(form(request_doc(r)), limits) == Ok::<RequestV, ProtoErrorV>(r),
{
    documents_round_trip(request_doc(r), limits);
    requests_survive_their_document(r);
}

} // verus!
