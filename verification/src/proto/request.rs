//! Requests: the strict mapping of documents onto selects and writes.

use vstd::prelude::*;
use crate::text::same;
use crate::views::{
    collect, lemma_collect_err, lemma_collect_ok, lemma_views_empty, lemma_views_push, opt, views,
};
use super::ast::{
    Dir, Expr, ExprV, JoinKind, JoinSpec, JoinSpecV, Projection, ProjectionV, SortKey, SortKeyV,
    Stage, StageV, TableRef, TableRefV,
};
use super::error::{ProtoError, ProtoErrorV, Result};
use super::grammar::{
    agrees, array_of, as_array, as_bool, as_map, as_str, as_u64, bool_of, expr_from, expr_of,
    exprs_from, exprs_of, field, fields, find, map_of, names, only, req, req_str, required,
    required_str, str_of, token_from, token_of, u64_of, unknown_field, wrong, wrong_shape, Fields,
    Res,
};
use super::wire::{docs, entry_keys, entry_vals, Doc, DocV};

verus! {

/// The protocol version this build speaks. Requests may carry a `v` field
/// (missing means version 1); any other version is rejected. Results always
/// carry `v`.
pub const PROTOCOL_VERSION: i64 = 1;

// Table references, joins, sort keys and projections.

/// The text of an optional field.
pub open spec fn opt_str(m: Fields, node: Seq<char>, name: Seq<char>) -> Res<Option<Seq<char>>> {
    match field(m, name) {
        None => Ok(None),
        Some(d) => match str_of(d, node, name) {
            Err(e) => Err(e),
            Ok(s) => Ok(Some(s)),
        },
    }
}

/// A table reference.
pub open spec fn table_ref_of(d: DocV, at: Seq<char>) -> Res<TableRefV> {
    match map_of(d, "table ref"@, at) {
        Err(e) => Err(e),
        Ok(m) => match unknown_field(m, "table ref"@, seq!["table"@, "as"@]) {
            Some(e) => Err(e),
            None => match required_str(m, "table ref"@, "table"@) {
                Err(e) => Err(e),
                Ok(table) => match opt_str(m, "table ref"@, "as"@) {
                    Err(e) => Err(e),
                    Ok(alias) => Ok(TableRefV { table, alias }),
                },
            },
        },
    }
}

pub(crate) fn table_ref_from(doc: &Doc, at: &'static str) -> (r: Result<TableRef>)
    ensures
        agrees(r, table_ref_of(doc@, at@)),
{
    let map = match as_map(doc, "table ref", at) {
        Ok(m) => m,
        Err(e) => {
            return Err(e);
        },
    };
    let allowed: [&'static str; 2] = ["table", "as"];
    assert(names(allowed@) =~= seq!["table"@, "as"@]);
    match only(map, "table ref", allowed.as_slice()) {
        Ok(_) => {},
        Err(e) => {
            return Err(e);
        },
    }
    let table = match req_str(map, "table ref", "table") {
        Ok(s) => s.to_owned(),
        Err(e) => {
            return Err(e);
        },
    };
    let alias = match find(map, "as") {
        Some(d) => match as_str(d, "table ref", "as") {
            Ok(s) => Some(s.to_owned()),
            Err(e) => {
                return Err(e);
            },
        },
        None => None,
    };
    Ok(TableRef { table, alias })
}

/// The join type with this name.
pub open spec fn join_kind_of(name: Seq<char>) -> Res<JoinKind> {
    if name == "inner"@ {
        Ok(JoinKind::Inner)
    } else if name == "left"@ {
        Ok(JoinKind::Left)
    } else if name == "cross"@ {
        Ok(JoinKind::Cross)
    } else {
        Err(ProtoErrorV::InvalidValue { node: "join"@, field: "type"@, found: name })
    }
}

/// An optional expression field.
pub open spec fn opt_expr(m: Fields, name: Seq<char>) -> Res<Option<ExprV>> {
    match field(m, name) {
        None => Ok(None),
        Some(d) => match expr_of(d) {
            Err(e) => Err(e),
            Ok(x) => Ok(Some(x)),
        },
    }
}

/// A join. Cross joins carry no predicate, the others must.
pub open spec fn join_spec_of(d: DocV) -> Res<JoinSpecV> {
    match map_of(d, "join"@, "join"@) {
        Err(e) => Err(e),
        Ok(m) => match unknown_field(m, "join"@, seq!["type"@, "table"@, "on"@]) {
            Some(e) => Err(e),
            None => match required_str(m, "join"@, "type"@) {
                Err(e) => Err(e),
                Ok(name) => match join_kind_of(name) {
                    Err(e) => Err(e),
                    Ok(kind) => match required(m, "join"@, "table"@) {
                        Err(e) => Err(e),
                        Ok(t) => match table_ref_of(t, "table"@) {
                            Err(e) => Err(e),
                            Ok(table) => match opt_expr(m, "on"@) {
                                Err(e) => Err(e),
                                Ok(on) => if kind == JoinKind::Cross && on is Some {
                                    Err(
                                        ProtoErrorV::UnknownField {
                                            node: "cross join"@,
                                            name: "on"@,
                                        },
                                    )
                                } else if kind != JoinKind::Cross && on is None {
                                    Err(
                                        ProtoErrorV::MissingField {
                                            node: "join"@,
                                            field: "on"@,
                                        },
                                    )
                                } else {
                                    Ok(JoinSpecV { kind, table, on })
                                },
                            },
                        },
                    },
                },
            },
        },
    }
}

pub(crate) fn opt_expr_from(map: &Vec<(String, Doc)>, name: &'static str) -> (r: Result<Option<Expr>>)
    ensures
        match r {
            Ok(x) => opt_expr(fields(map@), name@) == Ok::<Option<ExprV>, ProtoErrorV>(opt(x)),
            Err(e) => opt_expr(fields(map@), name@) == Err::<Option<ExprV>, ProtoErrorV>(e@),
        },
{
    match find(map, name) {
        None => Ok(None),
        Some(d) => match expr_from(d) {
            Ok(x) => Ok(Some(x)),
            Err(e) => Err(e),
        },
    }
}

fn join_spec_from(doc: &Doc) -> (r: Result<JoinSpec>)
    ensures
        agrees(r, join_spec_of(doc@)),
{
    let map = match as_map(doc, "join", "join") {
        Ok(m) => m,
        Err(e) => {
            return Err(e);
        },
    };
    let allowed: [&'static str; 3] = ["type", "table", "on"];
    assert(names(allowed@) =~= seq!["type"@, "table"@, "on"@]);
    match only(map, "join", allowed.as_slice()) {
        Ok(_) => {},
        Err(e) => {
            return Err(e);
        },
    }
    let name = match req_str(map, "join", "type") {
        Ok(s) => s,
        Err(e) => {
            return Err(e);
        },
    };
    let kind = if same(name, "inner") {
        JoinKind::Inner
    } else if same(name, "left") {
        JoinKind::Left
    } else if same(name, "cross") {
        JoinKind::Cross
    } else {
        return Err(
            ProtoError::InvalidValue { node: "join", field: "type", found: name.to_owned() },
        );
    };
    let table = match req(map, "join", "table") {
        Ok(d) => match table_ref_from(d, "table") {
            Ok(t) => t,
            Err(e) => {
                return Err(e);
            },
        },
        Err(e) => {
            return Err(e);
        },
    };
    let on = match opt_expr_from(map, "on") {
        Ok(on) => on,
        Err(e) => {
            return Err(e);
        },
    };
    // Grammar-level shape: cross joins carry no predicate, the others must.
    if kind == JoinKind::Cross && on.is_some() {
        return Err(ProtoError::UnknownField { node: "cross join", name: "on".to_owned() });
    }
    if kind != JoinKind::Cross && on.is_none() {
        return Err(ProtoError::MissingField { node: "join", field: "on" });
    }
    Ok(JoinSpec { kind, table, on })
}

/// The direction with this name.
pub open spec fn dir_of(name: Seq<char>) -> Res<Dir> {
    if name == "asc"@ {
        Ok(Dir::Asc)
    } else if name == "desc"@ {
        Ok(Dir::Desc)
    } else {
        Err(ProtoErrorV::InvalidValue { node: "sort key"@, field: "dir"@, found: name })
    }
}

/// A sort key.
pub open spec fn sort_key_of(d: DocV, at: Seq<char>) -> Res<SortKeyV> {
    match map_of(d, "sort key"@, at) {
        Err(e) => Err(e),
        Ok(m) => match unknown_field(m, "sort key"@, seq!["expr"@, "dir"@]) {
            Some(e) => Err(e),
            None => match required(m, "sort key"@, "expr"@) {
                Err(e) => Err(e),
                Ok(x) => match expr_of(x) {
                    Err(e) => Err(e),
                    Ok(expr) => match opt_str(m, "sort key"@, "dir"@) {
                        Err(e) => Err(e),
                        Ok(None) => Ok(SortKeyV { expr, dir: Dir::Asc }),
                        Ok(Some(name)) => match dir_of(name) {
                            Err(e) => Err(e),
                            Ok(dir) => Ok(SortKeyV { expr, dir }),
                        },
                    },
                },
            },
        },
    }
}

/// Sort keys.
pub open spec fn sort_keys_of(d: DocV, node: Seq<char>, at: Seq<char>) -> Res<Seq<SortKeyV>> {
    match array_of(d, node, at) {
        Err(e) => Err(e),
        Ok(items) => collect(Seq::new(items.len(), |i: int| sort_key_of(items[i], at))),
    }
}

fn sort_key_from(item: &Doc, at: &'static str) -> (r: Result<SortKey>)
    ensures
        agrees(r, sort_key_of(item@, at@)),
{
    let map = match as_map(item, "sort key", at) {
        Ok(m) => m,
        Err(e) => {
            return Err(e);
        },
    };
    let allowed: [&'static str; 2] = ["expr", "dir"];
    assert(names(allowed@) =~= seq!["expr"@, "dir"@]);
    match only(map, "sort key", allowed.as_slice()) {
        Ok(_) => {},
        Err(e) => {
            return Err(e);
        },
    }
    let expr = match req(map, "sort key", "expr") {
        Ok(d) => match expr_from(d) {
            Ok(x) => x,
            Err(e) => {
                return Err(e);
            },
        },
        Err(e) => {
            return Err(e);
        },
    };
    let dir = match find(map, "dir") {
        None => Dir::Asc,
        Some(d) => match as_str(d, "sort key", "dir") {
            Ok(name) => if same(name, "asc") {
                Dir::Asc
            } else if same(name, "desc") {
                Dir::Desc
            } else {
                return Err(
                    ProtoError::InvalidValue {
                        node: "sort key",
                        field: "dir",
                        found: name.to_owned(),
                    },
                );
            },
            Err(e) => {
                return Err(e);
            },
        },
    };
    Ok(SortKey { expr, dir })
}

pub(crate) fn sort_keys_from(doc: &Doc, node: &'static str, at: &'static str) -> (r: Result<Vec<SortKey>>)
    ensures
        match r {
            Ok(list) => sort_keys_of(doc@, node@, at@) == Ok::<Seq<SortKeyV>, ProtoErrorV>(
                views(list@),
            ),
            Err(e) => sort_keys_of(doc@, node@, at@) == Err::<Seq<SortKeyV>, ProtoErrorV>(e@),
        },
{
    let items = match as_array(doc, node, at) {
        Ok(items) => items,
        Err(e) => {
            return Err(e);
        },
    };
    let ghost xs = docs(items@);
    let ghost rs = Seq::new(xs.len(), |i: int| sort_key_of(xs[i], at@));
    let mut out: Vec<SortKey> = Vec::new();
    let mut i: usize = 0;
    while i < items.len()
        invariant
            i <= items@.len(),
            out@.len() == i,
            xs == docs(items@),
            rs == Seq::new(xs.len(), |i: int| sort_key_of(xs[i], at@)),
            sort_keys_of(doc@, node@, at@) == collect(rs),
            forall|j: int| 0 <= j < i ==> #[trigger] rs[j] == Ok::<SortKeyV, ProtoErrorV>(
                views(out@)[j],
            ),
        decreases items@.len() - i,
    {
        assert(rs[i as int] == sort_key_of(items@[i as int]@, at@));
        match sort_key_from(&items[i], at) {
            Ok(x) => {
                let ghost before = out@;
                out.push(x);
                proof {
                    lemma_views_push(before, x);
                }
            },
            Err(e) => {
                proof {
                    lemma_collect_err(rs, i as int);
                }
                return Err(e);
            },
        }
        i = i + 1;
    }
    proof {
        lemma_collect_ok(rs, views(out@));
    }
    Ok(out)
}

/// A projection item: `{as:[name, expr]}` or a bare expression.
pub open spec fn projection_of(d: DocV) -> Res<ProjectionV> {
    match d {
        DocV::Dict { keys, vals } => if keys.len() == 1 && vals.len() == 1 && keys[0] == "as"@ {
            match array_of(vals[0], "as"@, "as"@) {
                Err(e) => Err(e),
                Ok(parts) => if parts.len() != 2 {
                    Err(wrong_shape("as"@, "as"@, "[name, expr] pair"@, d))
                } else {
                    match str_of(parts[0], "as"@, "name"@) {
                        Err(e) => Err(e),
                        Ok(name) => match expr_of(parts[1]) {
                            Err(e) => Err(e),
                            Ok(expr) => Ok(ProjectionV::Aliased { name, expr }),
                        },
                    }
                },
            }
        } else {
            bare_projection(d)
        },
        _ => bare_projection(d),
    }
}

/// A bare expression as a projection item.
pub open spec fn bare_projection(d: DocV) -> Res<ProjectionV> {
    match expr_of(d) {
        Err(e) => Err(e),
        Ok(x) => Ok(ProjectionV::Expr(x)),
    }
}

fn projection_from(doc: &Doc) -> (r: Result<Projection>)
    ensures
        agrees(r, projection_of(doc@)),
{
    proof {
        doc.lemma_parts();
    }
    if let Doc::Dict(entries) = doc {
        if entries.len() == 1 {
            let e = &entries[0];
            assert(entry_keys(entries@)[0] == e.0@);
            assert(entry_vals(entries@)[0] == e.1@);
            if same(e.0.as_str(), "as") {
                let parts = match as_array(&e.1, "as", "as") {
                    Ok(parts) => parts,
                    Err(e) => {
                        return Err(e);
                    },
                };
                if parts.len() != 2 {
                    return Err(wrong("as", "as", "[name, expr] pair", doc));
                }
                assert(docs(parts@)[0] == parts@[0]@ && docs(parts@)[1] == parts@[1]@);
                let name = match as_str(&parts[0], "as", "name") {
                    Ok(s) => s.to_owned(),
                    Err(e) => {
                        return Err(e);
                    },
                };
                return match expr_from(&parts[1]) {
                    Ok(expr) => Ok(Projection::Aliased { name, expr }),
                    Err(e) => Err(e),
                };
            }
        }
    }
    match expr_from(doc) {
        Ok(x) => Ok(Projection::Expr(x)),
        Err(e) => Err(e),
    }
}

/// Projection items.
pub open spec fn projections_of(items: Seq<DocV>) -> Res<Seq<ProjectionV>> {
    collect(Seq::new(items.len(), |i: int| projection_of(items[i])))
}

pub(crate) fn projections_from(items: &Vec<Doc>) -> (r: Result<Vec<Projection>>)
    ensures
        match r {
            Ok(list) => projections_of(docs(items@)) == Ok::<Seq<ProjectionV>, ProtoErrorV>(
                views(list@),
            ),
            Err(e) => projections_of(docs(items@)) == Err::<Seq<ProjectionV>, ProtoErrorV>(e@),
        },
{
    let ghost xs = docs(items@);
    let ghost rs = Seq::new(xs.len(), |i: int| projection_of(xs[i]));
    let mut out: Vec<Projection> = Vec::new();
    let mut i: usize = 0;
    while i < items.len()
        invariant
            i <= items@.len(),
            out@.len() == i,
            xs == docs(items@),
            rs == Seq::new(xs.len(), |i: int| projection_of(xs[i])),
            forall|j: int| 0 <= j < i ==> #[trigger] rs[j] == Ok::<ProjectionV, ProtoErrorV>(
                views(out@)[j],
            ),
        decreases items@.len() - i,
    {
        assert(rs[i as int] == projection_of(items@[i as int]@));
        match projection_from(&items[i]) {
            Ok(x) => {
                let ghost before = out@;
                out.push(x);
                proof {
                    lemma_views_push(before, x);
                }
            },
            Err(e) => {
                proof {
                    lemma_collect_err(rs, i as int);
                }
                return Err(e);
            },
        }
        i = i + 1;
    }
    proof {
        lemma_collect_ok(rs, views(out@));
    }
    Ok(out)
}

/// Joins.
pub open spec fn joins_of(items: Seq<DocV>) -> Res<Seq<JoinSpecV>> {
    collect(Seq::new(items.len(), |i: int| join_spec_of(items[i])))
}

pub(crate) fn joins_from(items: &Vec<Doc>) -> (r: Result<Vec<JoinSpec>>)
    ensures
        match r {
            Ok(list) => joins_of(docs(items@)) == Ok::<Seq<JoinSpecV>, ProtoErrorV>(views(list@)),
            Err(e) => joins_of(docs(items@)) == Err::<Seq<JoinSpecV>, ProtoErrorV>(e@),
        },
{
    let ghost xs = docs(items@);
    let ghost rs = Seq::new(xs.len(), |i: int| join_spec_of(xs[i]));
    let mut out: Vec<JoinSpec> = Vec::new();
    let mut i: usize = 0;
    while i < items.len()
        invariant
            i <= items@.len(),
            out@.len() == i,
            xs == docs(items@),
            rs == Seq::new(xs.len(), |i: int| join_spec_of(xs[i])),
            forall|j: int| 0 <= j < i ==> #[trigger] rs[j] == Ok::<JoinSpecV, ProtoErrorV>(
                views(out@)[j],
            ),
        decreases items@.len() - i,
    {
        assert(rs[i as int] == join_spec_of(items@[i as int]@));
        match join_spec_from(&items[i]) {
            Ok(x) => {
                let ghost before = out@;
                out.push(x);
                proof {
                    lemma_views_push(before, x);
                }
            },
            Err(e) => {
                proof {
                    lemma_collect_err(rs, i as int);
                }
                return Err(e);
            },
        }
        i = i + 1;
    }
    proof {
        lemma_collect_ok(rs, views(out@));
    }
    Ok(out)
}

/// The named expressions of a map, in wire order.
pub open spec fn named_exprs_of(m: Fields) -> Res<Seq<(Seq<char>, ExprV)>> {
    collect(
        Seq::new(
            m.vals.len(),
            |i: int|
                match expr_of(m.vals[i]) {
                    Ok(x) => Ok((m.keys[i], x)),
                    Err(e) => Err(e),
                },
        ),
    )
}

pub(crate) fn named_exprs_from(map: &Vec<(String, Doc)>) -> (r: Result<Vec<(String, Expr)>>)
    ensures
        match r {
            Ok(list) => named_exprs_of(fields(map@)) == Ok::<
                Seq<(Seq<char>, ExprV)>,
                ProtoErrorV,
            >(views(list@)),
            Err(e) => named_exprs_of(fields(map@)) == Err::<
                Seq<(Seq<char>, ExprV)>,
                ProtoErrorV,
            >(e@),
        },
{
    let ghost m = fields(map@);
    let ghost rs = Seq::new(
        m.vals.len(),
        |i: int|
            match expr_of(m.vals[i]) {
                Ok(x) => Ok::<(Seq<char>, ExprV), ProtoErrorV>((m.keys[i], x)),
                Err(e) => Err(e),
            },
    );
    assert(named_exprs_of(m) == collect(rs));
    let mut out: Vec<(String, Expr)> = Vec::new();
    let mut i: usize = 0;
    while i < map.len()
        invariant
            i <= map@.len(),
            out@.len() == i,
            m == fields(map@),
            rs == Seq::new(
                m.vals.len(),
                |i: int|
                    match expr_of(m.vals[i]) {
                        Ok(x) => Ok::<(Seq<char>, ExprV), ProtoErrorV>((m.keys[i], x)),
                        Err(e) => Err(e),
                    },
            ),
            named_exprs_of(m) == collect(rs),
            forall|j: int| 0 <= j < i ==> #[trigger] rs[j] == Ok::<
                (Seq<char>, ExprV),
                ProtoErrorV,
            >(views(out@)[j]),
        decreases map@.len() - i,
    {
        let e = &map[i];
        assert(m.vals[i as int] == e.1@ && m.keys[i as int] == e.0@);
        match expr_from(&e.1) {
            Ok(x) => {
                let ghost before = out@;
                let pair = (e.0.clone(), x);
                out.push(pair);
                proof {
                    lemma_views_push(before, pair);
                    assert(rs[i as int] == Ok::<(Seq<char>, ExprV), ProtoErrorV>(pair@));
                }
            },
            Err(e) => {
                proof {
                    assert(rs[i as int] == Err::<(Seq<char>, ExprV), ProtoErrorV>(e@));
                    lemma_collect_err(rs, i as int);
                }
                return Err(e);
            },
        }
        i = i + 1;
    }
    proof {
        lemma_collect_ok(rs, views(out@));
    }
    Ok(out)
}

// Stages.

/// The number of an optional field.
pub open spec fn opt_u64(m: Fields, node: Seq<char>, name: Seq<char>) -> Res<Option<u64>> {
    match field(m, name) {
        None => Ok(None),
        Some(d) => match u64_of(d, node, name) {
            Err(e) => Err(e),
            Ok(n) => Ok(Some(n)),
        },
    }
}

pub(crate) fn opt_u64_from(map: &Vec<(String, Doc)>, node: &'static str, name: &'static str) -> (r: Result<
    Option<u64>,
>)
    ensures
        match r {
            Ok(n) => opt_u64(fields(map@), node@, name@) == Ok::<Option<u64>, ProtoErrorV>(n),
            Err(e) => opt_u64(fields(map@), node@, name@) == Err::<Option<u64>, ProtoErrorV>(e@),
        },
{
    match find(map, name) {
        None => Ok(None),
        Some(d) => match as_u64(d, node, name) {
            Ok(n) => Ok(Some(n)),
            Err(e) => Err(e),
        },
    }
}

/// A limit stage: `limit` and `offset` form one stage with up to two keys.
pub open spec fn limit_of(m: Fields) -> Res<StageV> {
    match unknown_field(m, "limit stage"@, seq!["limit"@, "offset"@]) {
        Some(e) => Err(e),
        None => match opt_u64(m, "limit stage"@, "limit"@) {
            Err(e) => Err(e),
            Ok(limit) => match opt_u64(m, "limit stage"@, "offset"@) {
                Err(e) => Err(e),
                Ok(offset) => Ok(
                    StageV::Limit {
                        limit,
                        offset: match offset {
                            Some(n) => n,
                            None => 0,
                        },
                    },
                ),
            },
        },
    }
}

/// The expressions of an optional list field; none if it is absent.
pub open spec fn opt_exprs(m: Fields, node: Seq<char>, name: Seq<char>) -> Res<Seq<ExprV>> {
    match field(m, name) {
        None => Ok(Seq::empty()),
        Some(d) => match array_of(d, node, name) {
            Err(e) => Err(e),
            Ok(items) => exprs_of(items),
        },
    }
}

pub(crate) fn opt_exprs_from(map: &Vec<(String, Doc)>, node: &'static str, name: &'static str) -> (r: Result<
    Vec<Expr>,
>)
    ensures
        match r {
            Ok(list) => opt_exprs(fields(map@), node@, name@) == Ok::<Seq<ExprV>, ProtoErrorV>(
                views(list@),
            ),
            Err(e) => opt_exprs(fields(map@), node@, name@) == Err::<Seq<ExprV>, ProtoErrorV>(e@),
        },
{
    match find(map, name) {
        None => {
            let out: Vec<Expr> = Vec::new();
            proof {
                lemma_views_empty::<Expr>();
            }
            Ok(out)
        },
        Some(d) => match as_array(d, node, name) {
            Ok(items) => exprs_from(items),
            Err(e) => Err(e),
        },
    }
}

/// The named aggregates of a group; none if the field is absent.
pub open spec fn aggs_of(m: Fields) -> Res<Seq<(Seq<char>, ExprV)>> {
    match field(m, "agg"@) {
        None => Ok(Seq::empty()),
        Some(d) => match map_of(d, "group"@, "agg"@) {
            Err(e) => Err(e),
            Ok(list) => named_exprs_of(list),
        },
    }
}

/// A group stage.
pub open spec fn group_of(body: DocV) -> Res<StageV> {
    match map_of(body, "group"@, "group"@) {
        Err(e) => Err(e),
        Ok(m) => match unknown_field(m, "group"@, seq!["by"@, "agg"@]) {
            Some(e) => Err(e),
            None => match opt_exprs(m, "group"@, "by"@) {
                Err(e) => Err(e),
                Ok(by) => match aggs_of(m) {
                    Err(e) => Err(e),
                    Ok(aggs) => Ok(StageV::Group { by, aggs }),
                },
            },
        },
    }
}

fn group_from(body: &Doc) -> (r: Result<Stage>)
    ensures
        agrees(r, group_of(body@)),
{
    let group = match as_map(body, "group", "group") {
        Ok(m) => m,
        Err(e) => {
            return Err(e);
        },
    };
    let allowed: [&'static str; 2] = ["by", "agg"];
    assert(names(allowed@) =~= seq!["by"@, "agg"@]);
    match only(group, "group", allowed.as_slice()) {
        Ok(_) => {},
        Err(e) => {
            return Err(e);
        },
    }
    let by = match opt_exprs_from(group, "group", "by") {
        Ok(by) => by,
        Err(e) => {
            return Err(e);
        },
    };
    let aggs = match find(group, "agg") {
        None => {
            let none: Vec<(String, Expr)> = Vec::new();
            proof {
                lemma_views_empty::<(String, Expr)>();
            }
            none
        },
        Some(d) => match as_map(d, "group", "agg") {
            Ok(m) => match named_exprs_from(m) {
                Ok(list) => list,
                Err(e) => {
                    return Err(e);
                },
            },
            Err(e) => {
                return Err(e);
            },
        },
    };
    Ok(Stage::Group { by, aggs })
}

/// A stage with a name and a body.
pub open spec fn single_stage_of(name: Seq<char>, body: DocV) -> Res<StageV> {
    if name == "scan"@ {
        match table_ref_of(body, "scan"@) {
            Err(e) => Err(e),
            Ok(t) => Ok(StageV::Scan(t)),
        }
    } else if name == "match"@ {
        match expr_of(body) {
            Err(e) => Err(e),
            Ok(x) => Ok(StageV::Match(x)),
        }
    } else if name == "join"@ {
        match join_spec_of(body) {
            Err(e) => Err(e),
            Ok(j) => Ok(StageV::Join(j)),
        }
    } else if name == "group"@ {
        group_of(body)
    } else if name == "sort"@ {
        match sort_keys_of(body, "sort"@, "sort"@) {
            Err(e) => Err(e),
            Ok(keys) => Ok(StageV::Sort(keys)),
        }
    } else if name == "project"@ {
        match array_of(body, "project"@, "project"@) {
            Err(e) => Err(e),
            Ok(items) => match projections_of(items) {
                Err(e) => Err(e),
                Ok(list) => Ok(StageV::Project(list)),
            },
        }
    } else if name == "distinct"@ {
        match bool_of(body, "distinct"@, "distinct"@) {
            Err(e) => Err(e),
            Ok(on) => Ok(StageV::Distinct(on)),
        }
    } else if name == "cursor"@ {
        match token_of(body, "cursor"@, "cursor"@) {
            Err(e) => Err(e),
            Ok(token) => Ok(StageV::Cursor(token)),
        }
    } else {
        Err(ProtoErrorV::UnknownNode { context: "stage"@, name })
    }
}

/// A stage: every one but the limit is a single-key map.
pub open spec fn stage_of(d: DocV) -> Res<StageV> {
    match map_of(d, "stage"@, "stage"@) {
        Err(e) => Err(e),
        Ok(m) => if field(m, "limit"@) is Some || field(m, "offset"@) is Some {
            limit_of(m)
        } else if m.keys.len() != 1 || m.vals.len() != 1 {
            Err(wrong_shape("stage"@, "stage"@, "single-key map"@, d))
        } else {
            single_stage_of(m.keys[0], m.vals[0])
        },
    }
}

fn single_stage_from(name: &str, body: &Doc) -> (r: Result<Stage>)
    ensures
        agrees(r, single_stage_of(name@, body@)),
{
    if same(name, "scan") {
        return match table_ref_from(body, "scan") {
            Ok(t) => Ok(Stage::Scan(t)),
            Err(e) => Err(e),
        };
    }
    if same(name, "match") {
        return match expr_from(body) {
            Ok(x) => Ok(Stage::Match(x)),
            Err(e) => Err(e),
        };
    }
    if same(name, "join") {
        return match join_spec_from(body) {
            Ok(j) => Ok(Stage::Join(j)),
            Err(e) => Err(e),
        };
    }
    if same(name, "group") {
        return group_from(body);
    }
    if same(name, "sort") {
        return match sort_keys_from(body, "sort", "sort") {
            Ok(keys) => Ok(Stage::Sort(keys)),
            Err(e) => Err(e),
        };
    }
    if same(name, "project") {
        return match as_array(body, "project", "project") {
            Ok(items) => match projections_from(items) {
                Ok(list) => Ok(Stage::Project(list)),
                Err(e) => Err(e),
            },
            Err(e) => Err(e),
        };
    }
    if same(name, "distinct") {
        return match as_bool(body, "distinct", "distinct") {
            Ok(on) => Ok(Stage::Distinct(on)),
            Err(e) => Err(e),
        };
    }
    if same(name, "cursor") {
        return match token_from(body, "cursor", "cursor") {
            Ok(token) => Ok(Stage::Cursor(token)),
            Err(e) => Err(e),
        };
    }
    Err(ProtoError::UnknownNode { context: "stage", name: name.to_owned() })
}

/// Map a `Doc` onto a pipeline stage.
pub fn stage_from(doc: &Doc) -> (r: Result<Stage>)
    ensures
        agrees(r, stage_of(doc@)),
{
    let map = match as_map(doc, "stage", "stage") {
        Ok(m) => m,
        Err(e) => {
            return Err(e);
        },
    };
    // `limit`/`offset` form one stage with up to two keys; every other stage is
    // a single-key map.
    if find(map, "limit").is_some() || find(map, "offset").is_some() {
        let allowed: [&'static str; 2] = ["limit", "offset"];
        assert(names(allowed@) =~= seq!["limit"@, "offset"@]);
        match only(map, "limit stage", allowed.as_slice()) {
            Ok(_) => {},
            Err(e) => {
                return Err(e);
            },
        }
        let limit = match opt_u64_from(map, "limit stage", "limit") {
            Ok(n) => n,
            Err(e) => {
                return Err(e);
            },
        };
        let offset: u64 = match opt_u64_from(map, "limit stage", "offset") {
            Ok(Some(n)) => n,
            Ok(None) => 0,
            Err(e) => {
                return Err(e);
            },
        };
        return Ok(Stage::Limit { limit, offset });
    }
    if map.len() != 1 {
        return Err(wrong("stage", "stage", "single-key map", doc));
    }
    let e = &map[0];
    assert(fields(map@).keys[0] == e.0@ && fields(map@).vals[0] == e.1@);
    single_stage_from(e.0.as_str(), &e.1)
}

/// Stages.
pub open spec fn stages_of(items: Seq<DocV>) -> Res<Seq<StageV>> {
    collect(Seq::new(items.len(), |i: int| stage_of(items[i])))
}

pub(crate) fn stages_from(items: &Vec<Doc>) -> (r: Result<Vec<Stage>>)
    ensures
        match r {
            Ok(list) => stages_of(docs(items@)) == Ok::<Seq<StageV>, ProtoErrorV>(views(list@)),
            Err(e) => stages_of(docs(items@)) == Err::<Seq<StageV>, ProtoErrorV>(e@),
        },
{
    let ghost xs = docs(items@);
    let ghost rs = Seq::new(xs.len(), |i: int| stage_of(xs[i]));
    let mut out: Vec<Stage> = Vec::new();
    let mut i: usize = 0;
    while i < items.len()
        invariant
            i <= items@.len(),
            out@.len() == i,
            xs == docs(items@),
            rs == Seq::new(xs.len(), |i: int| stage_of(xs[i])),
            forall|j: int| 0 <= j < i ==> #[trigger] rs[j] == Ok::<StageV, ProtoErrorV>(
                views(out@)[j],
            ),
        decreases items@.len() - i,
    {
        assert(rs[i as int] == stage_of(items@[i as int]@));
        match stage_from(&items[i]) {
            Ok(x) => {
                let ghost before = out@;
                out.push(x);
                proof {
                    lemma_views_push(before, x);
                }
            },
            Err(e) => {
                proof {
                    lemma_collect_err(rs, i as int);
                }
                return Err(e);
            },
        }
        i = i + 1;
    }
    proof {
        lemma_collect_ok(rs, views(out@));
    }
    Ok(out)
}

} // verus!
