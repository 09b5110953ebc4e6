//! What an accepted document says: exactly its fields, each of them known, and nothing
//! that they do not say.

use vstd::prelude::*;
use super::ast::{
    DeleteV, Dir, ExprV, InsertV, JoinKind, RequestV, SelectV, SelectorV, StageV, UpdateV,
};
use super::error::ProtoErrorV;
use super::grammar::{expr_of, field, list_of, node_of, pair_of, stranger, unknown_field, Fields};
use super::request::{
    join_spec_of, limit_of, named_exprs_of, sort_key_of, stage_of, table_ref_of,
};
use super::select::{
    clause_of, delete_of, explain_of, insert_of, op_of, request_of, row_of, row_value_of, select_of,
    selector_of, transaction_of, update_of, version_flaw,
};
use super::wire::{lemma_position, DocV};
use crate::value::ValueV;

verus! {

/// Whether `d` is the value of the first field with this name.
pub open spec fn says(m: Fields, name: Seq<char>, d: DocV) -> bool {
    exists|i: int|
        {
            &&& 0 <= i < m.keys.len()
            &&& #[trigger] m.keys[i] == name
            &&& m.vals[i] == d
            &&& forall|j: int| 0 <= j < i ==> #[trigger] m.keys[j] != name
        }
}

/// Whether there is no field with this name.
pub open spec fn lacks(m: Fields, name: Seq<char>) -> bool {
    forall|i: int| 0 <= i < m.keys.len() ==> #[trigger] m.keys[i] != name
}

/// Whether every field is one of these.
pub open spec fn holds_only(m: Fields, allowed: Seq<Seq<char>>) -> bool {
    forall|i: int| 0 <= i < m.keys.len() ==> allowed.contains(#[trigger] m.keys[i])
}

/// A field is found by its name, where there is one: the first.
pub proof fn fields_are_found_by_name(m: Fields, name: Seq<char>)
    ensures
        forall|d: DocV| #[trigger] says(m, name, d) <==> field(m, name) == Some(d),
        field(m, name) is None <==> lacks(m, name),
{
    lemma_position(m.keys, name);
    assert forall|d: DocV| #[trigger] says(m, name, d) implies field(m, name) == Some(d) by {
        let i = choose|i: int|
            {
                &&& 0 <= i < m.keys.len()
                &&& #[trigger] m.keys[i] == name
                &&& m.vals[i] == d
                &&& forall|j: int| 0 <= j < i ==> #[trigger] m.keys[j] != name
            };
        let k = super::wire::position(m.keys, name)->Some_0;
        assert(m.keys[k] == name && m.keys[i] == name);
    }
}

/// A node is refused for a field exactly where it has one that is not allowed, and the
/// refusal names the first.
pub proof fn strangers_are_refused(m: Fields, node: Seq<char>, allowed: Seq<Seq<char>>)
    ensures
        unknown_field(m, node, allowed) is None <==> holds_only(m, allowed),
        unknown_field(m, node, allowed) matches Some(e) ==> exists|i: int|
            {
                &&& 0 <= i < m.keys.len()
                &&& !allowed.contains(#[trigger] m.keys[i])
                &&& e == (ProtoErrorV::UnknownField { node, name: m.keys[i] })
                &&& forall|j: int| 0 <= j < i ==> allowed.contains(#[trigger] m.keys[j])
            },
{
    lemma_strangers(m.keys, allowed);
}

proof fn lemma_strangers(keys: Seq<Seq<char>>, allowed: Seq<Seq<char>>)
    ensures
        match stranger(keys, allowed) {
            None => forall|i: int| 0 <= i < keys.len() ==> allowed.contains(#[trigger] keys[i]),
            Some(name) => exists|i: int|
                {
                    &&& 0 <= i < keys.len()
                    &&& !allowed.contains(#[trigger] keys[i])
                    &&& name == keys[i]
                    &&& forall|j: int| 0 <= j < i ==> allowed.contains(#[trigger] keys[j])
                },
        },
    decreases keys.len(),
{
    if keys.len() > 0 && allowed.contains(keys[0]) {
        let rest = keys.drop_first();
        lemma_strangers(rest, allowed);
        assert forall|i: int| 0 <= i < rest.len() implies #[trigger] rest[i] == keys[i + 1] by {}
        match stranger(rest, allowed) {
            None => {
                assert forall|i: int| 0 <= i < keys.len() implies allowed.contains(
                    #[trigger] keys[i],
                ) by {
                    if i > 0 {
                        assert(keys[i] == rest[i - 1]);
                    }
                }
            },
            Some(name) => {
                let i = choose|i: int|
                    {
                        &&& 0 <= i < rest.len()
                        &&& !allowed.contains(#[trigger] rest[i])
                        &&& name == rest[i]
                        &&& forall|j: int| 0 <= j < i ==> allowed.contains(#[trigger] rest[j])
                    };
                assert(keys[i + 1] == rest[i]);
                assert forall|j: int| 0 <= j < i + 1 implies allowed.contains(
                    #[trigger] keys[j],
                ) by {
                    if j > 0 {
                        assert(keys[j] == rest[j - 1]);
                    }
                }
            },
        }
    }
}

/// A table is named by a string, and by another where it has an alias; nothing else is
/// said of it.
pub proof fn tables_are_named(d: DocV, at: Seq<char>)
    ensures
        table_ref_of(d, at) matches Ok(t) ==> {
            &&& d is Dict
            &&& {
                let m = Fields { keys: d->keys, vals: d->vals };
                &&& holds_only(m, seq!["table"@, "as"@])
                &&& says(m, "table"@, DocV::Str(t.table))
                &&& match t.alias {
                    Some(a) => says(m, "as"@, DocV::Str(a)),
                    None => lacks(m, "as"@),
                }
            }
        },
{
    if let DocV::Dict { keys, vals } = d {
        let m = Fields { keys, vals };
        fields_are_found_by_name(m, "table"@);
        fields_are_found_by_name(m, "as"@);
        strangers_are_refused(m, "table ref"@, seq!["table"@, "as"@]);
    }
}

/// A join says what it joins with and how; a cross join has no predicate, and every
/// other one has.
pub proof fn joins_say_how_they_join(d: DocV)
    ensures
        join_spec_of(d) matches Ok(j) ==> {
            &&& d is Dict
            &&& {
                let m = Fields { keys: d->keys, vals: d->vals };
                &&& holds_only(m, seq!["type"@, "table"@, "on"@])
                &&& j.kind == JoinKind::Inner ==> says(m, "type"@, DocV::Str("inner"@))
                &&& j.kind == JoinKind::Left ==> says(m, "type"@, DocV::Str("left"@))
                &&& j.kind == JoinKind::Cross ==> says(m, "type"@, DocV::Str("cross"@))
                &&& j.kind == JoinKind::Cross <==> j.on is None
                &&& j.on is None <==> lacks(m, "on"@)
            }
        },
{
    if let DocV::Dict { keys, vals } = d {
        let m = Fields { keys, vals };
        fields_are_found_by_name(m, "type"@);
        fields_are_found_by_name(m, "table"@);
        fields_are_found_by_name(m, "on"@);
        strangers_are_refused(m, "join"@, seq!["type"@, "table"@, "on"@]);
    }
}

/// A sort key goes up unless it says that it goes down.
pub proof fn sort_keys_go_up_unless_told(d: DocV, at: Seq<char>)
    ensures
        sort_key_of(d, at) matches Ok(k) ==> {
            &&& d is Dict
            &&& {
                let m = Fields { keys: d->keys, vals: d->vals };
                &&& holds_only(m, seq!["expr"@, "dir"@])
                &&& k.dir == Dir::Desc <==> says(m, "dir"@, DocV::Str("desc"@))
                &&& k.dir == Dir::Asc <==> (lacks(m, "dir"@) || says(m, "dir"@, DocV::Str("asc"@)))
                &&& exists|x: DocV| #[trigger]
                    says(m, "expr"@, x) && expr_of(x) == Ok::<ExprV, ProtoErrorV>(k.expr)
            }
        },
{
    reveal_strlit("asc");
    reveal_strlit("desc");
    assert("asc"@.len() != "desc"@.len());
    if let DocV::Dict { keys, vals } = d {
        let m = Fields { keys, vals };
        fields_are_found_by_name(m, "expr"@);
        fields_are_found_by_name(m, "dir"@);
        strangers_are_refused(m, "sort key"@, seq!["expr"@, "dir"@]);
        if sort_key_of(d, at) is Ok {
            let x = field(m, "expr"@)->Some_0;
            assert(says(m, "expr"@, x));
        }
    }
}

/// A limit says how many rows there are to be and how many are passed over, by numbers
/// that are not negative: without the one there is no end, and without the other none is
/// passed over.
pub proof fn limits_say_their_numbers(m: Fields)
    ensures
        limit_of(m) is Ok <==> {
            &&& holds_only(m, seq!["limit"@, "offset"@])
            &&& lacks(m, "limit"@) || exists|n: i64|
                n >= 0 && #[trigger] says(m, "limit"@, DocV::Int(n))
            &&& lacks(m, "offset"@) || exists|n: i64|
                n >= 0 && #[trigger] says(m, "offset"@, DocV::Int(n))
        },
        limit_of(m) matches Ok(s) ==> (s matches StageV::Limit { limit, offset } && (match limit {
            Some(n) => says(m, "limit"@, DocV::Int(n as i64)) && n <= i64::MAX,
            None => lacks(m, "limit"@),
        }) && (if lacks(m, "offset"@) {
            offset == 0
        } else {
            offset <= i64::MAX && says(m, "offset"@, DocV::Int(offset as i64))
        })),
{
    fields_are_found_by_name(m, "limit"@);
    fields_are_found_by_name(m, "offset"@);
    strangers_are_refused(m, "limit stage"@, seq!["limit"@, "offset"@]);
    if let Some(DocV::Int(n)) = field(m, "limit"@) {
        assert(says(m, "limit"@, DocV::Int(n)));
    }
    if let Some(DocV::Int(n)) = field(m, "offset"@) {
        assert(says(m, "offset"@, DocV::Int(n)));
    }
}

/// Rows are selected by a predicate or by the word that all are meant, which has to be
/// true, and never by both; where neither is there, nothing selects them.
pub proof fn rows_are_selected_by_one_thing(m: Fields, node: Seq<char>)
    ensures
        match selector_of(m, node) {
            Ok(None) => lacks(m, "where"@) && lacks(m, "all"@),
            Ok(Some(SelectorV::All)) => lacks(m, "where"@) && says(m, "all"@, DocV::Bool(true)),
            Ok(Some(SelectorV::Where(x))) => lacks(m, "all"@) && exists|d: DocV| #[trigger]
                says(m, "where"@, d) && expr_of(d) == Ok::<ExprV, ProtoErrorV>(x),
            Err(_) => {
                ||| !lacks(m, "where"@) && !lacks(m, "all"@)
                ||| !lacks(m, "all"@) && !says(m, "all"@, DocV::Bool(true))
                ||| exists|d: DocV| #[trigger] says(m, "where"@, d) && expr_of(d) is Err
            },
        },
{
    fields_are_found_by_name(m, "where"@);
    fields_are_found_by_name(m, "all"@);
    if let Some(d) = field(m, "where"@) {
        assert(says(m, "where"@, d));
    }
    if let Some(d) = field(m, "all"@) {
        assert(says(m, "all"@, d));
    }
}

/// An accepted update says its table, its rows and what it sets, and is unconditional only
/// where it says so.
pub proof fn updates_say_their_fields(m: Fields)
    ensures
        update_of(m) matches Ok(u) ==> {
            &&& holds_only(
                m,
                seq!["op"@, "v"@, "table"@, "where"@, "all"@, "set"@, "unconditional"@],
            )
            &&& says(m, "table"@, DocV::Str(u.table))
            &&& selector_of(m, "update"@) == Ok::<Option<SelectorV>, ProtoErrorV>(u.selector)
            &&& u.unconditional <==> says(m, "unconditional"@, DocV::Bool(true))
            &&& exists|d: DocV| #[trigger]
                says(m, "set"@, d) && d is Dict && named_exprs_of(
                    Fields { keys: d->keys, vals: d->vals },
                ) == Ok::<Seq<(Seq<char>, ExprV)>, ProtoErrorV>(u.set)
        },
{
    fields_are_found_by_name(m, "table"@);
    fields_are_found_by_name(m, "set"@);
    fields_are_found_by_name(m, "unconditional"@);
    strangers_are_refused(
        m,
        "update"@,
        seq!["op"@, "v"@, "table"@, "where"@, "all"@, "set"@, "unconditional"@],
    );
    if update_of(m) is Ok {
        let d = field(m, "set"@)->Some_0;
        assert(says(m, "set"@, d));
    }
}

/// An accepted delete says its table and its rows.
pub proof fn deletes_say_their_fields(m: Fields)
    ensures
        delete_of(m) matches Ok(x) ==> {
            &&& holds_only(m, seq!["op"@, "v"@, "table"@, "where"@, "all"@])
            &&& says(m, "table"@, DocV::Str(x.table))
            &&& selector_of(m, "delete"@) == Ok::<Option<SelectorV>, ProtoErrorV>(x.selector)
        },
{
    fields_are_found_by_name(m, "table"@);
    strangers_are_refused(m, "delete"@, seq!["op"@, "v"@, "table"@, "where"@, "all"@]);
}

/// Values of a row are what their documents are; anything that holds others is kept as the
/// bytes of its document.
pub proof fn row_values_are_their_documents(d: DocV)
    ensures
        match row_value_of(d) {
            ValueV::Null => d is Null,
            ValueV::Bool(b) => d == DocV::Bool(b),
            ValueV::I64(n) => d == DocV::Int(n),
            ValueV::F64(f) => d == DocV::Float(f),
            ValueV::Text(s) => d == DocV::Str(s),
            ValueV::Blob(b) => d == DocV::Bin(b),
            ValueV::Json(b) => (d is Array || d is Dict) && b == super::encode::form(d),
            _ => false,
        },
{
}

/// An accepted insert says its table, and rows whose cells are its fields, in order.
pub proof fn inserts_say_their_rows(m: Fields)
    ensures
        insert_of(m) matches Ok(x) ==> {
            &&& holds_only(m, seq!["op"@, "v"@, "table"@, "rows"@])
            &&& says(m, "table"@, DocV::Str(x.table))
            &&& exists|items: Seq<DocV>| #[trigger]
                says(m, "rows"@, DocV::Array(items)) && items.len() == x.rows.len() && forall|
                    i: int,
                |
                    0 <= i < items.len() ==> is_row(#[trigger] items[i], x.rows[i])
        },
{
    fields_are_found_by_name(m, "table"@);
    fields_are_found_by_name(m, "rows"@);
    strangers_are_refused(m, "insert"@, seq!["op"@, "v"@, "table"@, "rows"@]);
    if let Ok(x) = insert_of(m) {
        let items = field(m, "rows"@)->Some_0->Array_0;
        assert(says(m, "rows"@, DocV::Array(items)));
        let each = Seq::new(items.len(), |i: int| row_of(items[i]));
        lemma_collected(each);
        assert forall|i: int| 0 <= i < items.len() implies is_row(
            #[trigger] items[i],
            x.rows[i],
        ) by {
            assert(each[i] == Ok::<Seq<(Seq<char>, ValueV)>, ProtoErrorV>(x.rows[i]));
        }
    }
}

/// Whether a row is what a document of cells says: one cell for each field, in order.
pub open spec fn is_row(d: DocV, row: Seq<(Seq<char>, ValueV)>) -> bool {
    &&& d is Dict
    &&& row.len() == d->vals.len()
    &&& forall|c: int|
        0 <= c < row.len() ==> (#[trigger] row[c]).0 == d->keys[c] && row[c].1 == row_value_of(
            d->vals[c],
        )
}

/// Where all of some results succeeded, and only there, they are collected.
pub proof fn lemma_collected<T, E>(rs: Seq<core::result::Result<T, E>>)
    ensures
        crate::views::collect(rs) matches Ok(xs) ==> xs.len() == rs.len() && forall|i: int|
            0 <= i < rs.len() ==> #[trigger] rs[i] == Ok::<T, E>(xs[i]),
    decreases rs.len(),
{
    if rs.len() > 0 {
        let rest = rs.drop_first();
        lemma_collected(rest);
        if let Ok(xs) = crate::views::collect(rs) {
            assert forall|i: int| 0 <= i < rs.len() implies #[trigger] rs[i] == Ok::<T, E>(
                xs[i],
            ) by {
                if i > 0 {
                    assert(rs[i] == rest[i - 1]);
                }
            }
        }
    }
}

/// An accepted transaction is one of writes alone, in the order in which they are said.
pub proof fn transactions_are_made_of_writes(m: Fields)
    ensures
        transaction_of(m) matches Ok(r) ==> {
            &&& holds_only(m, seq!["op"@, "v"@, "ops"@])
            &&& r is Transaction
            &&& exists|items: Seq<DocV>| #[trigger]
                says(m, "ops"@, DocV::Array(items)) && items.len() == r->Transaction_0.len()
                    && forall|i: int|
                    0 <= i < items.len() ==> op_of(#[trigger] items[i]) == Ok::<
                        RequestV,
                        ProtoErrorV,
                    >(r->Transaction_0[i])
            &&& forall|i: int|
                0 <= i < r->Transaction_0.len() ==> {
                    let w = #[trigger] r->Transaction_0[i];
                    w is Insert || w is Update || w is Delete
                }
        },
{
    fields_are_found_by_name(m, "ops"@);
    strangers_are_refused(m, "transaction"@, seq!["op"@, "v"@, "ops"@]);
    if let Ok(r) = transaction_of(m) {
        let items = field(m, "ops"@)->Some_0->Array_0;
        assert(says(m, "ops"@, DocV::Array(items)));
        let each = Seq::new(items.len(), |i: int| op_of(items[i]));
        lemma_collected(each);
        assert forall|i: int| 0 <= i < items.len() implies op_of(#[trigger] items[i]) == Ok::<
            RequestV,
            ProtoErrorV,
        >(r->Transaction_0[i]) by {
            assert(each[i] == Ok::<RequestV, ProtoErrorV>(r->Transaction_0[i]));
        }
        assert forall|i: int| 0 <= i < r->Transaction_0.len() implies ({
            let w = #[trigger] r->Transaction_0[i];
            w is Insert || w is Update || w is Delete
        }) by {
            assert(op_of(items[i]) == Ok::<RequestV, ProtoErrorV>(r->Transaction_0[i]));
        }
    }
}

/// A request is refused for its version exactly where it says one that is not this
/// protocol's.
pub proof fn versions_have_to_match(m: Fields)
    ensures
        version_flaw(m) is None <==> lacks(m, "v"@) || says(
            m,
            "v"@,
            DocV::Int(super::request::PROTOCOL_VERSION),
        ),
        forall|n: i64| #[trigger]
            says(m, "v"@, DocV::Int(n)) && n != super::request::PROTOCOL_VERSION ==> version_flaw(m)
                == Some(ProtoErrorV::UnsupportedVersion { found: n as int }),
{
    fields_are_found_by_name(m, "v"@);
    if let Some(d) = field(m, "v"@) {
        assert(says(m, "v"@, d));
    }
}

/// A select is a pipeline exactly where it says one, and a pipeline says nothing beside it;
/// no select says anything that a select does not know.
pub proof fn selects_take_one_form(m: Fields)
    ensures
        select_of(m) matches Ok(s) ==> {
            &&& s is Pipeline <==> !lacks(m, "pipeline"@)
            &&& s is Pipeline ==> holds_only(m, seq!["op"@, "v"@, "pipeline"@])
            &&& s is Clause ==> holds_only(
                m,
                seq![
                    "op"@,
                    "v"@,
                    "from"@,
                    "joins"@,
                    "where"@,
                    "group_by"@,
                    "having"@,
                    "order_by"@,
                    "select"@,
                    "distinct"@,
                    "limit"@,
                    "offset"@,
                    "cursor"@,
                    "pipeline"@,
                ],
            )
        },
{
    fields_are_found_by_name(m, "pipeline"@);
    strangers_are_refused(m, "select"@, seq!["op"@, "v"@, "pipeline"@]);
    strangers_are_refused(m, "select"@, super::select::clause_keys());
}

/// An accepted clause select says each of its parts, and lacks what it has none of.
pub proof fn clause_selects_say_their_fields(m: Fields)
    ensures
        clause_of(m) matches Ok(c) ==> {
            &&& c.from is Some && !lacks(m, "from"@)
            &&& c.where_ is None <==> lacks(m, "where"@)
            &&& c.having is None <==> lacks(m, "having"@)
            &&& c.select is None <==> lacks(m, "select"@)
            &&& c.distinct <==> says(m, "distinct"@, DocV::Bool(true))
            &&& c.limit is None <==> lacks(m, "limit"@)
            &&& c.limit matches Some(n) ==> n <= i64::MAX && says(
                m,
                "limit"@,
                DocV::Int(n as i64),
            )
            &&& c.offset is None <==> lacks(m, "offset"@)
            &&& c.offset matches Some(n) ==> n <= i64::MAX && says(
                m,
                "offset"@,
                DocV::Int(n as i64),
            )
            &&& c.cursor is None <==> lacks(m, "cursor"@)
            &&& c.cursor matches Some(t) ==> says(m, "cursor"@, DocV::Bin(t))
            &&& lacks(m, "joins"@) ==> c.joins.len() == 0
            &&& lacks(m, "group_by"@) ==> c.group_by.len() == 0
            &&& lacks(m, "order_by"@) ==> c.order_by.len() == 0
            &&& forall|d: DocV| #[trigger]
                says(m, "where"@, d) ==> expr_of(d) == Ok::<ExprV, ProtoErrorV>(c.where_->Some_0)
            &&& forall|d: DocV| #[trigger]
                says(m, "having"@, d) ==> expr_of(d) == Ok::<ExprV, ProtoErrorV>(c.having->Some_0)
        },
{
    fields_are_found_by_name(m, "from"@);
    fields_are_found_by_name(m, "where"@);
    fields_are_found_by_name(m, "having"@);
    fields_are_found_by_name(m, "select"@);
    fields_are_found_by_name(m, "distinct"@);
    fields_are_found_by_name(m, "limit"@);
    fields_are_found_by_name(m, "offset"@);
    fields_are_found_by_name(m, "cursor"@);
    fields_are_found_by_name(m, "joins"@);
    fields_are_found_by_name(m, "group_by"@);
    fields_are_found_by_name(m, "order_by"@);
}

/// A list of operands is accepted exactly where it is an array that is not empty, of
/// expressions; a pair exactly where it is an array of two.
pub proof fn operands_come_in_their_number(body: DocV, name: Seq<char>)
    ensures
        list_of(body, name) matches Ok(xs) ==> xs.len() > 0 && (body matches DocV::Array(items)
            && items.len() == xs.len() && forall|i: int|
            0 <= i < items.len() ==> expr_of(#[trigger] items[i]) == Ok::<ExprV, ProtoErrorV>(
                xs[i],
            )),
        pair_of(body, name) matches Ok(p) ==> (body matches DocV::Array(items) && items.len() == 2
            && expr_of(items[0]) == Ok::<ExprV, ProtoErrorV>(p.0) && expr_of(items[1]) == Ok::<
            ExprV,
            ProtoErrorV,
        >(p.1)),
        body matches DocV::Array(items) ==> (items.len() == 0 ==> list_of(body, name) is Err)
            && (items.len() != 2 ==> pair_of(body, name) is Err),
        !(body is Array) ==> list_of(body, name) is Err && pair_of(body, name) is Err,
{
    if let DocV::Array(items) = body {
        if list_of(body, name) is Ok {
            super::grammar::lemma_exprs_of(items);
            let each = Seq::new(items.len(), |i: int| expr_of(items[i]));
            lemma_collected(each);
            let xs = list_of(body, name)->Ok_0;
            assert forall|i: int| 0 <= i < items.len() implies expr_of(#[trigger] items[i]) == Ok::<
                ExprV,
                ProtoErrorV,
            >(xs[i]) by {
                assert(each[i] == Ok::<ExprV, ProtoErrorV>(xs[i]));
            }
        }
    }
}

/// An operator node is named after what it is, and its operands are what stands in it, in
/// their order: no other name stands for it.
pub proof fn nodes_are_named_after_what_they_are(name: Seq<char>, body: DocV)
    ensures
        node_of(name, body) matches Ok(x) ==> match x {
            ExprV::Column { table, column } => name == "col"@ && match table {
                None => body == DocV::Str(column),
                Some(t) => body == DocV::Array(seq![DocV::Str(t), DocV::Str(column)]),
            },
            ExprV::Cmp { op, lhs, rhs } => name == op.named() && pair_of(body, name) == Ok::<
                (ExprV, ExprV),
                ProtoErrorV,
            >((*lhs, *rhs)),
            ExprV::Arith { op, lhs, rhs } => name == op.named() && pair_of(body, name) == Ok::<
                (ExprV, ExprV),
                ProtoErrorV,
            >((*lhs, *rhs)),
            ExprV::NullIf { lhs, rhs } => name == "nullif"@ && pair_of(body, name) == Ok::<
                (ExprV, ExprV),
                ProtoErrorV,
            >((*lhs, *rhs)),
            ExprV::And(xs) => name == "and"@ && list_of(body, name) == Ok::<
                Seq<ExprV>,
                ProtoErrorV,
            >(xs),
            ExprV::Or(xs) => name == "or"@ && list_of(body, name) == Ok::<Seq<ExprV>, ProtoErrorV>(
                xs,
            ),
            ExprV::Coalesce(xs) => name == "coalesce"@ && list_of(body, name) == Ok::<
                Seq<ExprV>,
                ProtoErrorV,
            >(xs),
            ExprV::Not(x) => name == "not"@ && expr_of(body) == Ok::<ExprV, ProtoErrorV>(*x),
            ExprV::IsNull(x) => name == "is_null"@ && expr_of(body) == Ok::<ExprV, ProtoErrorV>(*x),
            ExprV::IsNotNull(x) => name == "is_not_null"@ && expr_of(body) == Ok::<
                ExprV,
                ProtoErrorV,
            >(*x),
            ExprV::Agg { func, arg } => name == func.named() && expr_of(body) == Ok::<
                ExprV,
                ProtoErrorV,
            >(*arg),
            ExprV::Between { expr, lo, hi } => name == "between"@ && body is Array
                && body->Array_0.len() == 3 && expr_of(body->Array_0[0]) == Ok::<ExprV, ProtoErrorV>(
                *expr,
            ) && expr_of(body->Array_0[1]) == Ok::<ExprV, ProtoErrorV>(*lo) && expr_of(
                body->Array_0[2],
            ) == Ok::<ExprV, ProtoErrorV>(*hi),
            ExprV::InList { expr, list } => name == "in"@ && body is Array && body->Array_0.len()
                == 2 && expr_of(body->Array_0[0]) == Ok::<ExprV, ProtoErrorV>(*expr) && list_of(
                body->Array_0[1],
                name,
            ) == Ok::<Seq<ExprV>, ProtoErrorV>(list),
            ExprV::Like { expr, pattern, case_insensitive } => (if case_insensitive {
                name == "ilike"@
            } else {
                name == "like"@
            }) && body is Array && body->Array_0.len() == 2 && expr_of(body->Array_0[0]) == Ok::<
                ExprV,
                ProtoErrorV,
            >(*expr) && body->Array_0[1] == DocV::Str(pattern),
            ExprV::Cast { expr, to } => name == "cast"@ && body is Array && body->Array_0.len() == 2
                && expr_of(body->Array_0[0]) == Ok::<ExprV, ProtoErrorV>(*expr) && body->Array_0[1]
                == DocV::Str(to.name()),
            ExprV::Literal(_) => false,
        },
{
    if name == "col"@ {
        if let DocV::Array(items) = body {
            if items.len() == 2 && node_of(name, body) is Ok {
                assert(items =~= seq![items[0], items[1]]);
            }
        }
    }
    if name == "cast"@ {
        if let DocV::Array(items) = body {
            if let DocV::Str(s) = items[1] {
                if let Some(to) = crate::value::kind_named(s) {
                    crate::value::kinds_are_found_by_name(to, s);
                }
            }
        }
    }
}

/// A stage is a limit where it says one or an offset, and otherwise has one field, named
/// after what the stage is.
pub proof fn stages_are_named_after_what_they_are(d: DocV)
    ensures
        stage_of(d) matches Ok(s) ==> {
            &&& d is Dict
            &&& {
                let m = Fields { keys: d->keys, vals: d->vals };
                &&& s is Limit <==> !lacks(m, "limit"@) || !lacks(m, "offset"@)
                &&& s is Limit ==> limit_of(m) == Ok::<StageV, ProtoErrorV>(s)
                &&& !(s is Limit) ==> m.keys.len() == 1 && m.vals.len() == 1
                &&& s matches StageV::Scan(t) ==> m.keys[0] == "scan"@ && table_ref_of(
                    m.vals[0],
                    "scan"@,
                ) == Ok::<super::ast::TableRefV, ProtoErrorV>(t)
                &&& s matches StageV::Match(x) ==> m.keys[0] == "match"@ && expr_of(m.vals[0])
                    == Ok::<ExprV, ProtoErrorV>(x)
                &&& s matches StageV::Join(j) ==> m.keys[0] == "join"@ && join_spec_of(m.vals[0])
                    == Ok::<super::ast::JoinSpecV, ProtoErrorV>(j)
                &&& s is Group ==> m.keys[0] == "group"@
                &&& s is Sort ==> m.keys[0] == "sort"@
                &&& s is Project ==> m.keys[0] == "project"@
                &&& s matches StageV::Distinct(b) ==> m.keys[0] == "distinct"@ && m.vals[0]
                    == DocV::Bool(b)
                &&& s matches StageV::Cursor(t) ==> m.keys[0] == "cursor"@ && m.vals[0]
                    == DocV::Bin(t)
            }
        },
{
    if let DocV::Dict { keys, vals } = d {
        let m = Fields { keys, vals };
        fields_are_found_by_name(m, "limit"@);
        fields_are_found_by_name(m, "offset"@);
    }
}

/// An accepted explain is of a select, which is what its query says.
pub proof fn explains_are_of_selects(m: Fields)
    ensures
        explain_of(m) matches Ok(r) ==> {
            &&& holds_only(m, seq!["op"@, "v"@, "query"@])
            &&& r is Explain
            &&& exists|d: DocV| #[trigger]
                says(m, "query"@, d) && d is Dict && says(
                    Fields { keys: d->keys, vals: d->vals },
                    "op"@,
                    DocV::Str("select"@),
                ) && select_of(Fields { keys: d->keys, vals: d->vals }) == Ok::<
                    SelectV,
                    ProtoErrorV,
                >(r->Explain_0)
        },
{
    fields_are_found_by_name(m, "query"@);
    strangers_are_refused(m, "explain"@, seq!["op"@, "v"@, "query"@]);
    if explain_of(m) is Ok {
        let d = field(m, "query"@)->Some_0;
        assert(says(m, "query"@, d));
        fields_are_found_by_name(Fields { keys: d->keys, vals: d->vals }, "op"@);
    }
}

/// An accepted request is what its operation says, and no other operation is known.
pub proof fn requests_are_told_by_their_operation(d: DocV)
    ensures
        request_of(d) matches Ok(r) ==> {
            &&& d is Dict
            &&& {
                let m = Fields { keys: d->keys, vals: d->vals };
                &&& version_flaw(m) is None
                &&& match r {
                    RequestV::Select(s) => says(m, "op"@, DocV::Str("select"@)) && select_of(m)
                        == Ok::<SelectV, ProtoErrorV>(s),
                    RequestV::Insert(x) => says(m, "op"@, DocV::Str("insert"@)) && insert_of(m)
                        == Ok::<InsertV, ProtoErrorV>(x),
                    RequestV::Update(x) => says(m, "op"@, DocV::Str("update"@)) && update_of(m)
                        == Ok::<UpdateV, ProtoErrorV>(x),
                    RequestV::Delete(x) => says(m, "op"@, DocV::Str("delete"@)) && delete_of(m)
                        == Ok::<DeleteV, ProtoErrorV>(x),
                    RequestV::Transaction(_) => says(m, "op"@, DocV::Str("transaction"@))
                        && transaction_of(m) == Ok::<RequestV, ProtoErrorV>(r),
                    RequestV::Explain(_) => says(m, "op"@, DocV::Str("explain"@)) && explain_of(m)
                        == Ok::<RequestV, ProtoErrorV>(r),
                }
            }
        },
{
    if let DocV::Dict { keys, vals } = d {
        let m = Fields { keys, vals };
        fields_are_found_by_name(m, "op"@);
        transactions_are_made_of_writes(m);
        explains_are_of_selects(m);
    }
}

} // verus!
