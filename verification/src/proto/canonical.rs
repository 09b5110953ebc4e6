//! There is one document for one expression: what is accepted is what it would be sent as.

use vstd::prelude::*;
use super::ast::{ExprV, JoinSpecV, ProjectionV, SortKeyV, StageV};
use super::error::ProtoErrorV;
use super::grammar::{expr_of, lemma_exprs_of, Fields};
use super::render::{expr_doc, exprs_doc, lemma_exprs_doc, projection_doc};
use super::request::{
    group_of, join_spec_of, joins_of, named_exprs_of, projection_of, projections_of,
    single_stage_of, sort_key_of, sort_keys_of, stage_of, stages_of,
};
use super::strict::{
    fields_are_found_by_name, holds_only, lacks, lemma_collected,
    nodes_are_named_after_what_they_are, operands_come_in_their_number, says, strangers_are_refused,
};
use super::wire::DocV;

verus! {

proof fn lemma_listed(items: Seq<DocV>, xs: Seq<ExprV>)
    requires
        items.len() == xs.len(),
        forall|i: int| 0 <= i < items.len() ==> expr_doc(xs[i]) == #[trigger] items[i],
    ensures
        exprs_doc(xs) == items,
{
    lemma_exprs_doc(xs);
    assert forall|i: int| 0 <= i < items.len() implies exprs_doc(xs)[i] == items[i] by {
        assert(exprs_doc(xs)[i] == expr_doc(xs[i]));
    }
    assert(exprs_doc(xs) =~= items);
}

/// An accepted expression is sent as the very document that it was read from.
pub proof fn accepted_expressions_are_their_documents(d: DocV)
    ensures
        expr_of(d) matches Ok(e) ==> expr_doc(e) == d,
    decreases d,
{
    if let DocV::Dict { keys, vals } = d {
        if let Ok(e) = expr_of(d) {
            let name = keys[0];
            let body = vals[0];
            assert(keys =~= seq![name]);
            assert(vals =~= seq![body]);
            nodes_are_named_after_what_they_are(name, body);
            operands_come_in_their_number(body, name);
            accepted_expressions_are_their_documents(body);
            if let DocV::Array(items) = body {
                assert forall|i: int| 0 <= i < items.len() implies (expr_of(#[trigger] items[i])
                    matches Ok(x) ==> expr_doc(x) == items[i]) by {
                    accepted_expressions_are_their_documents(items[i]);
                }
                if items.len() == 2 {
                    assert(items =~= seq![items[0], items[1]]);
                } else if items.len() == 3 {
                    assert(items =~= seq![items[0], items[1], items[2]]);
                }
            }
            match e {
                ExprV::And(xs) => {
                    lemma_listed(body->Array_0, xs);
                },
                ExprV::Or(xs) => {
                    lemma_listed(body->Array_0, xs);
                },
                ExprV::Coalesce(xs) => {
                    lemma_listed(body->Array_0, xs);
                },
                ExprV::InList { expr, list } => {
                    let inner = body->Array_0[1];
                    operands_come_in_their_number(inner, name);
                    let items = inner->Array_0;
                    assert forall|i: int| 0 <= i < items.len() implies expr_doc(list[i])
                        == #[trigger] items[i] by {
                        accepted_expressions_are_their_documents(items[i]);
                    }
                    lemma_listed(items, list);
                },
                _ => {},
            }
        }
    }
}

/// An accepted projection is sent as the very document that it was read from.
pub proof fn accepted_projections_are_their_documents(d: DocV)
    ensures
        projection_of(d) matches Ok(p) ==> projection_doc(p) == d,
{
    accepted_expressions_are_their_documents(d);
    if let DocV::Dict { keys, vals } = d {
        if keys.len() == 1 && vals.len() == 1 && keys[0] == "as"@ {
            assert(keys =~= seq!["as"@]);
            assert(vals =~= seq![vals[0]]);
            if let DocV::Array(parts) = vals[0] {
                if parts.len() == 2 {
                    assert(parts =~= seq![parts[0], parts[1]]);
                    accepted_expressions_are_their_documents(parts[1]);
                }
            }
        }
    }
}

/// Named expressions are the fields of their map, in their order, each under its name.
pub proof fn named_expressions_are_their_fields(m: Fields)
    ensures
        named_exprs_of(m) matches Ok(xs) ==> xs.len() == m.vals.len() && forall|i: int|
            0 <= i < m.vals.len() ==> (#[trigger] xs[i]).0 == m.keys[i] && expr_doc(xs[i].1)
                == m.vals[i],
{
    if let Ok(xs) = named_exprs_of(m) {
        let each = Seq::new(
            m.vals.len(),
            |i: int|
                match expr_of(m.vals[i]) {
                    Ok(x) => Ok((m.keys[i], x)),
                    Err(e) => Err(e),
                },
        );
        lemma_collected::<(Seq<char>, ExprV), ProtoErrorV>(each);
        assert forall|i: int| 0 <= i < m.vals.len() implies (#[trigger] xs[i]).0 == m.keys[i]
            && expr_doc(xs[i].1) == m.vals[i] by {
            assert(each[i] == Ok::<(Seq<char>, ExprV), ProtoErrorV>(xs[i]));
            accepted_expressions_are_their_documents(m.vals[i]);
        }
    }
}

/// Lists are read one by one: what is accepted of a list is what each of its items is, in
/// their order, and as many.
pub proof fn lists_are_read_one_by_one(items: Seq<DocV>, node: Seq<char>, at: Seq<char>)
    ensures
        projections_of(items) matches Ok(xs) ==> xs.len() == items.len() && forall|i: int|
            0 <= i < items.len() ==> projection_doc(xs[i]) == #[trigger] items[i],
        joins_of(items) matches Ok(xs) ==> xs.len() == items.len() && forall|i: int|
            0 <= i < items.len() ==> join_spec_of(#[trigger] items[i]) == Ok::<
                JoinSpecV,
                ProtoErrorV,
            >(xs[i]),
        stages_of(items) matches Ok(xs) ==> xs.len() == items.len() && forall|i: int|
            0 <= i < items.len() ==> stage_of(#[trigger] items[i]) == Ok::<StageV, ProtoErrorV>(
                xs[i],
            ),
        sort_keys_of(DocV::Array(items), node, at) matches Ok(xs) ==> xs.len() == items.len()
            && forall|i: int|
            0 <= i < items.len() ==> sort_key_of(#[trigger] items[i], at) == Ok::<
                SortKeyV,
                ProtoErrorV,
            >(xs[i]),
{
    let ps = Seq::new(items.len(), |i: int| projection_of(items[i]));
    lemma_collected(ps);
    if let Ok(xs) = projections_of(items) {
        assert forall|i: int| 0 <= i < items.len() implies projection_doc(xs[i])
            == #[trigger] items[i] by {
            assert(ps[i] == Ok::<ProjectionV, ProtoErrorV>(xs[i]));
            accepted_projections_are_their_documents(items[i]);
        }
    }
    let js = Seq::new(items.len(), |i: int| join_spec_of(items[i]));
    lemma_collected(js);
    if let Ok(xs) = joins_of(items) {
        assert forall|i: int| 0 <= i < items.len() implies join_spec_of(#[trigger] items[i])
            == Ok::<JoinSpecV, ProtoErrorV>(xs[i]) by {
            assert(js[i] == Ok::<JoinSpecV, ProtoErrorV>(xs[i]));
        }
    }
    let ss = Seq::new(items.len(), |i: int| stage_of(items[i]));
    lemma_collected(ss);
    if let Ok(xs) = stages_of(items) {
        assert forall|i: int| 0 <= i < items.len() implies stage_of(#[trigger] items[i]) == Ok::<
            StageV,
            ProtoErrorV,
        >(xs[i]) by {
            assert(ss[i] == Ok::<StageV, ProtoErrorV>(xs[i]));
        }
    }
    let ks = Seq::new(items.len(), |i: int| sort_key_of(items[i], at));
    lemma_collected(ks);
    if let Ok(xs) = sort_keys_of(DocV::Array(items), node, at) {
        assert forall|i: int| 0 <= i < items.len() implies sort_key_of(#[trigger] items[i], at)
            == Ok::<SortKeyV, ProtoErrorV>(xs[i]) by {
            assert(ks[i] == Ok::<SortKeyV, ProtoErrorV>(xs[i]));
        }
    }
}

/// A stage that groups says by what, and what it aggregates under which name; a field that
/// is missing says nothing.
pub proof fn groups_say_their_fields(body: DocV)
    ensures
        group_of(body) matches Ok(s) ==> {
            &&& body is Dict
            &&& s is Group
            &&& {
                let m = Fields { keys: body->keys, vals: body->vals };
                &&& holds_only(m, seq!["by"@, "agg"@])
                &&& lacks(m, "by"@) ==> s->by.len() == 0
                &&& forall|d: DocV| #[trigger]
                    says(m, "by"@, d) ==> d == DocV::Array(exprs_doc(s->by))
                &&& lacks(m, "agg"@) ==> s->aggs.len() == 0
                &&& forall|d: DocV| #[trigger]
                    says(m, "agg"@, d) ==> d is Dict && named_exprs_of(
                        Fields { keys: d->keys, vals: d->vals },
                    ) == Ok::<Seq<(Seq<char>, ExprV)>, ProtoErrorV>(s->aggs)
            }
        },
{
    if let DocV::Dict { keys, vals } = body {
        let m = Fields { keys, vals };
        fields_are_found_by_name(m, "by"@);
        fields_are_found_by_name(m, "agg"@);
        strangers_are_refused(m, "group"@, seq!["by"@, "agg"@]);
        if let Ok(s) = group_of(body) {
            assert forall|d: DocV| #[trigger] says(m, "by"@, d) implies d == DocV::Array(
                exprs_doc(s->by),
            ) by {
                let items = d->Array_0;
                lemma_exprs_of(items);
                let each = Seq::new(items.len(), |i: int| expr_of(items[i]));
                lemma_collected(each);
                assert forall|i: int| 0 <= i < items.len() implies expr_doc(s->by[i])
                    == #[trigger] items[i] by {
                    assert(each[i] == Ok::<ExprV, ProtoErrorV>(s->by[i]));
                    accepted_expressions_are_their_documents(items[i]);
                }
                lemma_listed(items, s->by);
            }
        }
    }
}

/// A stage that groups, sorts or projects is what its one field says.
pub proof fn stages_hold_what_they_name(name: Seq<char>, body: DocV)
    ensures
        single_stage_of(name, body) matches Ok(s) ==> {
            &&& s is Group ==> group_of(body) == Ok::<StageV, ProtoErrorV>(s)
            &&& s matches StageV::Sort(keys) ==> body is Array && sort_keys_of(
                body,
                "sort"@,
                "sort"@,
            ) == Ok::<Seq<SortKeyV>, ProtoErrorV>(keys)
            &&& s matches StageV::Project(list) ==> body is Array && projections_of(
                body->Array_0,
            ) == Ok::<Seq<ProjectionV>, ProtoErrorV>(list)
        },
{
}

} // verus!
