//! That expressions survive the wire: reading a document undoes rendering it.

use vstd::prelude::*;
use crate::value::{kinds_are_found_by_name, ValueV};
use crate::views::lemma_collect_ok;
use super::ast::{AggFunc, ArithOp, CmpOp, ExprV};
use super::error::ProtoErrorV;
use super::grammar::{
    aggregate, arithmetic, between_of, cast_of, comparison, expr_of, exprs_of, in_of, like_of,
    lemma_exprs_of, list_of, node_of, pair_of,
};
use super::render::{expr_doc, exprs_doc, lemma_exprs_doc, single_doc};
use super::wire::DocV;

verus! {

/// What the names of expression nodes are.
proof fn lemma_node_names()
    ensures
        "col"@.len() == 3,
        "col"@[0] == 'c',
        "col"@[1] == 'o',
        "col"@[2] == 'l',
        "eq"@.len() == 2,
        "eq"@[0] == 'e',
        "eq"@[1] == 'q',
        "ne"@.len() == 2,
        "ne"@[0] == 'n',
        "ne"@[1] == 'e',
        "lt"@.len() == 2,
        "lt"@[0] == 'l',
        "lt"@[1] == 't',
        "lte"@.len() == 3,
        "lte"@[0] == 'l',
        "lte"@[1] == 't',
        "lte"@[2] == 'e',
        "gt"@.len() == 2,
        "gt"@[0] == 'g',
        "gt"@[1] == 't',
        "gte"@.len() == 3,
        "gte"@[0] == 'g',
        "gte"@[1] == 't',
        "gte"@[2] == 'e',
        "and"@.len() == 3,
        "and"@[0] == 'a',
        "and"@[1] == 'n',
        "and"@[2] == 'd',
        "or"@.len() == 2,
        "or"@[0] == 'o',
        "or"@[1] == 'r',
        "not"@.len() == 3,
        "not"@[0] == 'n',
        "not"@[1] == 'o',
        "not"@[2] == 't',
        "add"@.len() == 3,
        "add"@[0] == 'a',
        "add"@[1] == 'd',
        "add"@[2] == 'd',
        "sub"@.len() == 3,
        "sub"@[0] == 's',
        "sub"@[1] == 'u',
        "sub"@[2] == 'b',
        "mul"@.len() == 3,
        "mul"@[0] == 'm',
        "mul"@[1] == 'u',
        "mul"@[2] == 'l',
        "div"@.len() == 3,
        "div"@[0] == 'd',
        "div"@[1] == 'i',
        "div"@[2] == 'v',
        "mod"@.len() == 3,
        "mod"@[0] == 'm',
        "mod"@[1] == 'o',
        "mod"@[2] == 'd',
        "is_null"@.len() == 7,
        "is_null"@[0] == 'i',
        "is_null"@[1] == 's',
        "is_null"@[2] == '_',
        "is_not_null"@.len() == 11,
        "is_not_null"@[0] == 'i',
        "is_not_null"@[1] == 's',
        "is_not_null"@[2] == '_',
        "between"@.len() == 7,
        "between"@[0] == 'b',
        "between"@[1] == 'e',
        "between"@[2] == 't',
        "in"@.len() == 2,
        "in"@[0] == 'i',
        "in"@[1] == 'n',
        "like"@.len() == 4,
        "like"@[0] == 'l',
        "like"@[1] == 'i',
        "like"@[2] == 'k',
        "ilike"@.len() == 5,
        "ilike"@[0] == 'i',
        "ilike"@[1] == 'l',
        "ilike"@[2] == 'i',
        "coalesce"@.len() == 8,
        "coalesce"@[0] == 'c',
        "coalesce"@[1] == 'o',
        "coalesce"@[2] == 'a',
        "nullif"@.len() == 6,
        "nullif"@[0] == 'n',
        "nullif"@[1] == 'u',
        "nullif"@[2] == 'l',
        "cast"@.len() == 4,
        "cast"@[0] == 'c',
        "cast"@[1] == 'a',
        "cast"@[2] == 's',
        "count"@.len() == 5,
        "count"@[0] == 'c',
        "count"@[1] == 'o',
        "count"@[2] == 'u',
        "sum"@.len() == 3,
        "sum"@[0] == 's',
        "sum"@[1] == 'u',
        "sum"@[2] == 'm',
        "min"@.len() == 3,
        "min"@[0] == 'm',
        "min"@[1] == 'i',
        "min"@[2] == 'n',
        "max"@.len() == 3,
        "max"@[0] == 'm',
        "max"@[1] == 'a',
        "max"@[2] == 'x',
        "avg"@.len() == 3,
        "avg"@[0] == 'a',
        "avg"@[1] == 'v',
        "avg"@[2] == 'g',
        "as"@.len() == 2,
        "as"@[0] == 'a',
        "as"@[1] == 's',
{
    reveal_strlit("col");
    reveal_strlit("eq");
    reveal_strlit("ne");
    reveal_strlit("lt");
    reveal_strlit("lte");
    reveal_strlit("gt");
    reveal_strlit("gte");
    reveal_strlit("and");
    reveal_strlit("or");
    reveal_strlit("not");
    reveal_strlit("add");
    reveal_strlit("sub");
    reveal_strlit("mul");
    reveal_strlit("div");
    reveal_strlit("mod");
    reveal_strlit("is_null");
    reveal_strlit("is_not_null");
    reveal_strlit("between");
    reveal_strlit("in");
    reveal_strlit("like");
    reveal_strlit("ilike");
    reveal_strlit("coalesce");
    reveal_strlit("nullif");
    reveal_strlit("cast");
    reveal_strlit("count");
    reveal_strlit("sum");
    reveal_strlit("min");
    reveal_strlit("max");
    reveal_strlit("avg");
    reveal_strlit("as");
}

// Expressions.

/// Whether a value is a literal of the grammar: a scalar that the wire has.
pub open spec fn plain(v: ValueV) -> bool {
    match v {
        ValueV::Json(_) => false,
        ValueV::Uuid(_) => false,
        ValueV::Timestamp(_) => false,
        _ => true,
    }
}

/// Whether an expression is one of the grammar: its literals are scalars that
/// the wire has, and its lists are not empty.
pub open spec fn expr_ok(e: ExprV) -> bool
    decreases e,
{
    match e {
        ExprV::Column { .. } => true,
        ExprV::Literal(v) => plain(v),
        ExprV::Cmp { lhs, rhs, .. } => expr_ok(*lhs) && expr_ok(*rhs),
        ExprV::And(list) => list.len() > 0 && forall|i: int|
            0 <= i < list.len() ==> expr_ok(#[trigger] list[i]),
        ExprV::Or(list) => list.len() > 0 && forall|i: int|
            0 <= i < list.len() ==> expr_ok(#[trigger] list[i]),
        ExprV::Not(x) => expr_ok(*x),
        ExprV::Arith { lhs, rhs, .. } => expr_ok(*lhs) && expr_ok(*rhs),
        ExprV::IsNull(x) => expr_ok(*x),
        ExprV::IsNotNull(x) => expr_ok(*x),
        ExprV::Between { expr, lo, hi } => expr_ok(*expr) && expr_ok(*lo) && expr_ok(*hi),
        ExprV::InList { expr, list } => expr_ok(*expr) && list.len() > 0 && forall|i: int|
            0 <= i < list.len() ==> expr_ok(#[trigger] list[i]),
        ExprV::Like { expr, .. } => expr_ok(*expr),
        ExprV::Coalesce(list) => list.len() > 0 && forall|i: int|
            0 <= i < list.len() ==> expr_ok(#[trigger] list[i]),
        ExprV::NullIf { lhs, rhs } => expr_ok(*lhs) && expr_ok(*rhs),
        ExprV::Cast { expr, .. } => expr_ok(*expr),
        ExprV::Agg { arg, .. } => expr_ok(*arg),
    }
}

/// Whether all expressions of a list are of the grammar.
pub open spec fn exprs_ok(list: Seq<ExprV>) -> bool {
    forall|i: int| 0 <= i < list.len() ==> expr_ok(#[trigger] list[i])
}

proof fn lemma_pair_back(a: ExprV, b: ExprV, name: Seq<char>)
    requires
        expr_of(expr_doc(a)) == Ok::<ExprV, ProtoErrorV>(a),
        expr_of(expr_doc(b)) == Ok::<ExprV, ProtoErrorV>(b),
    ensures
        pair_of(DocV::Array(seq![expr_doc(a), expr_doc(b)]), name) == Ok::<
            (ExprV, ExprV),
            ProtoErrorV,
        >((a, b)),
{
    let items = seq![expr_doc(a), expr_doc(b)];
    assert(items[0] == expr_doc(a) && items[1] == expr_doc(b));
}

pub proof fn lemma_list_back(list: Seq<ExprV>)
    requires
        forall|i: int|
            0 <= i < list.len() ==> expr_of(expr_doc(#[trigger] list[i])) == Ok::<
                ExprV,
                ProtoErrorV,
            >(list[i]),
    ensures
        exprs_of(exprs_doc(list)) == Ok::<Seq<ExprV>, ProtoErrorV>(list),
        exprs_doc(list).len() == list.len(),
{
    lemma_exprs_doc(list);
    let xs = exprs_doc(list);
    let rs = Seq::new(xs.len(), |i: int| expr_of(xs[i]));
    assert forall|i: int| 0 <= i < rs.len() implies #[trigger] rs[i] == Ok::<ExprV, ProtoErrorV>(
        list[i],
    ) by {
        assert(xs[i] == expr_doc(list[i]));
    }
    lemma_exprs_of(xs);
    lemma_collect_ok(rs, list);
}

/// The operands of a node read back: it is enough to look at its node.
proof fn lemma_single(name: Seq<char>, body: DocV)
    ensures
        expr_of(single_doc(name, body)) == node_of(name, body),
{
    let keys = seq![name];
    let vals = seq![body];
    assert(keys[0] == name && vals[0] == body);
}

proof fn lemma_cmp_names(op: CmpOp)
    ensures
        comparison(op.named()) == Some(op),
        op.named() != "col"@,
        op.named() != "as"@,
{
    lemma_node_names();
}

proof fn lemma_arith_names(op: ArithOp)
    ensures
        arithmetic(op.named()) == Some(op),
        comparison(op.named()) is None,
        op.named() != "col"@,
        op.named() != "and"@,
        op.named() != "or"@,
        op.named() != "not"@,
        op.named() != "as"@,
{
    lemma_node_names();
}

proof fn lemma_agg_names(f: AggFunc)
    ensures
        aggregate(f.named()) == Some(f),
        comparison(f.named()) is None,
        arithmetic(f.named()) is None,
        f.named() != "col"@,
        f.named() != "and"@,
        f.named() != "or"@,
        f.named() != "not"@,
        f.named() != "is_null"@,
        f.named() != "is_not_null"@,
        f.named() != "between"@,
        f.named() != "in"@,
        f.named() != "like"@,
        f.named() != "ilike"@,
        f.named() != "coalesce"@,
        f.named() != "nullif"@,
        f.named() != "cast"@,
        f.named() != "as"@,
{
    lemma_node_names();
}

// What each node is.

proof fn lemma_node_and(body: DocV)
    ensures
        node_of("and"@, body) == (match list_of(body, "and"@) {
            Err(e) => Err::<ExprV, ProtoErrorV>(e),
            Ok(list) => Ok(ExprV::And(list)),
        }),
{
    lemma_node_names();
}

proof fn lemma_node_or(body: DocV)
    ensures
        node_of("or"@, body) == (match list_of(body, "or"@) {
            Err(e) => Err::<ExprV, ProtoErrorV>(e),
            Ok(list) => Ok(ExprV::Or(list)),
        }),
{
    lemma_node_names();
}

proof fn lemma_node_coalesce(body: DocV)
    ensures
        node_of("coalesce"@, body) == (match list_of(body, "coalesce"@) {
            Err(e) => Err::<ExprV, ProtoErrorV>(e),
            Ok(list) => Ok(ExprV::Coalesce(list)),
        }),
{
    lemma_node_names();
}

proof fn lemma_node_not(body: DocV)
    ensures
        node_of("not"@, body) == (match expr_of(body) {
            Err(e) => Err::<ExprV, ProtoErrorV>(e),
            Ok(x) => Ok(ExprV::Not(Box::new(x))),
        }),
{
    lemma_node_names();
}

proof fn lemma_node_is_null(body: DocV)
    ensures
        node_of("is_null"@, body) == (match expr_of(body) {
            Err(e) => Err::<ExprV, ProtoErrorV>(e),
            Ok(x) => Ok(ExprV::IsNull(Box::new(x))),
        }),
{
    lemma_node_names();
}

proof fn lemma_node_is_not_null(body: DocV)
    ensures
        node_of("is_not_null"@, body) == (match expr_of(body) {
            Err(e) => Err::<ExprV, ProtoErrorV>(e),
            Ok(x) => Ok(ExprV::IsNotNull(Box::new(x))),
        }),
{
    lemma_node_names();
}

proof fn lemma_node_between(body: DocV)
    ensures
        node_of("between"@, body) == between_of(body),
{
    lemma_node_names();
}

proof fn lemma_node_in(body: DocV)
    ensures
        node_of("in"@, body) == in_of(body),
{
    lemma_node_names();
}

proof fn lemma_node_like(body: DocV)
    ensures
        node_of("like"@, body) == like_of(body, false),
{
    lemma_node_names();
}

proof fn lemma_node_ilike(body: DocV)
    ensures
        node_of("ilike"@, body) == like_of(body, true),
{
    lemma_node_names();
}

proof fn lemma_node_cast(body: DocV)
    ensures
        node_of("cast"@, body) == cast_of(body),
{
    lemma_node_names();
}

proof fn lemma_node_nullif(body: DocV)
    ensures
        node_of("nullif"@, body) == (match pair_of(body, "nullif"@) {
            Err(e) => Err::<ExprV, ProtoErrorV>(e),
            Ok((a, b)) => Ok(ExprV::NullIf { lhs: Box::new(a), rhs: Box::new(b) }),
        }),
{
    lemma_node_names();
}

/// An expression reads back from its document.
pub proof fn lemma_expr_back(e: ExprV)
    requires
        expr_ok(e),
    ensures
        expr_of(expr_doc(e)) == Ok::<ExprV, ProtoErrorV>(e),
    decreases e,
{
    match e {
        ExprV::Column { table, column } => {
            lemma_single("col"@, expr_doc(e)->vals[0]);
            if let Some(t) = table {
                let items = seq![DocV::Str(t), DocV::Str(column)];
                assert(items[0] == DocV::Str(t) && items[1] == DocV::Str(column));
            }
        },
        ExprV::Literal(_) => {},
        ExprV::Cmp { op, lhs, rhs } => {
            lemma_expr_back(*lhs);
            lemma_expr_back(*rhs);
            lemma_pair_back(*lhs, *rhs, op.named());
            lemma_cmp_names(op);
            lemma_single(op.named(), DocV::Array(seq![expr_doc(*lhs), expr_doc(*rhs)]));
        },
        ExprV::And(list) => {
            assert forall|i: int| 0 <= i < list.len() implies expr_of(expr_doc(#[trigger] list[i]))
                == Ok::<ExprV, ProtoErrorV>(list[i]) by {
                lemma_expr_back(list[i]);
            }
            lemma_list_back(list);
            
            lemma_single("and"@, DocV::Array(exprs_doc(list)));
            lemma_node_and(DocV::Array(exprs_doc(list)));
        },
        ExprV::Or(list) => {
            assert forall|i: int| 0 <= i < list.len() implies expr_of(expr_doc(#[trigger] list[i]))
                == Ok::<ExprV, ProtoErrorV>(list[i]) by {
                lemma_expr_back(list[i]);
            }
            lemma_list_back(list);
            
            lemma_single("or"@, DocV::Array(exprs_doc(list)));
            lemma_node_or(DocV::Array(exprs_doc(list)));
        },
        ExprV::Not(x) => {
            lemma_expr_back(*x);
            
            lemma_single("not"@, expr_doc(*x));
            lemma_node_not(expr_doc(*x));
        },
        ExprV::Arith { op, lhs, rhs } => {
            lemma_expr_back(*lhs);
            lemma_expr_back(*rhs);
            lemma_pair_back(*lhs, *rhs, op.named());
            lemma_arith_names(op);
            lemma_single(op.named(), DocV::Array(seq![expr_doc(*lhs), expr_doc(*rhs)]));
        },
        ExprV::IsNull(x) => {
            lemma_expr_back(*x);
            
            lemma_single("is_null"@, expr_doc(*x));
            lemma_node_is_null(expr_doc(*x));
        },
        ExprV::IsNotNull(x) => {
            lemma_expr_back(*x);
            
            lemma_single("is_not_null"@, expr_doc(*x));
            lemma_node_is_not_null(expr_doc(*x));
        },
        ExprV::Between { expr, lo, hi } => {
            lemma_expr_back(*expr);
            lemma_expr_back(*lo);
            lemma_expr_back(*hi);
            
            let items = seq![expr_doc(*expr), expr_doc(*lo), expr_doc(*hi)];
            assert(items[0] == expr_doc(*expr) && items[1] == expr_doc(*lo) && items[2] == expr_doc(
                *hi,
            ));
            lemma_single("between"@, DocV::Array(items));
            lemma_node_between(DocV::Array(items));
        },
        ExprV::InList { expr, list } => {
            lemma_expr_back(*expr);
            assert forall|i: int| 0 <= i < list.len() implies expr_of(expr_doc(#[trigger] list[i]))
                == Ok::<ExprV, ProtoErrorV>(list[i]) by {
                lemma_expr_back(list[i]);
            }
            lemma_list_back(list);
            
            let items = seq![expr_doc(*expr), DocV::Array(exprs_doc(list))];
            assert(items[0] == expr_doc(*expr) && items[1] == DocV::Array(exprs_doc(list)));
            lemma_single("in"@, DocV::Array(items));
            lemma_node_in(DocV::Array(items));
        },
        ExprV::Like { expr, pattern, case_insensitive } => {
            lemma_expr_back(*expr);
            let items = seq![expr_doc(*expr), DocV::Str(pattern)];
            lemma_node_like(DocV::Array(items));
            lemma_node_ilike(DocV::Array(items));
            assert(items[0] == expr_doc(*expr) && items[1] == DocV::Str(pattern));
            lemma_single(
                if case_insensitive {
                    "ilike"@
                } else {
                    "like"@
                },
                DocV::Array(items),
            );
        },
        ExprV::Coalesce(list) => {
            assert forall|i: int| 0 <= i < list.len() implies expr_of(expr_doc(#[trigger] list[i]))
                == Ok::<ExprV, ProtoErrorV>(list[i]) by {
                lemma_expr_back(list[i]);
            }
            lemma_list_back(list);
            
            lemma_single("coalesce"@, DocV::Array(exprs_doc(list)));
            lemma_node_coalesce(DocV::Array(exprs_doc(list)));
        },
        ExprV::NullIf { lhs, rhs } => {
            lemma_expr_back(*lhs);
            lemma_expr_back(*rhs);
            lemma_pair_back(*lhs, *rhs, "nullif"@);
            
            lemma_single("nullif"@, DocV::Array(seq![expr_doc(*lhs), expr_doc(*rhs)]));
            lemma_node_nullif(DocV::Array(seq![expr_doc(*lhs), expr_doc(*rhs)]));
        },
        ExprV::Cast { expr, to } => {
            lemma_expr_back(*expr);
            
            kinds_are_found_by_name(to, to.name());
            let items = seq![expr_doc(*expr), DocV::Str(to.name())];
            assert(items[0] == expr_doc(*expr) && items[1] == DocV::Str(to.name()));
            lemma_single("cast"@, DocV::Array(items));
            lemma_node_cast(DocV::Array(items));
        },
        ExprV::Agg { func, arg } => {
            lemma_expr_back(*arg);
            lemma_agg_names(func);
            lemma_single(func.named(), expr_doc(*arg));
        },
    }
}

/// No expression looks like an aliased projection.
pub proof fn lemma_not_aliased(e: ExprV)
    requires
        expr_ok(e),
    ensures
        expr_doc(e) matches DocV::Dict { keys, .. } ==> keys.len() == 1 && keys[0] != "as"@,
{
    lemma_node_names();
    match e {
        ExprV::Cmp { op, .. } => {
            lemma_cmp_names(op);
        },
        ExprV::Arith { op, .. } => {
            lemma_arith_names(op);
        },
        ExprV::Agg { func, .. } => {
            lemma_agg_names(func);
        },
        _ => {},
    }
}

} // verus!
