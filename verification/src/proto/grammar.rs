//! The strict mapping of documents onto the AST: unknown nodes and fields are
//! rejected.
//!
//! Decoding is grammar enforcement only: name resolution, type checking, and the
//! safety rules belong to the validator. In particular an update/delete without
//! a selector decodes faithfully (`selector: None`) so that the validator can
//! reject it with the right error.

use vstd::prelude::*;
use crate::bytes::to_vec;
use crate::text::{same, signed_decimal, to_signed_decimal};
use crate::value::{kind_named, type_kind_from_name, Value, ValueV};
use crate::views::{collect, lemma_collect_err, lemma_collect_ok, lemma_views_push, views};
use super::ast::{AggFunc, ArithOp, CmpOp, Expr, ExprV};
use super::error::{ProtoError, ProtoErrorV, Result};
use super::wire::{docs, entry_keys, entry_vals, find_entry, position, shape_name, Doc, DocV};

verus! {

/// What a mapping gives, by views.
pub type Res<T> = core::result::Result<T, ProtoErrorV>;

/// Whether a result is what `want` says, by views.
pub open spec fn agrees<T: View>(r: Result<T>, want: Res<T::V>) -> bool {
    match r {
        Ok(x) => want == Ok::<T::V, ProtoErrorV>(x@),
        Err(e) => want == Err::<T::V, ProtoErrorV>(e@),
    }
}

/// The fields of a map, in wire order.
pub struct Fields {
    /// Their names.
    pub keys: Seq<Seq<char>>,
    /// Their values.
    pub vals: Seq<DocV>,
}

/// The fields of map entries.
pub open spec fn fields(entries: Seq<(String, Doc)>) -> Fields {
    Fields { keys: entry_keys(entries), vals: entry_vals(entries) }
}

/// The field named `key`.
pub open spec fn field(m: Fields, key: Seq<char>) -> Option<DocV> {
    match position(m.keys, key) {
        Some(i) => Some(m.vals[i]),
        None => None,
    }
}

/// The error for a value of the wrong shape.
pub open spec fn wrong_shape(node: Seq<char>, field: Seq<char>, expected: Seq<char>, d: DocV) -> ProtoErrorV {
    ProtoErrorV::WrongShape { node, field, expected, found: shape_name(d) }
}

/// The fields of a document that must be a map.
pub open spec fn map_of(d: DocV, node: Seq<char>, field: Seq<char>) -> Res<Fields> {
    match d {
        DocV::Dict { keys, vals } => Ok(Fields { keys, vals }),
        _ => Err(wrong_shape(node, field, "map"@, d)),
    }
}

/// The items of a document that must be an array.
pub open spec fn array_of(d: DocV, node: Seq<char>, field: Seq<char>) -> Res<Seq<DocV>> {
    match d {
        DocV::Array(items) => Ok(items),
        _ => Err(wrong_shape(node, field, "array"@, d)),
    }
}

/// The text of a document that must be a string.
pub open spec fn str_of(d: DocV, node: Seq<char>, field: Seq<char>) -> Res<Seq<char>> {
    match d {
        DocV::Str(s) => Ok(s),
        _ => Err(wrong_shape(node, field, "string"@, d)),
    }
}

/// The truth value of a document that must be one.
pub open spec fn bool_of(d: DocV, node: Seq<char>, field: Seq<char>) -> Res<bool> {
    match d {
        DocV::Bool(b) => Ok(b),
        _ => Err(wrong_shape(node, field, "bool"@, d)),
    }
}

/// The number of a document that must be a non-negative integer.
pub open spec fn u64_of(d: DocV, node: Seq<char>, field: Seq<char>) -> Res<u64> {
    match d {
        DocV::Int(n) => if n < 0 {
            Err(ProtoErrorV::InvalidValue { node, field, found: signed_decimal(n as int) })
        } else {
            Ok(n as u64)
        },
        _ => Err(wrong_shape(node, field, "non-negative int"@, d)),
    }
}

/// The bytes of a document that must be a token.
pub open spec fn token_of(d: DocV, node: Seq<char>, field: Seq<char>) -> Res<Seq<u8>> {
    match d {
        DocV::Bin(b) => Ok(b),
        _ => Err(wrong_shape(node, field, "bin"@, d)),
    }
}

/// The field named `name`, which must be there.
pub open spec fn required(m: Fields, node: Seq<char>, name: Seq<char>) -> Res<DocV> {
    match field(m, name) {
        Some(d) => Ok(d),
        None => Err(ProtoErrorV::MissingField { node, field: name }),
    }
}

/// The text of the field named `name`, which must be there.
pub open spec fn required_str(m: Fields, node: Seq<char>, name: Seq<char>) -> Res<Seq<char>> {
    match required(m, node, name) {
        Ok(d) => str_of(d, node, name),
        Err(e) => Err(e),
    }
}

/// The first of `keys` that is not one of `allowed`.
pub open spec fn stranger(keys: Seq<Seq<char>>, allowed: Seq<Seq<char>>) -> Option<Seq<char>>
    decreases keys.len(),
{
    if keys.len() == 0 {
        None
    } else if !allowed.contains(keys[0]) {
        Some(keys[0])
    } else {
        stranger(keys.drop_first(), allowed)
    }
}

proof fn lemma_stranger(keys: Seq<Seq<char>>, allowed: Seq<Seq<char>>, k: int)
    requires
        0 <= k <= keys.len(),
        forall|i: int| 0 <= i < k ==> allowed.contains(#[trigger] keys[i]),
        k < keys.len() ==> !allowed.contains(keys[k]),
    ensures
        stranger(keys, allowed) == (if k < keys.len() {
            Some(keys[k])
        } else {
            None
        }),
    decreases k,
{
    if k > 0 {
        assert(allowed.contains(keys[0]));
        assert forall|i: int| 0 <= i < k - 1 implies allowed.contains(
            #[trigger] keys.drop_first()[i],
        ) by {
            assert(allowed.contains(keys[i + 1]));
        }
        lemma_stranger(keys.drop_first(), allowed, k - 1);
    }
}

/// If all keys are allowed, none is a stranger.
pub proof fn lemma_no_stranger(keys: Seq<Seq<char>>, allowed: Seq<Seq<char>>)
    requires
        forall|i: int| 0 <= i < keys.len() ==> allowed.contains(#[trigger] keys[i]),
    ensures
        stranger(keys, allowed) is None,
{
    lemma_stranger(keys, allowed, keys.len() as int);
}

/// The error for a field outside `allowed`, if there is one.
pub open spec fn unknown_field(m: Fields, node: Seq<char>, allowed: Seq<Seq<char>>) -> Option<ProtoErrorV> {
    match stranger(m.keys, allowed) {
        Some(name) => Some(ProtoErrorV::UnknownField { node, name }),
        None => None,
    }
}

// Reading documents.

pub(crate) fn wrong(
    node: &'static str,
    field: &'static str,
    expected: &'static str,
    found: &Doc,
) -> (r: ProtoError)
    ensures
        r@ == wrong_shape(node@, field@, expected@, found@),
{
    ProtoError::WrongShape { node, field, expected, found: found.shape() }
}

pub(crate) fn find<'a>(map: &'a Vec<(String, Doc)>, key: &str) -> (r: Option<&'a Doc>)
    ensures
        match r {
            Some(d) => field(fields(map@), key@) == Some(d@) && exists|i: int|
                0 <= i < map@.len() && (#[trigger] map@[i]).1 == *d,
            None => field(fields(map@), key@) is None,
        },
{
    match find_entry(map, key) {
        Some(i) => Some(&map[i].1),
        None => None,
    }
}

pub(crate) fn as_map<'a>(doc: &'a Doc, node: &'static str, field: &'static str) -> (r: Result<
    &'a Vec<(String, Doc)>,
>)
    ensures
        match r {
            Ok(m) => *doc == Doc::Dict(*m) && map_of(doc@, node@, field@) == Ok::<Fields, ProtoErrorV>(
                fields(m@),
            ),
            Err(e) => map_of(doc@, node@, field@) == Err::<Fields, ProtoErrorV>(e@),
        },
{
    proof {
        doc.lemma_parts();
    }
    match doc {
        Doc::Dict(entries) => Ok(entries),
        other => Err(wrong(node, field, "map", other)),
    }
}

pub(crate) fn as_array<'a>(doc: &'a Doc, node: &'static str, field: &'static str) -> (r: Result<
    &'a Vec<Doc>,
>)
    ensures
        match r {
            Ok(items) => *doc == Doc::Array(*items) && array_of(doc@, node@, field@) == Ok::<
                Seq<DocV>,
                ProtoErrorV,
            >(docs(items@)),
            Err(e) => array_of(doc@, node@, field@) == Err::<Seq<DocV>, ProtoErrorV>(e@),
        },
{
    proof {
        doc.lemma_parts();
    }
    match doc {
        Doc::Array(items) => Ok(items),
        other => Err(wrong(node, field, "array", other)),
    }
}

pub(crate) fn as_str<'a>(doc: &'a Doc, node: &'static str, field: &'static str) -> (r: Result<
    &'a str,
>)
    ensures
        agrees(r, str_of(doc@, node@, field@)),
{
    match doc {
        Doc::Str(s) => Ok(s.as_str()),
        other => Err(wrong(node, field, "string", other)),
    }
}

pub(crate) fn as_bool(doc: &Doc, node: &'static str, field: &'static str) -> (r: Result<bool>)
    ensures
        match r {
            Ok(b) => bool_of(doc@, node@, field@) == Ok::<bool, ProtoErrorV>(b),
            Err(e) => bool_of(doc@, node@, field@) == Err::<bool, ProtoErrorV>(e@),
        },
{
    match doc {
        Doc::Bool(b) => Ok(*b),
        other => Err(wrong(node, field, "bool", other)),
    }
}

pub(crate) fn as_u64(doc: &Doc, node: &'static str, field: &'static str) -> (r: Result<u64>)
    ensures
        match r {
            Ok(n) => u64_of(doc@, node@, field@) == Ok::<u64, ProtoErrorV>(n),
            Err(e) => u64_of(doc@, node@, field@) == Err::<u64, ProtoErrorV>(e@),
        },
{
    match doc {
        Doc::Int(n) => {
            if *n < 0 {
                Err(ProtoError::InvalidValue { node, field, found: to_signed_decimal(*n) })
            } else {
                Ok(*n as u64)
            }
        },
        other => Err(wrong(node, field, "non-negative int", other)),
    }
}

pub(crate) fn token_from(doc: &Doc, node: &'static str, field: &'static str) -> (r: Result<Vec<u8>>)
    ensures
        match r {
            Ok(b) => token_of(doc@, node@, field@) == Ok::<Seq<u8>, ProtoErrorV>(b@),
            Err(e) => token_of(doc@, node@, field@) == Err::<Seq<u8>, ProtoErrorV>(e@),
        },
{
    match doc {
        Doc::Bin(bytes) => Ok(to_vec(bytes.as_slice())),
        other => Err(wrong(node, field, "bin", other)),
    }
}

pub(crate) fn req<'a>(map: &'a Vec<(String, Doc)>, node: &'static str, name: &'static str) -> (r:
    Result<&'a Doc>)
    ensures
        match r {
            Ok(d) => required(fields(map@), node@, name@) == Ok::<DocV, ProtoErrorV>(d@)
                && exists|i: int| 0 <= i < map@.len() && (#[trigger] map@[i]).1 == *d,
            Err(e) => required(fields(map@), node@, name@) == Err::<DocV, ProtoErrorV>(e@),
        },
{
    match find(map, name) {
        Some(d) => Ok(d),
        None => Err(ProtoError::MissingField { node, field: name }),
    }
}

pub(crate) fn req_str<'a>(
    map: &'a Vec<(String, Doc)>,
    node: &'static str,
    name: &'static str,
) -> (r: Result<&'a str>)
    ensures
        agrees(r, required_str(fields(map@), node@, name@)),
{
    match req(map, node, name) {
        Ok(d) => as_str(d, node, name),
        Err(e) => Err(e),
    }
}

/// What names hold.
pub open spec fn names(list: Seq<&'static str>) -> Seq<Seq<char>> {
    Seq::new(list.len(), |i: int| list[i]@)
}

/// Reject any key outside `allowed` (unknown-field hardening).
pub(crate) fn only(
    map: &Vec<(String, Doc)>,
    node: &'static str,
    allowed: &[&'static str],
) -> (r: Result<()>)
    ensures
        match r {
            Ok(_) => unknown_field(fields(map@), node@, names(allowed@)) is None,
            Err(e) => unknown_field(fields(map@), node@, names(allowed@)) == Some(e@),
        },
{
    let ghost keys = entry_keys(map@);
    let ghost list = names(allowed@);
    let mut i: usize = 0;
    while i < map.len()
        invariant
            i <= map@.len(),
            keys == entry_keys(map@),
            list == names(allowed@),
            forall|j: int| 0 <= j < i ==> list.contains(#[trigger] keys[j]),
        decreases map@.len() - i,
    {
        assert(keys[i as int] == map@[i as int].0@);
        if !among(map[i].0.as_str(), allowed) {
            proof {
                lemma_stranger(keys, list, i as int);
            }
            return Err(ProtoError::UnknownField { node, name: map[i].0.clone() });
        }
        i = i + 1;
    }
    proof {
        lemma_stranger(keys, list, i as int);
    }
    Ok(())
}

fn among(key: &str, allowed: &[&'static str]) -> (r: bool)
    ensures
        r == names(allowed@).contains(key@),
{
    let ghost list = names(allowed@);
    let mut i: usize = 0;
    while i < allowed.len()
        invariant
            i <= allowed@.len(),
            list == names(allowed@),
            forall|j: int| 0 <= j < i ==> #[trigger] list[j] != key@,
        decreases allowed@.len() - i,
    {
        assert(list[i as int] == allowed@[i as int]@);
        if same(key, allowed[i]) {
            return true;
        }
        i = i + 1;
    }
    false
}

// Expressions.

/// The comparison with this node name.
pub open spec fn comparison(name: Seq<char>) -> Option<CmpOp> {
    if name == "eq"@ {
        Some(CmpOp::Eq)
    } else if name == "ne"@ {
        Some(CmpOp::Ne)
    } else if name == "lt"@ {
        Some(CmpOp::Lt)
    } else if name == "lte"@ {
        Some(CmpOp::Lte)
    } else if name == "gt"@ {
        Some(CmpOp::Gt)
    } else if name == "gte"@ {
        Some(CmpOp::Gte)
    } else {
        None
    }
}

/// The arithmetic operator with this node name.
pub open spec fn arithmetic(name: Seq<char>) -> Option<ArithOp> {
    if name == "add"@ {
        Some(ArithOp::Add)
    } else if name == "sub"@ {
        Some(ArithOp::Sub)
    } else if name == "mul"@ {
        Some(ArithOp::Mul)
    } else if name == "div"@ {
        Some(ArithOp::Div)
    } else if name == "mod"@ {
        Some(ArithOp::Mod)
    } else {
        None
    }
}

/// The aggregate function with this node name.
pub open spec fn aggregate(name: Seq<char>) -> Option<AggFunc> {
    if name == "count"@ {
        Some(AggFunc::Count)
    } else if name == "sum"@ {
        Some(AggFunc::Sum)
    } else if name == "min"@ {
        Some(AggFunc::Min)
    } else if name == "max"@ {
        Some(AggFunc::Max)
    } else if name == "avg"@ {
        Some(AggFunc::Avg)
    } else {
        None
    }
}

fn read_comparison(name: &str) -> (r: Option<CmpOp>)
    ensures
        r == comparison(name@),
{
    if same(name, "eq") {
        Some(CmpOp::Eq)
    } else if same(name, "ne") {
        Some(CmpOp::Ne)
    } else if same(name, "lt") {
        Some(CmpOp::Lt)
    } else if same(name, "lte") {
        Some(CmpOp::Lte)
    } else if same(name, "gt") {
        Some(CmpOp::Gt)
    } else if same(name, "gte") {
        Some(CmpOp::Gte)
    } else {
        None
    }
}

fn read_arithmetic(name: &str) -> (r: Option<ArithOp>)
    ensures
        r == arithmetic(name@),
{
    if same(name, "add") {
        Some(ArithOp::Add)
    } else if same(name, "sub") {
        Some(ArithOp::Sub)
    } else if same(name, "mul") {
        Some(ArithOp::Mul)
    } else if same(name, "div") {
        Some(ArithOp::Div)
    } else if same(name, "mod") {
        Some(ArithOp::Mod)
    } else {
        None
    }
}

fn read_aggregate(name: &str) -> (r: Option<AggFunc>)
    ensures
        r == aggregate(name@),
{
    if same(name, "count") {
        Some(AggFunc::Count)
    } else if same(name, "sum") {
        Some(AggFunc::Sum)
    } else if same(name, "min") {
        Some(AggFunc::Min)
    } else if same(name, "max") {
        Some(AggFunc::Max)
    } else if same(name, "avg") {
        Some(AggFunc::Avg)
    } else {
        None
    }
}

/// A column reference: a name, or a table and a name.
pub open spec fn column_of(body: DocV) -> Res<ExprV> {
    match body {
        DocV::Str(name) => Ok(ExprV::Column { table: None, column: name }),
        DocV::Array(items) => if items.len() != 2 {
            Err(wrong_shape("expression"@, "col"@, "[table, column] pair"@, body))
        } else {
            match str_of(items[0], "expression"@, "col table"@) {
                Err(e) => Err(e),
                Ok(table) => match str_of(items[1], "expression"@, "col name"@) {
                    Err(e) => Err(e),
                    Ok(column) => Ok(ExprV::Column { table: Some(table), column }),
                },
            }
        },
        _ => Err(
            wrong_shape("expression"@, "col"@, "string or [table, column] pair"@, body),
        ),
    }
}

/// The expression that a document is: scalars are literals, a single-key map is
/// an operator node, anything else is outside the grammar.
pub open spec fn expr_of(d: DocV) -> Res<ExprV>
    decreases d, 0nat,
{
    match d {
        DocV::Null => Ok(ExprV::Literal(ValueV::Null)),
        DocV::Bool(b) => Ok(ExprV::Literal(ValueV::Bool(b))),
        DocV::Int(n) => Ok(ExprV::Literal(ValueV::I64(n))),
        DocV::Float(f) => Ok(ExprV::Literal(ValueV::F64(f))),
        DocV::Str(s) => Ok(ExprV::Literal(ValueV::Text(s))),
        DocV::Bin(b) => Ok(ExprV::Literal(ValueV::Blob(b))),
        DocV::Array(_) => Err(
            wrong_shape("expression"@, "expression"@, "scalar or node map"@, d),
        ),
        DocV::Dict { keys, vals } => if keys.len() != 1 || vals.len() != 1 {
            Err(wrong_shape("expression"@, "expression"@, "single-key map"@, d))
        } else {
            node_of(keys[0], vals[0])
        },
    }
}

/// Two operands.
pub open spec fn pair_of(body: DocV, name: Seq<char>) -> Res<(ExprV, ExprV)>
    decreases body, 0nat,
{
    match body {
        DocV::Array(items) => if items.len() != 2 {
            Err(wrong_shape("expression"@, name, "[a, b] pair"@, body))
        } else {
            match expr_of(items[0]) {
                Err(e) => Err(e),
                Ok(a) => match expr_of(items[1]) {
                    Err(e) => Err(e),
                    Ok(b) => Ok((a, b)),
                },
            }
        },
        _ => Err(wrong_shape("expression"@, name, "array"@, body)),
    }
}

/// A list of operands that is not empty.
pub open spec fn list_of(body: DocV, name: Seq<char>) -> Res<Seq<ExprV>>
    decreases body, 0nat,
{
    match body {
        DocV::Array(items) => if items.len() == 0 {
            Err(
                ProtoErrorV::InvalidValue {
                    node: "expression"@,
                    field: name,
                    found: "[]"@,
                },
            )
        } else {
            exprs_of(items)
        },
        _ => Err(wrong_shape("expression"@, name, "array"@, body)),
    }
}

/// The expressions that documents are, or the first error.
pub open spec fn exprs_of(items: Seq<DocV>) -> Res<Seq<ExprV>>
    decreases items, 2nat,
{
    if items.len() == 0 {
        Ok(Seq::empty())
    } else {
        match expr_of(items[0]) {
            Err(e) => Err(e),
            Ok(x) => match exprs_of(items.drop_first()) {
                Err(e) => Err(e),
                Ok(xs) => Ok(seq![x] + xs),
            },
        }
    }
}

pub proof fn lemma_exprs_of(items: Seq<DocV>)
    ensures
        exprs_of(items) == collect(Seq::new(items.len(), |i: int| expr_of(items[i]))),
    decreases items.len(),
{
    let rs = Seq::new(items.len(), |i: int| expr_of(items[i]));
    if items.len() > 0 {
        let rest = items.drop_first();
        lemma_exprs_of(rest);
        assert(rs.drop_first() =~= Seq::new(rest.len(), |i: int| expr_of(rest[i])));
    }
}

/// The operator node `name` with the operands `body`.
pub open spec fn node_of(name: Seq<char>, body: DocV) -> Res<ExprV>
    decreases body, 1nat,
{
    if name == "col"@ {
        column_of(body)
    } else if let Some(op) = comparison(name) {
        match pair_of(body, op.named()) {
            Err(e) => Err(e),
            Ok((a, b)) => Ok(ExprV::Cmp { op, lhs: Box::new(a), rhs: Box::new(b) }),
        }
    } else if name == "and"@ {
        match list_of(body, "and"@) {
            Err(e) => Err(e),
            Ok(list) => Ok(ExprV::And(list)),
        }
    } else if name == "or"@ {
        match list_of(body, "or"@) {
            Err(e) => Err(e),
            Ok(list) => Ok(ExprV::Or(list)),
        }
    } else if name == "not"@ {
        match expr_of(body) {
            Err(e) => Err(e),
            Ok(x) => Ok(ExprV::Not(Box::new(x))),
        }
    } else if let Some(op) = arithmetic(name) {
        match pair_of(body, op.named()) {
            Err(e) => Err(e),
            Ok((a, b)) => Ok(ExprV::Arith { op, lhs: Box::new(a), rhs: Box::new(b) }),
        }
    } else if name == "is_null"@ {
        match expr_of(body) {
            Err(e) => Err(e),
            Ok(x) => Ok(ExprV::IsNull(Box::new(x))),
        }
    } else if name == "is_not_null"@ {
        match expr_of(body) {
            Err(e) => Err(e),
            Ok(x) => Ok(ExprV::IsNotNull(Box::new(x))),
        }
    } else if name == "between"@ {
        between_of(body)
    } else if name == "in"@ {
        in_of(body)
    } else if name == "like"@ || name == "ilike"@ {
        like_of(body, name == "ilike"@)
    } else if name == "coalesce"@ {
        match list_of(body, "coalesce"@) {
            Err(e) => Err(e),
            Ok(list) => Ok(ExprV::Coalesce(list)),
        }
    } else if name == "nullif"@ {
        match pair_of(body, "nullif"@) {
            Err(e) => Err(e),
            Ok((a, b)) => Ok(ExprV::NullIf { lhs: Box::new(a), rhs: Box::new(b) }),
        }
    } else if name == "cast"@ {
        cast_of(body)
    } else if let Some(func) = aggregate(name) {
        match expr_of(body) {
            Err(e) => Err(e),
            Ok(x) => Ok(ExprV::Agg { func, arg: Box::new(x) }),
        }
    } else {
        Err(ProtoErrorV::UnknownNode { context: "expression"@, name })
    }
}

/// `[x, lo, hi]`.
pub open spec fn between_of(body: DocV) -> Res<ExprV>
    decreases body, 0nat,
{
    match body {
        DocV::Array(items) => if items.len() != 3 {
            Err(wrong_shape("expression"@, "between"@, "[x, lo, hi] triple"@, body))
        } else {
            match expr_of(items[0]) {
                Err(e) => Err(e),
                Ok(expr) => match expr_of(items[1]) {
                    Err(e) => Err(e),
                    Ok(lo) => match expr_of(items[2]) {
                        Err(e) => Err(e),
                        Ok(hi) => Ok(
                            ExprV::Between {
                                expr: Box::new(expr),
                                lo: Box::new(lo),
                                hi: Box::new(hi),
                            },
                        ),
                    },
                },
            }
        },
        _ => Err(wrong_shape("expression"@, "between"@, "array"@, body)),
    }
}

/// `[x, [values]]`.
pub open spec fn in_of(body: DocV) -> Res<ExprV>
    decreases body, 0nat,
{
    match body {
        DocV::Array(items) => if items.len() != 2 {
            Err(wrong_shape("expression"@, "in"@, "[x, [values]] pair"@, body))
        } else {
            match expr_of(items[0]) {
                Err(e) => Err(e),
                Ok(expr) => match list_of(items[1], "in"@) {
                    Err(e) => Err(e),
                    Ok(list) => Ok(ExprV::InList { expr: Box::new(expr), list }),
                },
            }
        },
        _ => Err(wrong_shape("expression"@, "in"@, "array"@, body)),
    }
}

/// `[x, pattern]`.
pub open spec fn like_of(body: DocV, case_insensitive: bool) -> Res<ExprV>
    decreases body, 0nat,
{
    match body {
        DocV::Array(items) => if items.len() != 2 {
            Err(wrong_shape("expression"@, "like"@, "[x, pattern] pair"@, body))
        } else {
            match expr_of(items[0]) {
                Err(e) => Err(e),
                Ok(expr) => match str_of(items[1], "expression"@, "pattern"@) {
                    Err(e) => Err(e),
                    Ok(pattern) => Ok(
                        ExprV::Like { expr: Box::new(expr), pattern, case_insensitive },
                    ),
                },
            }
        },
        _ => Err(wrong_shape("expression"@, "like"@, "array"@, body)),
    }
}

/// `[x, type]`. The type is looked at first.
pub open spec fn cast_of(body: DocV) -> Res<ExprV>
    decreases body, 0nat,
{
    match body {
        DocV::Array(items) => if items.len() != 2 {
            Err(wrong_shape("expression"@, "cast"@, "[x, type] pair"@, body))
        } else {
            match str_of(items[1], "expression"@, "cast type"@) {
                Err(e) => Err(e),
                Ok(name) => match kind_named(name) {
                    None => Err(
                        ProtoErrorV::InvalidValue {
                            node: "expression"@,
                            field: "cast type"@,
                            found: name,
                        },
                    ),
                    Some(to) => match expr_of(items[0]) {
                        Err(e) => Err(e),
                        Ok(expr) => Ok(ExprV::Cast { expr: Box::new(expr), to }),
                    },
                },
            }
        },
        _ => Err(wrong_shape("expression"@, "cast"@, "array"@, body)),
    }
}

/// Map a `Doc` onto an expression: scalars are literals, a single-key map is an
/// operator node, anything else is outside the grammar.
pub fn expr_from(doc: &Doc) -> (r: Result<Expr>)
    ensures
        agrees(r, expr_of(doc@)),
    decreases doc, 0nat,
{
    proof {
        doc.lemma_parts();
    }
    match doc {
        Doc::Null => Ok(Expr::Literal(Value::Null)),
        Doc::Bool(b) => Ok(Expr::Literal(Value::Bool(*b))),
        Doc::Int(n) => Ok(Expr::Literal(Value::I64(*n))),
        Doc::Float(f) => Ok(Expr::Literal(Value::F64(*f))),
        Doc::Str(s) => Ok(Expr::Literal(Value::Text(s.clone()))),
        Doc::Bin(b) => Ok(Expr::Literal(Value::Blob(to_vec(b.as_slice())))),
        Doc::Array(_) => Err(wrong("expression", "expression", "scalar or node map", doc)),
        Doc::Dict(entries) => {
            if entries.len() != 1 {
                return Err(wrong("expression", "expression", "single-key map", doc));
            }
            let e = &entries[0];
            assert(entry_keys(entries@)[0] == e.0@);
            assert(entry_vals(entries@)[0] == e.1@);
            assert(decreases_to!(doc => e.1));
            node_from(e.0.as_str(), &e.1)
        },
    }
}

fn node_from(name: &str, body: &Doc) -> (r: Result<Expr>)
    ensures
        agrees(r, node_of(name@, body@)),
    decreases body, 1nat,
{
    if same(name, "col") {
        return column_from(body);
    }
    if let Some(op) = read_comparison(name) {
        return match pair(body, op.name()) {
            Ok((lhs, rhs)) => Ok(Expr::Cmp { op, lhs: Box::new(lhs), rhs: Box::new(rhs) }),
            Err(e) => Err(e),
        };
    }
    if same(name, "and") {
        return match expr_list(body, "and") {
            Ok(list) => {
                let r = Expr::And(list);
                proof {
                    r.lemma_parts();
                }
                Ok(r)
            },
            Err(e) => Err(e),
        };
    }
    if same(name, "or") {
        return match expr_list(body, "or") {
            Ok(list) => {
                let r = Expr::Or(list);
                proof {
                    r.lemma_parts();
                }
                Ok(r)
            },
            Err(e) => Err(e),
        };
    }
    if same(name, "not") {
        return match expr_from(body) {
            Ok(x) => Ok(Expr::Not(Box::new(x))),
            Err(e) => Err(e),
        };
    }
    if let Some(op) = read_arithmetic(name) {
        return match pair(body, op.name()) {
            Ok((lhs, rhs)) => Ok(Expr::Arith { op, lhs: Box::new(lhs), rhs: Box::new(rhs) }),
            Err(e) => Err(e),
        };
    }
    if same(name, "is_null") {
        return match expr_from(body) {
            Ok(x) => Ok(Expr::IsNull(Box::new(x))),
            Err(e) => Err(e),
        };
    }
    if same(name, "is_not_null") {
        return match expr_from(body) {
            Ok(x) => Ok(Expr::IsNotNull(Box::new(x))),
            Err(e) => Err(e),
        };
    }
    if same(name, "between") {
        return between_from(body);
    }
    if same(name, "in") {
        return in_from(body);
    }
    if same(name, "like") || same(name, "ilike") {
        return like_from(body, same(name, "ilike"));
    }
    if same(name, "coalesce") {
        return match expr_list(body, "coalesce") {
            Ok(list) => {
                let r = Expr::Coalesce(list);
                proof {
                    r.lemma_parts();
                }
                Ok(r)
            },
            Err(e) => Err(e),
        };
    }
    if same(name, "nullif") {
        return match pair(body, "nullif") {
            Ok((lhs, rhs)) => Ok(Expr::NullIf { lhs: Box::new(lhs), rhs: Box::new(rhs) }),
            Err(e) => Err(e),
        };
    }
    if same(name, "cast") {
        return cast_from(body);
    }
    if let Some(func) = read_aggregate(name) {
        return match expr_from(body) {
            Ok(x) => Ok(Expr::Agg { func, arg: Box::new(x) }),
            Err(e) => Err(e),
        };
    }
    Err(ProtoError::UnknownNode { context: "expression", name: name.to_owned() })
}

fn column_from(body: &Doc) -> (r: Result<Expr>)
    ensures
        agrees(r, column_of(body@)),
{
    proof {
        body.lemma_parts();
    }
    match body {
        Doc::Str(name) => Ok(Expr::Column { table: None, column: name.clone() }),
        Doc::Array(items) => {
            if items.len() != 2 {
                return Err(wrong("expression", "col", "[table, column] pair", body));
            }
            assert(docs(items@)[0] == items@[0]@ && docs(items@)[1] == items@[1]@);
            let table = match as_str(&items[0], "expression", "col table") {
                Ok(s) => s.to_owned(),
                Err(e) => {
                    return Err(e);
                },
            };
            let column = match as_str(&items[1], "expression", "col name") {
                Ok(s) => s.to_owned(),
                Err(e) => {
                    return Err(e);
                },
            };
            Ok(Expr::Column { table: Some(table), column })
        },
        other => Err(wrong("expression", "col", "string or [table, column] pair", other)),
    }
}

fn pair(body: &Doc, name: &'static str) -> (r: Result<(Expr, Expr)>)
    ensures
        match r {
            Ok((a, b)) => pair_of(body@, name@) == Ok::<(ExprV, ExprV), ProtoErrorV>((a@, b@)),
            Err(e) => pair_of(body@, name@) == Err::<(ExprV, ExprV), ProtoErrorV>(e@),
        },
    decreases body, 0nat,
{
    let items = match as_array(body, "expression", name) {
        Ok(items) => items,
        Err(e) => {
            return Err(e);
        },
    };
    if items.len() != 2 {
        return Err(wrong("expression", name, "[a, b] pair", body));
    }
    assert(docs(items@)[0] == items@[0]@ && docs(items@)[1] == items@[1]@);
    assert(decreases_to!(body => items@[0]));
    assert(decreases_to!(body => items@[1]));
    let a = match expr_from(&items[0]) {
        Ok(a) => a,
        Err(e) => {
            return Err(e);
        },
    };
    match expr_from(&items[1]) {
        Ok(b) => Ok((a, b)),
        Err(e) => Err(e),
    }
}

/// Read every document of a list as an expression.
pub(crate) fn exprs_from(items: &Vec<Doc>) -> (r: Result<Vec<Expr>>)
    ensures
        match r {
            Ok(list) => exprs_of(docs(items@)) == Ok::<Seq<ExprV>, ProtoErrorV>(views(list@)),
            Err(e) => exprs_of(docs(items@)) == Err::<Seq<ExprV>, ProtoErrorV>(e@),
        },
    decreases items, 2nat,
{
    let ghost rs = Seq::new(docs(items@).len(), |i: int| expr_of(docs(items@)[i]));
    proof {
        lemma_exprs_of(docs(items@));
    }
    let mut out: Vec<Expr> = Vec::new();
    let mut i: usize = 0;
    while i < items.len()
        invariant
            i <= items@.len(),
            out@.len() == i,
            rs == Seq::new(docs(items@).len(), |i: int| expr_of(docs(items@)[i])),
            exprs_of(docs(items@)) == collect(rs),
            forall|j: int| 0 <= j < i ==> #[trigger] rs[j] == Ok::<ExprV, ProtoErrorV>(
                views(out@)[j],
            ),
        decreases items@.len() - i,
    {
        assert(rs[i as int] == expr_of(items@[i as int]@));
        assert(decreases_to!(items => items@[i as int]));
        match expr_from(&items[i]) {
            Ok(x) => {
                let ghost before = out@;
                out.push(x);
                proof {
                    lemma_views_push(before, x);
                }
            },
            Err(e) => {
                proof {
                    lemma_collect_err(rs, i as int);
                }
                return Err(e);
            },
        }
        i = i + 1;
    }
    proof {
        lemma_collect_ok(rs, views(out@));
    }
    Ok(out)
}

fn expr_list(body: &Doc, name: &'static str) -> (r: Result<Vec<Expr>>)
    ensures
        match r {
            Ok(list) => list_of(body@, name@) == Ok::<Seq<ExprV>, ProtoErrorV>(views(list@)),
            Err(e) => list_of(body@, name@) == Err::<Seq<ExprV>, ProtoErrorV>(e@),
        },
    decreases body, 0nat,
{
    let items = match as_array(body, "expression", name) {
        Ok(items) => items,
        Err(e) => {
            return Err(e);
        },
    };
    if items.len() == 0 {
        return Err(
            ProtoError::InvalidValue { node: "expression", field: name, found: "[]".to_owned() },
        );
    }
    assert(decreases_to!(body => items));
    exprs_from(items)
}

fn between_from(body: &Doc) -> (r: Result<Expr>)
    ensures
        agrees(r, between_of(body@)),
    decreases body, 0nat,
{
    let items = match as_array(body, "expression", "between") {
        Ok(items) => items,
        Err(e) => {
            return Err(e);
        },
    };
    if items.len() != 3 {
        return Err(wrong("expression", "between", "[x, lo, hi] triple", body));
    }
    assert(docs(items@)[0] == items@[0]@ && docs(items@)[1] == items@[1]@ && docs(items@)[2]
        == items@[2]@);
    assert(decreases_to!(body => items@[0]));
    assert(decreases_to!(body => items@[1]));
    assert(decreases_to!(body => items@[2]));
    let expr = match expr_from(&items[0]) {
        Ok(x) => x,
        Err(e) => {
            return Err(e);
        },
    };
    let lo = match expr_from(&items[1]) {
        Ok(x) => x,
        Err(e) => {
            return Err(e);
        },
    };
    match expr_from(&items[2]) {
        Ok(hi) => Ok(
            Expr::Between { expr: Box::new(expr), lo: Box::new(lo), hi: Box::new(hi) },
        ),
        Err(e) => Err(e),
    }
}

fn in_from(body: &Doc) -> (r: Result<Expr>)
    ensures
        agrees(r, in_of(body@)),
    decreases body, 0nat,
{
    let items = match as_array(body, "expression", "in") {
        Ok(items) => items,
        Err(e) => {
            return Err(e);
        },
    };
    if items.len() != 2 {
        return Err(wrong("expression", "in", "[x, [values]] pair", body));
    }
    assert(docs(items@)[0] == items@[0]@ && docs(items@)[1] == items@[1]@);
    assert(decreases_to!(body => items@[0]));
    assert(decreases_to!(body => items@[1]));
    let expr = match expr_from(&items[0]) {
        Ok(x) => x,
        Err(e) => {
            return Err(e);
        },
    };
    match expr_list(&items[1], "in") {
        Ok(list) => {
            let r = Expr::InList { expr: Box::new(expr), list };
            proof {
                r.lemma_parts();
            }
            Ok(r)
        },
        Err(e) => Err(e),
    }
}

fn like_from(body: &Doc, case_insensitive: bool) -> (r: Result<Expr>)
    ensures
        agrees(r, like_of(body@, case_insensitive)),
    decreases body, 0nat,
{
    let items = match as_array(body, "expression", "like") {
        Ok(items) => items,
        Err(e) => {
            return Err(e);
        },
    };
    if items.len() != 2 {
        return Err(wrong("expression", "like", "[x, pattern] pair", body));
    }
    assert(docs(items@)[0] == items@[0]@ && docs(items@)[1] == items@[1]@);
    assert(decreases_to!(body => items@[0]));
    let expr = match expr_from(&items[0]) {
        Ok(x) => x,
        Err(e) => {
            return Err(e);
        },
    };
    match as_str(&items[1], "expression", "pattern") {
        Ok(s) => Ok(
            Expr::Like { expr: Box::new(expr), pattern: s.to_owned(), case_insensitive },
        ),
        Err(e) => Err(e),
    }
}

fn cast_from(body: &Doc) -> (r: Result<Expr>)
    ensures
        agrees(r, cast_of(body@)),
    decreases body, 0nat,
{
    let items = match as_array(body, "expression", "cast") {
        Ok(items) => items,
        Err(e) => {
            return Err(e);
        },
    };
    if items.len() != 2 {
        return Err(wrong("expression", "cast", "[x, type] pair", body));
    }
    assert(docs(items@)[0] == items@[0]@ && docs(items@)[1] == items@[1]@);
    assert(decreases_to!(body => items@[0]));
    let kind_name = match as_str(&items[1], "expression", "cast type") {
        Ok(s) => s,
        Err(e) => {
            return Err(e);
        },
    };
    let to = match type_kind_from_name(kind_name) {
        Some(to) => to,
        None => {
            return Err(
                ProtoError::InvalidValue {
                    node: "expression",
                    field: "cast type",
                    found: kind_name.to_owned(),
                },
            );
        },
    };
    match expr_from(&items[0]) {
        Ok(x) => Ok(Expr::Cast { expr: Box::new(x), to }),
        Err(e) => Err(e),
    }
}

} // verus!
