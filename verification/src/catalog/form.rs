//! The stored form of a table definition: how it is written.
//!
//! A versioned format with length prefixes everywhere. The literals embedded in
//! a definition (defaults, CHECK literals) stand in it as one-cell rows, in the
//! form that the value layer gives them.

use vstd::prelude::*;
use vstd::utf8::encode_utf8;
use super::check::{comparisons_in, comparisons_in_all};
use super::error::{invalid, invalid_v, CatalogError, CatalogErrorV, Res, Result};
use super::schema::{
    CheckExpr, CheckV, CmpOp, ColumnDef, ColumnV, DefaultSpec, DefaultV, ForeignKey, ForeignKeyV,
    IndexDef, IndexV, RefAction, TableDef, TableV, UpdatePolicy,
};
use crate::bytes::{le_bytes, push_all, push_le};
use crate::index::encoded_view;
use crate::value::{TypeError, TypeKind, Value, ValueV};
use crate::views::views;

verus! {

/// The version with a foreign-key section, written where there are foreign keys.
pub const VERSION: u8 = 3;

/// The version with a secondary-index section, written where there are no foreign keys.
pub const VERSION_NO_FOREIGN_KEYS: u8 = 2;

/// The first version.
pub const VERSION_NO_INDEXES: u8 = 1;

pub const FLAG_NULLABLE: u8 = 1;

pub const FLAG_UNIQUE: u8 = 2;

pub const FLAG_AUTO_INCREMENT: u8 = 4;

pub const FLAG_ROWVERSION: u8 = 8;

pub const FLAG_ON_UPDATE_NOW: u8 = 16;

pub const FLAG_GUARDED: u8 = 32;

pub const DEFAULT_NONE: u8 = 0;

pub const DEFAULT_VALUE: u8 = 1;

pub const DEFAULT_NOW: u8 = 2;

pub const DEFAULT_UUID_V7: u8 = 3;

pub const CHECK_CMP: u8 = 1;

pub const CHECK_IS_NULL: u8 = 2;

pub const CHECK_IS_NOT_NULL: u8 = 3;

pub const CHECK_AND: u8 = 4;

pub const CHECK_OR: u8 = 5;

pub const CHECK_NOT: u8 = 6;

/// Bytes, or the error that kept them from being written.
pub type Form = Res<Seq<u8>>;

/// The encoding of a literal as a one-cell row, or the value layer's error.
pub type Encoded = core::result::Result<Vec<u8>, TypeError>;

/// One form behind another: the first error, or the bytes of both.
pub open spec fn join(a: Form, b: Form) -> Form {
    match a {
        Err(e) => Err(e),
        Ok(x) => match b {
            Err(e) => Err(e),
            Ok(y) => Ok(x + y),
        },
    }
}

/// A single byte.
pub open spec fn byte_form(b: u8) -> Form {
    Ok(seq![b])
}

/// A count of two bytes.
pub open spec fn count_form(n: nat) -> Form {
    if n <= 0xFFFF {
        Ok(le_bytes(n, 2))
    } else {
        Err(invalid_v("definition is too large to encode"@))
    }
}

/// Counted bytes.
pub open spec fn blob_form(b: Seq<u8>) -> Form {
    join(count_form(b.len()), Ok(b))
}

/// A string: its bytes, counted.
pub open spec fn text_form(s: Seq<char>) -> Form {
    blob_form(encode_utf8(s))
}

/// The literal at position `k`.
pub open spec fn literal_form(literals: Seq<Encoded>, k: int) -> Form {
    match encoded_view(literals[k]) {
        Err(e) => Err(CatalogErrorV::Type(e)),
        Ok(b) => blob_form(b),
    }
}

/// The code of a type.
pub open spec fn kind_byte(kind: TypeKind) -> u8 {
    match kind {
        TypeKind::Bool => 1,
        TypeKind::I64 => 2,
        TypeKind::F64 => 3,
        TypeKind::Text => 4,
        TypeKind::Blob => 5,
        TypeKind::Uuid => 6,
        TypeKind::Json => 7,
        TypeKind::Timestamp => 8,
    }
}

/// The code of an operator.
pub open spec fn op_byte(op: CmpOp) -> u8 {
    match op {
        CmpOp::Eq => 1,
        CmpOp::Ne => 2,
        CmpOp::Lt => 3,
        CmpOp::Lte => 4,
        CmpOp::Gt => 5,
        CmpOp::Gte => 6,
    }
}

/// The code of a referential action.
pub open spec fn action_byte(a: RefAction) -> u8 {
    match a {
        RefAction::Restrict => 0,
        RefAction::Cascade => 1,
        RefAction::SetNull => 2,
    }
}

spec fn bit(on: bool, b: u8) -> u8 {
    if on {
        b
    } else {
        0
    }
}

/// The flags of a column, one bit each.
pub closed spec fn flag_byte(c: ColumnV) -> u8 {
    bit(c.nullable, FLAG_NULLABLE) | bit(c.unique, FLAG_UNIQUE) | bit(
        c.auto_increment,
        FLAG_AUTO_INCREMENT,
    ) | bit(c.rowversion, FLAG_ROWVERSION) | bit(c.on_update_now, FLAG_ON_UPDATE_NOW) | bit(
        c.update == UpdatePolicy::Guarded,
        FLAG_GUARDED,
    )
}

/// A flag is set exactly where the column has it.
pub proof fn lemma_flags(c: ColumnV)
    ensures
        (flag_byte(c) & FLAG_NULLABLE != 0) == c.nullable,
        (flag_byte(c) & FLAG_UNIQUE != 0) == c.unique,
        (flag_byte(c) & FLAG_AUTO_INCREMENT != 0) == c.auto_increment,
        (flag_byte(c) & FLAG_ROWVERSION != 0) == c.rowversion,
        (flag_byte(c) & FLAG_ON_UPDATE_NOW != 0) == c.on_update_now,
        (flag_byte(c) & FLAG_GUARDED != 0) == (c.update == UpdatePolicy::Guarded),
{
    let n = bit(c.nullable, FLAG_NULLABLE);
    let u = bit(c.unique, FLAG_UNIQUE);
    let a = bit(c.auto_increment, FLAG_AUTO_INCREMENT);
    let r = bit(c.rowversion, FLAG_ROWVERSION);
    let o = bit(c.on_update_now, FLAG_ON_UPDATE_NOW);
    let g = bit(c.update == UpdatePolicy::Guarded, FLAG_GUARDED);
    assert(((n | u | a | r | o | g) & 1 != 0) == (n == 1) && ((n | u | a | r | o | g) & 2 != 0) == (
    u == 2) && ((n | u | a | r | o | g) & 4 != 0) == (a == 4) && ((n | u | a | r | o | g) & 8 != 0)
        == (r == 8) && ((n | u | a | r | o | g) & 16 != 0) == (o == 16) && ((n | u | a | r | o | g)
        & 32 != 0) == (g == 32)) by (bit_vector)
        requires
            n == 0 || n == 1,
            u == 0 || u == 2,
            a == 0 || a == 4,
            r == 0 || r == 8,
            o == 0 || o == 16,
            g == 0 || g == 32,
    ;
}

/// How many literals a default holds.
pub open spec fn literals_in_default(d: Option<DefaultV>) -> nat {
    match d {
        Some(DefaultV::Value(_)) => 1,
        _ => 0,
    }
}

/// How many literals the columns hold.
pub open spec fn literals_in_columns(cs: Seq<ColumnV>) -> nat
    decreases cs.len(),
{
    if cs.len() == 0 {
        0
    } else {
        literals_in_default(cs[0].default) + literals_in_columns(cs.drop_first())
    }
}

/// How many literals a definition holds.
pub open spec fn literals_in(t: TableV) -> nat {
    literals_in_columns(t.columns) + comparisons_in_all(t.checks)
}

/// The stored form of a default.
pub open spec fn default_form(d: Option<DefaultV>, literals: Seq<Encoded>, at: int) -> Form {
    match d {
        None => byte_form(DEFAULT_NONE),
        Some(DefaultV::Value(_)) => join(byte_form(DEFAULT_VALUE), literal_form(literals, at)),
        Some(DefaultV::Now) => byte_form(DEFAULT_NOW),
        Some(DefaultV::UuidV7) => byte_form(DEFAULT_UUID_V7),
    }
}

/// The stored form of a column, whose literal stands at `at`.
pub open spec fn column_form(c: ColumnV, literals: Seq<Encoded>, at: int) -> Form {
    join(
        text_form(c.name),
        join(
            byte_form(kind_byte(c.kind)),
            join(byte_form(flag_byte(c)), default_form(c.default, literals, at)),
        ),
    )
}

/// The stored form of columns.
pub open spec fn columns_form(cs: Seq<ColumnV>, literals: Seq<Encoded>, at: int) -> Form
    decreases cs.len(),
{
    if cs.len() == 0 {
        Ok(Seq::empty())
    } else {
        join(
            column_form(cs[0], literals, at),
            columns_form(
                cs.drop_first(),
                literals,
                at + literals_in_default(cs[0].default),
            ),
        )
    }
}

/// The stored form of names.
pub open spec fn names_form(names: Seq<Seq<char>>) -> Form
    decreases names.len(),
{
    if names.len() == 0 {
        Ok(Seq::empty())
    } else {
        join(text_form(names[0]), names_form(names.drop_first()))
    }
}

/// Counted names.
pub open spec fn name_list_form(names: Seq<Seq<char>>) -> Form {
    join(count_form(names.len()), names_form(names))
}

/// The stored form of a CHECK, whose literals stand from `at` on.
pub open spec fn check_form(c: CheckV, literals: Seq<Encoded>, at: int) -> Form
    decreases c,
{
    match c {
        CheckV::Cmp { col, op, value } => join(
            byte_form(CHECK_CMP),
            join(text_form(col), join(byte_form(op_byte(op)), literal_form(literals, at))),
        ),
        CheckV::IsNull { col } => join(byte_form(CHECK_IS_NULL), text_form(col)),
        CheckV::IsNotNull { col } => join(byte_form(CHECK_IS_NOT_NULL), text_form(col)),
        CheckV::And(items) => join(
            byte_form(CHECK_AND),
            join(count_form(items.len()), checks_form(items, literals, at)),
        ),
        CheckV::Or(items) => join(
            byte_form(CHECK_OR),
            join(count_form(items.len()), checks_form(items, literals, at)),
        ),
        CheckV::Not(inner) => join(byte_form(CHECK_NOT), check_form(*inner, literals, at)),
    }
}

/// The stored form of CHECKs.
pub open spec fn checks_form(items: Seq<CheckV>, literals: Seq<Encoded>, at: int) -> Form
    decreases items,
{
    if items.len() == 0 {
        Ok(Seq::empty())
    } else {
        join(
            check_form(items[0], literals, at),
            checks_form(items.drop_first(), literals, at + comparisons_in(items[0])),
        )
    }
}

/// A truth value as a byte.
pub open spec fn truth_byte(b: bool) -> u8 {
    if b {
        1
    } else {
        0
    }
}

/// The stored form of an index.
pub open spec fn index_form(x: IndexV) -> Form {
    join(text_form(x.name), join(byte_form(truth_byte(x.unique)), name_list_form(x.columns)))
}

/// The stored form of indexes.
pub open spec fn indexes_form(xs: Seq<IndexV>) -> Form
    decreases xs.len(),
{
    if xs.len() == 0 {
        Ok(Seq::empty())
    } else {
        join(index_form(xs[0]), indexes_form(xs.drop_first()))
    }
}

/// The stored form of a foreign key.
pub open spec fn key_form(k: ForeignKeyV) -> Form {
    join(
        text_form(k.name),
        join(
            name_list_form(k.columns),
            join(
                text_form(k.parent),
                join(
                    name_list_form(k.parent_columns),
                    join(byte_form(action_byte(k.on_delete)), byte_form(action_byte(k.on_update))),
                ),
            ),
        ),
    )
}

/// The stored form of foreign keys.
pub open spec fn keys_form(ks: Seq<ForeignKeyV>) -> Form
    decreases ks.len(),
{
    if ks.len() == 0 {
        Ok(Seq::empty())
    } else {
        join(key_form(ks[0]), keys_form(ks.drop_first()))
    }
}

/// The version that a definition is stored in.
pub open spec fn version_of(t: TableV) -> u8 {
    if t.foreign_keys.len() == 0 {
        VERSION_NO_FOREIGN_KEYS
    } else {
        VERSION
    }
}

/// The foreign keys, counted, where there are any.
pub open spec fn key_section(ks: Seq<ForeignKeyV>) -> Form {
    if ks.len() == 0 {
        Ok(Seq::empty())
    } else {
        join(count_form(ks.len()), keys_form(ks))
    }
}

/// The stored form of a definition: its version, its name, its columns, its
/// primary key, its CHECKs, its indexes and, where it has any, its foreign keys.
pub open spec fn table_form(t: TableV, literals: Seq<Encoded>) -> Form {
    join(byte_form(version_of(t)), join(text_form(t.name), body_form(t, literals)))
}

/// What follows the name of a definition.
pub open spec fn body_form(t: TableV, literals: Seq<Encoded>) -> Form {
    join(
        count_form(t.columns.len()),
        join(columns_form(t.columns, literals, 0), join(name_list_form(t.pk), tail_form(t, literals))),
    )
}

/// What follows the primary key of a definition.
pub open spec fn tail_form(t: TableV, literals: Seq<Encoded>) -> Form {
    join(
        count_form(t.checks.len()),
        join(
            checks_form(t.checks, literals, literals_in_columns(t.columns) as int),
            join(
                join(count_form(t.indexes.len()), indexes_form(t.indexes)),
                key_section(t.foreign_keys),
            ),
        ),
    )
}

/// Whether a form was written behind what was there.
pub open spec fn wrote(r: Result<()>, before: Seq<u8>, after: Seq<u8>, form: Form) -> bool {
    match r {
        Ok(_) => form is Ok && after == before + form->Ok_0,
        Err(e) => form == Err::<Seq<u8>, CatalogErrorV>(e@),
    }
}

pub proof fn lemma_wrote_join(
    b0: Seq<u8>,
    b1: Seq<u8>,
    b2: Seq<u8>,
    f: Form,
    g: Form,
)
    requires
        f is Ok,
        g is Ok,
        b1 == b0 + f->Ok_0,
        b2 == b1 + g->Ok_0,
    ensures
        join(f, g) is Ok,
        b2 == b0 + join(f, g)->Ok_0,
{
    assert(b2 =~= b0 + (f->Ok_0 + g->Ok_0));
}

fn put_byte(out: &mut Vec<u8>, b: u8)
    ensures
        final(out)@ == old(out)@ + byte_form(b)->Ok_0,
{
    out.push(b);
    assert(out@ =~= old(out)@ + seq![b]);
}

fn put_count(out: &mut Vec<u8>, n: usize) -> (r: Result<()>)
    ensures
        wrote(r, old(out)@, final(out)@, count_form(n as nat)),
{
    if n > 0xFFFF {
        return Err(invalid("definition is too large to encode"));
    }
    push_le(out, n as u64, 2);
    Ok(())
}

fn put_blob(out: &mut Vec<u8>, b: &[u8]) -> (r: Result<()>)
    ensures
        wrote(r, old(out)@, final(out)@, blob_form(b@)),
{
    let ghost b0 = out@;
    match put_count(out, b.len()) {
        Ok(_) => {},
        Err(e) => {
            return Err(e);
        },
    }
    let ghost b1 = out@;
    push_all(out, b);
    proof {
        lemma_wrote_join(b0, b1, out@, count_form(b@.len()), Ok(b@));
    }
    Ok(())
}

fn put_text(out: &mut Vec<u8>, s: &str) -> (r: Result<()>)
    ensures
        wrote(r, old(out)@, final(out)@, text_form(s@)),
{
    put_blob(out, s.as_bytes())
}

fn put_literal(out: &mut Vec<u8>, literals: &Vec<Encoded>, k: usize) -> (r: Result<()>)
    requires
        k < literals@.len(),
    ensures
        wrote(r, old(out)@, final(out)@, literal_form(literals@, k as int)),
{
    match &literals[k] {
        Err(e) => Err(CatalogError::Type(e.copy())),
        Ok(b) => put_blob(out, b.as_slice()),
    }
}

fn kind_code(kind: TypeKind) -> (r: u8)
    ensures
        r == kind_byte(kind),
{
    match kind {
        TypeKind::Bool => 1,
        TypeKind::I64 => 2,
        TypeKind::F64 => 3,
        TypeKind::Text => 4,
        TypeKind::Blob => 5,
        TypeKind::Uuid => 6,
        TypeKind::Json => 7,
        TypeKind::Timestamp => 8,
    }
}

fn op_code(op: CmpOp) -> (r: u8)
    ensures
        r == op_byte(op),
{
    match op {
        CmpOp::Eq => 1,
        CmpOp::Ne => 2,
        CmpOp::Lt => 3,
        CmpOp::Lte => 4,
        CmpOp::Gt => 5,
        CmpOp::Gte => 6,
    }
}

fn action_code(a: RefAction) -> (r: u8)
    ensures
        r == action_byte(a),
{
    match a {
        RefAction::Restrict => 0,
        RefAction::Cascade => 1,
        RefAction::SetNull => 2,
    }
}

fn flag(on: bool, b: u8) -> (r: u8)
    ensures
        r == bit(on, b),
{
    if on {
        b
    } else {
        0
    }
}

fn flags_of(c: &ColumnDef) -> (r: u8)
    ensures
        r == flag_byte(c@),
{
    flag(c.nullable, FLAG_NULLABLE) | flag(c.unique, FLAG_UNIQUE) | flag(
        c.auto_increment,
        FLAG_AUTO_INCREMENT,
    ) | flag(c.rowversion, FLAG_ROWVERSION) | flag(c.on_update_now, FLAG_ON_UPDATE_NOW) | flag(
        c.update == UpdatePolicy::Guarded,
        FLAG_GUARDED,
    )
}

fn put_default(
    out: &mut Vec<u8>,
    d: &Option<DefaultSpec>,
    literals: &Vec<Encoded>,
    at: usize,
) -> (r: Result<()>)
    requires
        at + literals_in_default(crate::views::opt(*d)) <= literals@.len(),
    ensures
        wrote(
            r,
            old(out)@,
            final(out)@,
            default_form(crate::views::opt(*d), literals@, at as int),
        ),
{
    let ghost b0 = out@;
    match d {
        None => {
            put_byte(out, DEFAULT_NONE);
            Ok(())
        },
        Some(d) => match d {
            DefaultSpec::Now => {
                put_byte(out, DEFAULT_NOW);
                Ok(())
            },
            DefaultSpec::UuidV7 => {
                put_byte(out, DEFAULT_UUID_V7);
                Ok(())
            },
            DefaultSpec::Value(_) => {
                put_byte(out, DEFAULT_VALUE);
                let ghost b1 = out@;
                let r = put_literal(out, literals, at);
                proof {
                    if r is Ok {
                        lemma_wrote_join(
                            b0,
                            b1,
                            out@,
                            byte_form(DEFAULT_VALUE),
                            literal_form(literals@, at as int),
                        );
                    }
                }
                r
            },
        },
    }
}

fn put_column(out: &mut Vec<u8>, c: &ColumnDef, literals: &Vec<Encoded>, at: usize) -> (r: Result<
    (),
>)
    requires
        at + literals_in_default(c@.default) <= literals@.len(),
    ensures
        wrote(r, old(out)@, final(out)@, column_form(c@, literals@, at as int)),
{
    let ghost b0 = out@;
    match put_text(out, c.name.as_str()) {
        Ok(_) => {},
        Err(e) => {
            return Err(e);
        },
    }
    let ghost b1 = out@;
    put_byte(out, kind_code(c.kind));
    let ghost b2 = out@;
    put_byte(out, flags_of(c));
    let ghost b3 = out@;
    let r = put_default(out, &c.default, literals, at);
    proof {
        if r is Ok {
            let d = default_form(c@.default, literals@, at as int);
            let f = byte_form(flag_byte(c@));
            let k = byte_form(kind_byte(c@.kind));
            lemma_wrote_join(b2, b3, out@, f, d);
            lemma_wrote_join(b1, b2, out@, k, join(f, d));
            lemma_wrote_join(b0, b1, out@, text_form(c@.name), join(k, join(f, d)));
        }
    }
    r
}

fn default_literals(d: &Option<DefaultSpec>) -> (r: usize)
    ensures
        r == literals_in_default(crate::views::opt(*d)),
{
    match d {
        Some(d) => match d {
            DefaultSpec::Value(_) => 1,
            _ => 0,
        },
        None => 0,
    }
}

fn put_columns(out: &mut Vec<u8>, cs: &Vec<ColumnDef>, literals: &Vec<Encoded>) -> (r: (
    Result<()>,
    usize,
))
    requires
        literals_in_columns(views(cs@)) <= literals@.len(),
    ensures
        wrote(r.0, old(out)@, final(out)@, columns_form(views(cs@), literals@, 0)),
        r.0 is Ok ==> r.1 == literals_in_columns(views(cs@)),
{
    let ghost vs = views(cs@);
    let ghost ls = literals@;
    let ghost b0 = out@;
    let ghost mut done: Seq<u8> = Seq::empty();
    let mut at: usize = 0;
    let mut i: usize = 0;
    assert(vs.skip(0) =~= vs);
    assert(out@ =~= b0 + done);
    proof {
        lemma_join_unit(columns_form(vs, ls, 0));
    }
    while i < cs.len()
        invariant
            i <= cs@.len(),
            vs == views(cs@),
            ls == literals@,
            out@ == b0 + done,
            at + literals_in_columns(vs.skip(i as int)) == literals_in_columns(vs),
            literals_in_columns(vs) <= ls.len(),
            columns_form(vs, ls, 0) == join(
                Ok(done),
                columns_form(vs.skip(i as int), ls, at as int),
            ),
        decreases cs@.len() - i,
    {
        let ghost rest = vs.skip(i as int);
        proof {
            assert(rest[0] == cs@[i as int]@);
            assert(rest.drop_first() =~= vs.skip(i + 1));
            lemma_join_assoc(
                Ok(done),
                column_form(rest[0], ls, at as int),
                columns_form(
                    rest.drop_first(),
                    ls,
                    at + literals_in_default(rest[0].default),
                ),
            );
        }
        let ghost b1 = out@;
        match put_column(out, &cs[i], literals, at) {
            Ok(_) => {},
            Err(e) => {
                return (Err(e), at);
            },
        }
        proof {
            let f = column_form(rest[0], ls, at as int)->Ok_0;
            assert(out@ =~= b0 + (done + f));
            done = done + f;
        }
        assert(literals@.len() == literals.len());
        at = at + default_literals(&cs[i].default);
        i = i + 1;
    }
    assert(vs.skip(i as int) =~= Seq::empty());
    assert(done + Seq::empty() =~= done);
    (Ok(()), at)
}

pub proof fn lemma_join_unit(f: Form)
    ensures
        join(Ok(Seq::empty()), f) == f,
        join(f, Ok(Seq::empty())) == f,
{
    if f is Ok {
        assert(Seq::empty() + f->Ok_0 =~= f->Ok_0);
        assert(f->Ok_0 + Seq::empty() =~= f->Ok_0);
    }
}

pub proof fn lemma_join_assoc(a: Form, b: Form, c: Form)
    ensures
        join(a, join(b, c)) == join(join(a, b), c),
{
    if a is Ok && b is Ok && c is Ok {
        assert(a->Ok_0 + (b->Ok_0 + c->Ok_0) =~= (a->Ok_0 + b->Ok_0) + c->Ok_0);
    }
}

fn put_names(out: &mut Vec<u8>, names: &Vec<String>) -> (r: Result<()>)
    ensures
        wrote(r, old(out)@, final(out)@, name_list_form(views(names@))),
{
    let ghost vs = views(names@);
    let ghost start = out@;
    match put_count(out, names.len()) {
        Ok(_) => {},
        Err(e) => {
            return Err(e);
        },
    }
    let ghost b0 = out@;
    let ghost mut done: Seq<u8> = Seq::empty();
    let mut i: usize = 0;
    assert(vs.skip(0) =~= vs);
    assert(out@ =~= b0 + done);
    proof {
        lemma_join_unit(names_form(vs));
    }
    while i < names.len()
        invariant
            i <= names@.len(),
            vs == views(names@),
            count_form(vs.len()) is Ok,
            out@ == b0 + done,
            names_form(vs) == join(Ok(done), names_form(vs.skip(i as int))),
        decreases names@.len() - i,
    {
        let ghost rest = vs.skip(i as int);
        proof {
            assert(rest[0] == names@[i as int]@);
            assert(rest.drop_first() =~= vs.skip(i + 1));
            lemma_join_assoc(Ok(done), text_form(rest[0]), names_form(rest.drop_first()));
        }
        match put_text(out, names[i].as_str()) {
            Ok(_) => {},
            Err(e) => {
                return Err(e);
            },
        }
        proof {
            let f = text_form(rest[0])->Ok_0;
            assert(out@ =~= b0 + (done + f));
            done = done + f;
        }
        i = i + 1;
    }
    proof {
        assert(vs.skip(i as int) =~= Seq::empty());
        assert(done + Seq::empty() =~= done);
        lemma_wrote_join(start, b0, out@, count_form(vs.len()), names_form(vs));
    }
    Ok(())
}

fn put_check(out: &mut Vec<u8>, check: &CheckExpr, literals: &Vec<Encoded>, at: usize) -> (r: (
    Result<()>,
    usize,
))
    requires
        at + comparisons_in(check@) <= literals@.len(),
    ensures
        wrote(r.0, old(out)@, final(out)@, check_form(check@, literals@, at as int)),
        r.0 is Ok ==> r.1 == at + comparisons_in(check@),
    decreases check,
{
    proof {
        check.lemma_parts();
    }
    let ghost b0 = out@;
    match check {
        CheckExpr::Cmp { col, op, value } => {
            put_byte(out, CHECK_CMP);
            let ghost b1 = out@;
            match put_text(out, col.as_str()) {
                Ok(_) => {},
                Err(e) => {
                    return (Err(e), at);
                },
            }
            let ghost b2 = out@;
            put_byte(out, op_code(*op));
            let ghost b3 = out@;
            let r = put_literal(out, literals, at);
            proof {
                assert(literals@.len() == literals.len());
                if r is Ok {
                    let l = literal_form(literals@, at as int);
                    let o = byte_form(op_byte(*op));
                    lemma_wrote_join(b2, b3, out@, o, l);
                    lemma_wrote_join(b1, b2, out@, text_form(col@), join(o, l));
                    lemma_wrote_join(
                        b0,
                        b1,
                        out@,
                        byte_form(CHECK_CMP),
                        join(text_form(col@), join(o, l)),
                    );
                }
            }
            (r, at + 1)
        },
        CheckExpr::IsNull { col } => {
            put_byte(out, CHECK_IS_NULL);
            let ghost b1 = out@;
            let r = put_text(out, col.as_str());
            proof {
                if r is Ok {
                    lemma_wrote_join(b0, b1, out@, byte_form(CHECK_IS_NULL), text_form(col@));
                }
            }
            (r, at)
        },
        CheckExpr::IsNotNull { col } => {
            put_byte(out, CHECK_IS_NOT_NULL);
            let ghost b1 = out@;
            let r = put_text(out, col.as_str());
            proof {
                if r is Ok {
                    lemma_wrote_join(b0, b1, out@, byte_form(CHECK_IS_NOT_NULL), text_form(col@));
                }
            }
            (r, at)
        },
        CheckExpr::And(items) => {
            assert(decreases_to!(check => items));
            put_byte(out, CHECK_AND);
            let ghost b1 = out@;
            let r = put_checks(out, items, literals, at);
            proof {
                if r.0 is Ok {
                    lemma_wrote_join(
                        b0,
                        b1,
                        out@,
                        byte_form(CHECK_AND),
                        join(
                            count_form(items@.len()),
                            checks_form(views(items@), literals@, at as int),
                        ),
                    );
                }
            }
            r
        },
        CheckExpr::Or(items) => {
            assert(decreases_to!(check => items));
            put_byte(out, CHECK_OR);
            let ghost b1 = out@;
            let r = put_checks(out, items, literals, at);
            proof {
                if r.0 is Ok {
                    lemma_wrote_join(
                        b0,
                        b1,
                        out@,
                        byte_form(CHECK_OR),
                        join(
                            count_form(items@.len()),
                            checks_form(views(items@), literals@, at as int),
                        ),
                    );
                }
            }
            r
        },
        CheckExpr::Not(inner) => {
            put_byte(out, CHECK_NOT);
            let ghost b1 = out@;
            let r = put_check(out, inner, literals, at);
            proof {
                if r.0 is Ok {
                    lemma_wrote_join(
                        b0,
                        b1,
                        out@,
                        byte_form(CHECK_NOT),
                        check_form((*inner)@, literals@, at as int),
                    );
                }
            }
            r
        },
    }
}

fn put_checks(out: &mut Vec<u8>, items: &Vec<CheckExpr>, literals: &Vec<Encoded>, at: usize) -> (r:
    (Result<()>, usize))
    requires
        at + comparisons_in_all(views(items@)) <= literals@.len(),
    ensures
        wrote(
            r.0,
            old(out)@,
            final(out)@,
            join(count_form(items@.len()), checks_form(views(items@), literals@, at as int)),
        ),
        r.0 is Ok ==> r.1 == at + comparisons_in_all(views(items@)),
    decreases items,
{
    let ghost vs = views(items@);
    let ghost ls = literals@;
    let ghost start = out@;
    match put_count(out, items.len()) {
        Ok(_) => {},
        Err(e) => {
            return (Err(e), at);
        },
    }
    let ghost b0 = out@;
    let ghost mut done: Seq<u8> = Seq::empty();
    let mut next: usize = at;
    let mut i: usize = 0;
    assert(vs.skip(0) =~= vs);
    assert(out@ =~= b0 + done);
    proof {
        lemma_join_unit(checks_form(vs, ls, at as int));
    }
    while i < items.len()
        invariant
            i <= items@.len(),
            vs == views(items@),
            ls == literals@,
            count_form(vs.len()) is Ok,
            out@ == b0 + done,
            next + comparisons_in_all(vs.skip(i as int)) == at + comparisons_in_all(vs),
            at + comparisons_in_all(vs) <= ls.len(),
            checks_form(vs, ls, at as int) == join(
                Ok(done),
                checks_form(vs.skip(i as int), ls, next as int),
            ),
        decreases items@.len() - i,
    {
        let ghost rest = vs.skip(i as int);
        proof {
            assert(rest[0] == items@[i as int]@);
            assert(rest.drop_first() =~= vs.skip(i + 1));
            assert(decreases_to!(items => items@[i as int]));
            lemma_join_assoc(
                Ok(done),
                check_form(rest[0], ls, next as int),
                checks_form(rest.drop_first(), ls, next + comparisons_in(rest[0])),
            );
        }
        let (r, after) = put_check(out, &items[i], literals, next);
        match r {
            Ok(_) => {},
            Err(e) => {
                return (Err(e), at);
            },
        }
        proof {
            let f = check_form(rest[0], ls, next as int)->Ok_0;
            assert(out@ =~= b0 + (done + f));
            done = done + f;
        }
        next = after;
        i = i + 1;
    }
    proof {
        assert(vs.skip(i as int) =~= Seq::empty());
        assert(done + Seq::empty() =~= done);
        lemma_wrote_join(
            start,
            b0,
            out@,
            count_form(vs.len()),
            checks_form(vs, ls, at as int),
        );
    }
    (Ok(()), next)
}

fn put_index(out: &mut Vec<u8>, x: &IndexDef) -> (r: Result<()>)
    ensures
        wrote(r, old(out)@, final(out)@, index_form(x@)),
{
    let ghost b0 = out@;
    match put_text(out, x.name.as_str()) {
        Ok(_) => {},
        Err(e) => {
            return Err(e);
        },
    }
    let ghost b1 = out@;
    put_byte(
        out,
        if x.unique {
            1
        } else {
            0
        },
    );
    let ghost b2 = out@;
    let r = put_names(out, &x.columns);
    proof {
        if r is Ok {
            let u = byte_form(truth_byte(x@.unique));
            let n = name_list_form(x@.columns);
            lemma_wrote_join(b1, b2, out@, u, n);
            lemma_wrote_join(b0, b1, out@, text_form(x@.name), join(u, n));
        }
    }
    r
}

fn put_indexes(out: &mut Vec<u8>, xs: &Vec<IndexDef>) -> (r: Result<()>)
    ensures
        wrote(
            r,
            old(out)@,
            final(out)@,
            join(count_form(xs@.len()), indexes_form(views(xs@))),
        ),
{
    let ghost vs = views(xs@);
    let ghost start = out@;
    match put_count(out, xs.len()) {
        Ok(_) => {},
        Err(e) => {
            return Err(e);
        },
    }
    let ghost b0 = out@;
    let ghost mut done: Seq<u8> = Seq::empty();
    let mut i: usize = 0;
    assert(vs.skip(0) =~= vs);
    assert(out@ =~= b0 + done);
    proof {
        lemma_join_unit(indexes_form(vs));
    }
    while i < xs.len()
        invariant
            i <= xs@.len(),
            vs == views(xs@),
            count_form(vs.len()) is Ok,
            out@ == b0 + done,
            indexes_form(vs) == join(Ok(done), indexes_form(vs.skip(i as int))),
        decreases xs@.len() - i,
    {
        let ghost rest = vs.skip(i as int);
        proof {
            assert(rest[0] == xs@[i as int]@);
            assert(rest.drop_first() =~= vs.skip(i + 1));
            lemma_join_assoc(Ok(done), index_form(rest[0]), indexes_form(rest.drop_first()));
        }
        match put_index(out, &xs[i]) {
            Ok(_) => {},
            Err(e) => {
                return Err(e);
            },
        }
        proof {
            let f = index_form(rest[0])->Ok_0;
            assert(out@ =~= b0 + (done + f));
            done = done + f;
        }
        i = i + 1;
    }
    proof {
        assert(vs.skip(i as int) =~= Seq::empty());
        assert(done + Seq::empty() =~= done);
        lemma_wrote_join(start, b0, out@, count_form(vs.len()), indexes_form(vs));
    }
    Ok(())
}

fn put_key(out: &mut Vec<u8>, k: &ForeignKey) -> (r: Result<()>)
    ensures
        wrote(r, old(out)@, final(out)@, key_form(k@)),
{
    let ghost b0 = out@;
    match put_text(out, k.name.as_str()) {
        Ok(_) => {},
        Err(e) => {
            return Err(e);
        },
    }
    let ghost b1 = out@;
    match put_names(out, &k.columns) {
        Ok(_) => {},
        Err(e) => {
            return Err(e);
        },
    }
    let ghost b2 = out@;
    match put_text(out, k.parent.as_str()) {
        Ok(_) => {},
        Err(e) => {
            return Err(e);
        },
    }
    let ghost b3 = out@;
    match put_names(out, &k.parent_columns) {
        Ok(_) => {},
        Err(e) => {
            return Err(e);
        },
    }
    let ghost b4 = out@;
    put_byte(out, action_code(k.on_delete));
    let ghost b5 = out@;
    put_byte(out, action_code(k.on_update));
    proof {
        let d = byte_form(action_byte(k@.on_delete));
        let u = byte_form(action_byte(k@.on_update));
        let pc = name_list_form(k@.parent_columns);
        let p = text_form(k@.parent);
        let c = name_list_form(k@.columns);
        lemma_wrote_join(b4, b5, out@, d, u);
        lemma_wrote_join(b3, b4, out@, pc, join(d, u));
        lemma_wrote_join(b2, b3, out@, p, join(pc, join(d, u)));
        lemma_wrote_join(b1, b2, out@, c, join(p, join(pc, join(d, u))));
        lemma_wrote_join(b0, b1, out@, text_form(k@.name), join(c, join(p, join(pc, join(d, u)))));
    }
    Ok(())
}

fn put_keys(out: &mut Vec<u8>, ks: &Vec<ForeignKey>) -> (r: Result<()>)
    ensures
        wrote(r, old(out)@, final(out)@, join(count_form(ks@.len()), keys_form(views(ks@)))),
{
    let ghost vs = views(ks@);
    let ghost start = out@;
    match put_count(out, ks.len()) {
        Ok(_) => {},
        Err(e) => {
            return Err(e);
        },
    }
    let ghost b0 = out@;
    let ghost mut done: Seq<u8> = Seq::empty();
    let mut i: usize = 0;
    assert(vs.skip(0) =~= vs);
    assert(out@ =~= b0 + done);
    proof {
        lemma_join_unit(keys_form(vs));
    }
    while i < ks.len()
        invariant
            i <= ks@.len(),
            vs == views(ks@),
            count_form(vs.len()) is Ok,
            out@ == b0 + done,
            keys_form(vs) == join(Ok(done), keys_form(vs.skip(i as int))),
        decreases ks@.len() - i,
    {
        let ghost rest = vs.skip(i as int);
        proof {
            assert(rest[0] == ks@[i as int]@);
            assert(rest.drop_first() =~= vs.skip(i + 1));
            lemma_join_assoc(Ok(done), key_form(rest[0]), keys_form(rest.drop_first()));
        }
        match put_key(out, &ks[i]) {
            Ok(_) => {},
            Err(e) => {
                return Err(e);
            },
        }
        proof {
            let f = key_form(rest[0])->Ok_0;
            assert(out@ =~= b0 + (done + f));
            done = done + f;
        }
        i = i + 1;
    }
    proof {
        assert(vs.skip(i as int) =~= Seq::empty());
        assert(done + Seq::empty() =~= done);
        lemma_wrote_join(start, b0, out@, count_form(vs.len()), keys_form(vs));
    }
    Ok(())
}

/// The literals of a check, in order.
pub open spec fn check_literals(c: CheckV) -> Seq<ValueV>
    decreases c,
{
    match c {
        CheckV::Cmp { col, op, value } => seq![value],
        CheckV::IsNull { .. } => Seq::empty(),
        CheckV::IsNotNull { .. } => Seq::empty(),
        CheckV::And(items) => checks_literals(items),
        CheckV::Or(items) => checks_literals(items),
        CheckV::Not(inner) => check_literals(*inner),
    }
}

/// The literals of checks, in order.
pub open spec fn checks_literals(items: Seq<CheckV>) -> Seq<ValueV>
    decreases items,
{
    if items.len() == 0 {
        Seq::empty()
    } else {
        check_literals(items[0]) + checks_literals(items.drop_first())
    }
}

/// The literal of a default, if it is one.
pub open spec fn default_literal(d: Option<DefaultV>) -> Seq<ValueV> {
    match d {
        Some(DefaultV::Value(v)) => seq![v],
        _ => Seq::empty(),
    }
}

/// The literals of columns, in order.
pub open spec fn columns_literals(cs: Seq<ColumnV>) -> Seq<ValueV>
    decreases cs.len(),
{
    if cs.len() == 0 {
        Seq::empty()
    } else {
        default_literal(cs[0].default) + columns_literals(cs.drop_first())
    }
}

/// The literals embedded in a definition, in the order in which they stand in its
/// stored form.
pub open spec fn literals_of(t: TableV) -> Seq<ValueV> {
    columns_literals(t.columns) + checks_literals(t.checks)
}

pub proof fn lemma_check_literals_len(c: CheckV)
    ensures
        check_literals(c).len() == comparisons_in(c),
    decreases c,
{
    match c {
        CheckV::And(items) => lemma_checks_literals_len(items),
        CheckV::Or(items) => lemma_checks_literals_len(items),
        CheckV::Not(inner) => lemma_check_literals_len(*inner),
        _ => {},
    }
}

pub proof fn lemma_checks_literals_len(items: Seq<CheckV>)
    ensures
        checks_literals(items).len() == comparisons_in_all(items),
    decreases items,
{
    if items.len() > 0 {
        lemma_check_literals_len(items[0]);
        lemma_checks_literals_len(items.drop_first());
    }
}

pub proof fn lemma_columns_literals_len(cs: Seq<ColumnV>)
    ensures
        columns_literals(cs).len() == literals_in_columns(cs),
    decreases cs.len(),
{
    if cs.len() > 0 {
        lemma_columns_literals_len(cs.drop_first());
    }
}

fn list_check(check: &CheckExpr, out: &mut Vec<Value>)
    ensures
        views(final(out)@) == views(old(out)@) + check_literals(check@),
    decreases check,
{
    proof {
        check.lemma_parts();
    }
    match check {
        CheckExpr::Cmp { value, .. } => {
            out.push(value.copy());
            assert(views(out@) =~= views(old(out)@) + seq![value@]);
        },
        CheckExpr::IsNull { .. } => {
            assert(views(out@) + Seq::empty() =~= views(out@));
        },
        CheckExpr::IsNotNull { .. } => {
            assert(views(out@) + Seq::empty() =~= views(out@));
        },
        CheckExpr::And(items) => {
            assert(decreases_to!(check => items));
            list_checks(items, out);
        },
        CheckExpr::Or(items) => {
            assert(decreases_to!(check => items));
            list_checks(items, out);
        },
        CheckExpr::Not(inner) => {
            list_check(inner, out);
        },
    }
}

fn list_checks(items: &Vec<CheckExpr>, out: &mut Vec<Value>)
    ensures
        views(final(out)@) == views(old(out)@) + checks_literals(views(items@)),
    decreases items,
{
    let ghost vs = views(items@);
    let ghost start = views(out@);
    let mut i: usize = 0;
    assert(vs.skip(0) =~= vs);
    while i < items.len()
        invariant
            i <= items@.len(),
            vs == views(items@),
            views(out@) + checks_literals(vs.skip(i as int)) == start + checks_literals(vs),
        decreases items@.len() - i,
    {
        let ghost before = views(out@);
        let ghost rest = vs.skip(i as int);
        proof {
            assert(rest[0] == items@[i as int]@);
            assert(rest.drop_first() =~= vs.skip(i + 1));
            assert(decreases_to!(items => items@[i as int]));
        }
        list_check(&items[i], out);
        i = i + 1;
        assert(before + (check_literals(rest[0]) + checks_literals(rest.drop_first()))
            =~= views(out@) + checks_literals(rest.drop_first()));
    }
    assert(vs.skip(i as int) =~= Seq::empty());
    assert(views(out@) + Seq::empty() =~= views(out@));
}

/// The literals embedded in a definition, in the order in which they stand in its
/// stored form.
pub fn table_literals(def: &TableDef) -> (r: Vec<Value>)
    ensures
        views(r@) == literals_of(def@),
        r@.len() == literals_in(def@),
{
    let ghost vs = def@.columns;
    let mut out: Vec<Value> = Vec::new();
    let mut i: usize = 0;
    assert(vs.skip(0) =~= vs);
    assert(views(out@) + columns_literals(vs) =~= columns_literals(vs));
    while i < def.columns.len()
        invariant
            i <= def.columns@.len(),
            vs == views(def.columns@),
            views(out@) + columns_literals(vs.skip(i as int)) == columns_literals(vs),
        decreases def.columns@.len() - i,
    {
        let ghost before = views(out@);
        let ghost rest = vs.skip(i as int);
        proof {
            assert(rest[0] == def.columns@[i as int]@);
            assert(rest.drop_first() =~= vs.skip(i + 1));
        }
        if let Some(d) = &def.columns[i].default {
            if let DefaultSpec::Value(v) = d {
                out.push(v.copy());
            }
        }
        i = i + 1;
        assert(before + default_literal(rest[0].default) =~= views(out@));
        assert(before + (default_literal(rest[0].default) + columns_literals(rest.drop_first()))
            =~= views(out@) + columns_literals(rest.drop_first()));
    }
    assert(vs.skip(i as int) =~= Seq::empty());
    assert(views(out@) + Seq::empty() =~= views(out@));
    list_checks(&def.checks, &mut out);
    proof {
        lemma_columns_literals_len(def@.columns);
        lemma_checks_literals_len(def@.checks);
        assert(views(out@).len() == out@.len());
    }
    out
}

/// Encode a table definition for storage in the catalog tree. `literals` holds
/// the encodings of its literals, in order.
pub fn encode_table(def: &TableDef, literals: &Vec<Encoded>) -> (r: Result<Vec<u8>>)
    requires
        literals@.len() == literals_in(def@),
    ensures
        match r {
            Ok(b) => table_form(def@, literals@) == Ok::<Seq<u8>, CatalogErrorV>(b@),
            Err(e) => table_form(def@, literals@) == Err::<Seq<u8>, CatalogErrorV>(e@),
        },
{
    let ghost t = def@;
    let ghost ls = literals@;
    let mut out: Vec<u8> = Vec::new();
    let ghost b0 = out@;
    let version: u8 = if def.foreign_keys.len() == 0 {
        VERSION_NO_FOREIGN_KEYS
    } else {
        VERSION
    };
    put_byte(&mut out, version);
    let ghost b1 = out@;
    match put_text(&mut out, def.name.as_str()) {
        Ok(_) => {},
        Err(e) => {
            return Err(e);
        },
    }
    let ghost b2 = out@;
    match put_count(&mut out, def.columns.len()) {
        Ok(_) => {},
        Err(e) => {
            return Err(e);
        },
    }
    let ghost b3 = out@;
    let (r, at) = put_columns(&mut out, &def.columns, literals);
    match r {
        Ok(_) => {},
        Err(e) => {
            return Err(e);
        },
    }
    let ghost b4 = out@;
    match put_names(&mut out, &def.pk) {
        Ok(_) => {},
        Err(e) => {
            return Err(e);
        },
    }
    let ghost b5 = out@;
    let ghost cc = count_form(t.checks.len());
    let ghost cf = checks_form(t.checks, ls, literals_in_columns(t.columns) as int);
    let ghost xf = join(count_form(t.indexes.len()), indexes_form(t.indexes));
    let ghost kf = key_section(t.foreign_keys);
    proof {
        lemma_join_assoc(cc, cf, join(xf, kf));
    }
    let (r, _) = put_checks(&mut out, &def.checks, literals, at);
    match r {
        Ok(_) => {},
        Err(e) => {
            return Err(e);
        },
    }
    let ghost b6 = out@;
    match put_indexes(&mut out, &def.indexes) {
        Ok(_) => {},
        Err(e) => {
            return Err(e);
        },
    }
    let ghost b7 = out@;
    if def.foreign_keys.len() > 0 {
        match put_keys(&mut out, &def.foreign_keys) {
            Ok(_) => {},
            Err(e) => {
                return Err(e);
            },
        }
    }
    assert(wrote(Ok(()), b7, out@, kf)) by {
        assert(b7 + Seq::<u8>::empty() =~= b7);
    }
    proof {
        lemma_wrote_join(b6, b7, out@, xf, kf);
        lemma_wrote_join(b5, b6, out@, join(cc, cf), join(xf, kf));
        let pf = name_list_form(t.pk);
        let tf = tail_form(t, ls);
        assert(tf == join(join(cc, cf), join(xf, kf)));
        lemma_wrote_join(b4, b5, out@, pf, tf);
        let lf = columns_form(t.columns, ls, 0);
        lemma_wrote_join(b3, b4, out@, lf, join(pf, tf));
        let nf = count_form(t.columns.len());
        lemma_wrote_join(b2, b3, out@, nf, join(lf, join(pf, tf)));
        let bf = body_form(t, ls);
        lemma_wrote_join(b1, b2, out@, text_form(t.name), bf);
        lemma_wrote_join(b0, b1, out@, byte_form(version), join(text_form(t.name), bf));
        assert(out@ =~= table_form(t, ls)->Ok_0);
    }
    Ok(out)
}

} // verus!
