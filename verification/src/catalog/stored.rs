//! Stored definitions are read back as they were written.

use vstd::prelude::*;
use vstd::utf8::{encode_utf8, encode_utf8_decode_utf8, encode_utf8_valid_utf8};
use super::check::{check_error, checks_error, comparisons_in, comparisons_in_all, MAX_CHECK_DEPTH};
use super::codec::{
    action_of, kind_of, op_of,
    read_blob, read_body, read_byte, read_check, read_checks, read_column, read_columns, read_count,
    read_default, read_index, read_index_list, read_indexes, read_key, read_key_list, read_keys,
    read_literal, read_names, read_table, read_text, read_texts, Left, Literals, Read,
};
use super::error::CatalogCorruption;
use super::form::{
    action_byte, blob_form, body_form, byte_form, check_form, check_literals, checks_form,
    checks_literals, column_form, columns_form, columns_literals, count_form, default_form,
    default_literal, flag_byte, index_form, indexes_form, join, key_form, key_section, keys_form,
    kind_byte, lemma_check_literals_len, lemma_checks_literals_len, lemma_columns_literals_len, lemma_flags,
    literal_form, literals_in, literals_in_columns, literals_in_default, literals_of,
    name_list_form, names_form, op_byte, table_form, tail_form, text_form, truth_byte,
    version_of, Encoded, Form, CHECK_AND, CHECK_CMP, CHECK_IS_NOT_NULL, CHECK_IS_NULL, CHECK_NOT,
    CHECK_OR,
};
use super::schema::{
    CheckV, CmpOp, ColumnV, DefaultV, ForeignKeyV, IndexV, RefAction, TableV,
};
use crate::bytes::{le_bytes, lemma_le_bytes_len, lemma_le_nat_of_le_bytes, lemma_pow256_values};
use crate::index::encoded_view;
use crate::value::{TypeKind, ValueV};

verus! {

/// How deep a CHECK nests.
pub open spec fn depth_of(c: CheckV) -> nat
    decreases c,
{
    match c {
        CheckV::And(items) => 1 + depth_of_all(items),
        CheckV::Or(items) => 1 + depth_of_all(items),
        CheckV::Not(inner) => 1 + depth_of(*inner),
        _ => 0,
    }
}

/// How deep CHECKs nest.
pub open spec fn depth_of_all(items: Seq<CheckV>) -> nat
    decreases items,
{
    if items.len() == 0 {
        0
    } else {
        let a = depth_of(items[0]);
        let b = depth_of_all(items.drop_first());
        if a >= b {
            a
        } else {
            b
        }
    }
}

/// Whether the literals known so far are the first ones of `all`.
pub open spec fn first_of(known: Literals, all: Seq<ValueV>) -> bool {
    known.len() <= all.len() && forall|i: int|
        0 <= i < known.len() ==> #[trigger] known[i] == Some(all[i])
}

/// Whether reading gave `v` and its `n` literals, or asked for the first of them
/// that is not known.
spec fn back<T>(
    r: Read<T>,
    v: T,
    tail: Seq<u8>,
    met: nat,
    n: nat,
    known: Literals,
    enc: Seq<Encoded>,
) -> bool {
    if met + n <= known.len() {
        r == Read::Got(v, Left { bytes: tail, met: met + n })
    } else {
        r == Read::<T>::Wants(encoded_view(enc[known.len() as int])->Ok_0)
    }
}

proof fn lemma_cut(a: Form, b: Form, tail: Seq<u8>)
    requires
        join(a, b) is Ok,
    ensures
        a is Ok,
        b is Ok,
        join(a, b)->Ok_0 + tail == a->Ok_0 + (b->Ok_0 + tail),
{
    assert((a->Ok_0 + b->Ok_0) + tail =~= a->Ok_0 + (b->Ok_0 + tail));
}

proof fn lemma_byte(b: u8, tail: Seq<u8>, met: nat)
    ensures
        read_byte(Left { bytes: byte_form(b)->Ok_0 + tail, met }) == Read::Got(
            b,
            Left { bytes: tail, met },
        ),
{
    assert((seq![b] + tail).skip(1) =~= tail);
}

proof fn lemma_count(n: nat, tail: Seq<u8>, met: nat)
    requires
        count_form(n) is Ok,
    ensures
        read_count(Left { bytes: count_form(n)->Ok_0 + tail, met }) == Read::Got(
            n,
            Left { bytes: tail, met },
        ),
{
    let c = le_bytes(n, 2);
    lemma_le_bytes_len(n, 2);
    lemma_pow256_values();
    lemma_le_nat_of_le_bytes(n, 2);
    assert((c + tail).take(2) =~= c);
    assert((c + tail).skip(2) =~= tail);
}

proof fn lemma_blob(b: Seq<u8>, tail: Seq<u8>, met: nat)
    requires
        blob_form(b) is Ok,
    ensures
        read_blob(Left { bytes: blob_form(b)->Ok_0 + tail, met }) == Read::Got(
            b,
            Left { bytes: tail, met },
        ),
{
    lemma_cut(count_form(b.len()), Ok(b), tail);
    lemma_count(b.len(), b + tail, met);
    assert((b + tail).take(b.len() as int) =~= b);
    assert((b + tail).skip(b.len() as int) =~= tail);
}

proof fn lemma_text(s: Seq<char>, tail: Seq<u8>, met: nat)
    requires
        text_form(s) is Ok,
    ensures
        read_text(Left { bytes: text_form(s)->Ok_0 + tail, met }) == Read::Got(
            s,
            Left { bytes: tail, met },
        ),
{
    lemma_blob(encode_utf8(s), tail, met);
    encode_utf8_valid_utf8(s);
    encode_utf8_decode_utf8(s);
}

proof fn lemma_literal(
    v: ValueV,
    tail: Seq<u8>,
    met: nat,
    known: Literals,
    enc: Seq<Encoded>,
    all: Seq<ValueV>,
)
    requires
        literal_form(enc, met as int) is Ok,
        met <= known.len(),
        first_of(known, all),
        met < all.len(),
        all[met as int] == v,
    ensures
        back(
            read_literal(Left { bytes: literal_form(enc, met as int)->Ok_0 + tail, met }, known),
            v,
            tail,
            met,
            1,
            known,
            enc,
        ),
{
    lemma_blob(encoded_view(enc[met as int])->Ok_0, tail, met);
    if met < known.len() {
        assert(known[met as int] == Some(all[met as int]));
    }
}

proof fn lemma_default(
    d: Option<DefaultV>,
    tail: Seq<u8>,
    met: nat,
    known: Literals,
    enc: Seq<Encoded>,
    all: Seq<ValueV>,
)
    requires
        default_form(d, enc, met as int) is Ok,
        met <= known.len(),
        first_of(known, all),
        met + literals_in_default(d) <= all.len(),
        all.subrange(met as int, (met + literals_in_default(d)) as int) == default_literal(d),
    ensures
        back(
            read_default(Left { bytes: default_form(d, enc, met as int)->Ok_0 + tail, met }, known),
            d,
            tail,
            met,
            literals_in_default(d),
            known,
            enc,
        ),
{
    match d {
        None => lemma_byte(0, tail, met),
        Some(DefaultV::Now) => lemma_byte(2, tail, met),
        Some(DefaultV::UuidV7) => lemma_byte(3, tail, met),
        Some(DefaultV::Value(v)) => {
            let l = literal_form(enc, met as int);
            lemma_cut(byte_form(1), l, tail);
            lemma_byte(1, l->Ok_0 + tail, met);
            assert(all.subrange(met as int, met as int + 1)[0] == all[met as int]);
            assert(default_literal(d)[0] == v);
            lemma_literal(v, tail, met, known, enc, all);
        },
    }
}

proof fn lemma_column(
    c: ColumnV,
    tail: Seq<u8>,
    met: nat,
    known: Literals,
    enc: Seq<Encoded>,
    all: Seq<ValueV>,
)
    requires
        column_form(c, enc, met as int) is Ok,
        met <= known.len(),
        first_of(known, all),
        met + literals_in_default(c.default) <= all.len(),
        all.subrange(met as int, (met + literals_in_default(c.default)) as int)
            == default_literal(c.default),
    ensures
        back(
            read_column(Left { bytes: column_form(c, enc, met as int)->Ok_0 + tail, met }, known),
            c,
            tail,
            met,
            literals_in_default(c.default),
            known,
            enc,
        ),
{
    let d = default_form(c.default, enc, met as int);
    let f = byte_form(flag_byte(c));
    let k = byte_form(kind_byte(c.kind));
    lemma_cut(text_form(c.name), join(k, join(f, d)), tail);
    lemma_cut(k, join(f, d), tail);
    lemma_cut(f, d, tail);
    lemma_text(c.name, join(k, join(f, d))->Ok_0 + tail, met);
    lemma_byte(kind_byte(c.kind), join(f, d)->Ok_0 + tail, met);
    lemma_byte(flag_byte(c), d->Ok_0 + tail, met);
    lemma_flags(c);
    lemma_default(c.default, tail, met, known, enc, all);
}

proof fn lemma_columns(
    cs: Seq<ColumnV>,
    tail: Seq<u8>,
    met: nat,
    known: Literals,
    enc: Seq<Encoded>,
    all: Seq<ValueV>,
)
    requires
        columns_form(cs, enc, met as int) is Ok,
        met <= known.len(),
        first_of(known, all),
        met + literals_in_columns(cs) <= all.len(),
        all.subrange(met as int, (met + literals_in_columns(cs)) as int) == columns_literals(cs),
    ensures
        back(
            read_columns(
                Left { bytes: columns_form(cs, enc, met as int)->Ok_0 + tail, met },
                cs.len(),
                known,
            ),
            cs,
            tail,
            met,
            literals_in_columns(cs),
            known,
            enc,
        ),
    decreases cs.len(),
{
    if cs.len() == 0 {
        assert(Seq::<u8>::empty() + tail =~= tail);
        assert(cs =~= Seq::empty());
    } else {
        let c = cs[0];
        let rest = cs.drop_first();
        let n1 = literals_in_default(c.default);
        let n2 = literals_in_columns(rest);
        let f = column_form(c, enc, met as int);
        let g = columns_form(rest, enc, met as int + n1);
        lemma_cut(f, g, tail);
        lemma_columns_literals_len(rest);
        let sub = all.subrange(met as int, (met + n1 + n2) as int);
        assert(all.subrange(met as int, (met + n1) as int) =~= sub.take(n1 as int));
        assert(sub.take(n1 as int) =~= default_literal(c.default));
        assert(all.subrange((met + n1) as int, (met + n1 + n2) as int) =~= sub.skip(n1 as int));
        assert(sub.skip(n1 as int) =~= columns_literals(rest));
        lemma_column(c, g->Ok_0 + tail, met, known, enc, all);
        if met + n1 <= known.len() {
            lemma_columns(rest, tail, met + n1, known, enc, all);
            assert(seq![c] + rest =~= cs);
        }
    }
}

proof fn lemma_texts(names: Seq<Seq<char>>, tail: Seq<u8>, met: nat)
    requires
        names_form(names) is Ok,
    ensures
        read_texts(Left { bytes: names_form(names)->Ok_0 + tail, met }, names.len()) == Read::Got(
            names,
            Left { bytes: tail, met },
        ),
    decreases names.len(),
{
    if names.len() == 0 {
        assert(Seq::<u8>::empty() + tail =~= tail);
        assert(names =~= Seq::empty());
    } else {
        let rest = names.drop_first();
        lemma_cut(text_form(names[0]), names_form(rest), tail);
        lemma_text(names[0], names_form(rest)->Ok_0 + tail, met);
        lemma_texts(rest, tail, met);
        assert(seq![names[0]] + rest =~= names);
    }
}

proof fn lemma_names(names: Seq<Seq<char>>, tail: Seq<u8>, met: nat)
    requires
        name_list_form(names) is Ok,
    ensures
        read_names(Left { bytes: name_list_form(names)->Ok_0 + tail, met }) == Read::Got(
            names,
            Left { bytes: tail, met },
        ),
{
    lemma_cut(count_form(names.len()), names_form(names), tail);
    lemma_count(names.len(), names_form(names)->Ok_0 + tail, met);
    lemma_texts(names, tail, met);
}

#[verifier::spinoff_prover]
#[verifier::rlimit(40)]
proof fn lemma_check(
    c: CheckV,
    depth: nat,
    tail: Seq<u8>,
    met: nat,
    known: Literals,
    enc: Seq<Encoded>,
    all: Seq<ValueV>,
)
    requires
        check_form(c, enc, met as int) is Ok,
        depth + depth_of(c) <= MAX_CHECK_DEPTH,
        met <= known.len(),
        first_of(known, all),
        met + comparisons_in(c) <= all.len(),
        all.subrange(met as int, (met + comparisons_in(c)) as int) == check_literals(c),
    ensures
        back(
            read_check(
                Left { bytes: check_form(c, enc, met as int)->Ok_0 + tail, met },
                depth,
                known,
            ),
            c,
            tail,
            met,
            comparisons_in(c),
            known,
            enc,
        ),
    decreases c,
{
    match c {
        CheckV::Cmp { col, op, value } => {
            let l = literal_form(enc, met as int);
            let o = byte_form(op_byte(op));
            lemma_cut(byte_form(CHECK_CMP), join(text_form(col), join(o, l)), tail);
            lemma_cut(text_form(col), join(o, l), tail);
            lemma_cut(o, l, tail);
            lemma_byte(CHECK_CMP, join(text_form(col), join(o, l))->Ok_0 + tail, met);
            lemma_text(col, join(o, l)->Ok_0 + tail, met);
            lemma_byte(op_byte(op), l->Ok_0 + tail, met);
            assert(all.subrange(met as int, met as int + 1)[0] == all[met as int]);
            assert(check_literals(c)[0] == value);
            lemma_literal(value, tail, met, known, enc, all);
        },
        CheckV::IsNull { col } => {
            lemma_cut(byte_form(CHECK_IS_NULL), text_form(col), tail);
            lemma_byte(CHECK_IS_NULL, text_form(col)->Ok_0 + tail, met);
            lemma_text(col, tail, met);
        },
        CheckV::IsNotNull { col } => {
            lemma_cut(byte_form(CHECK_IS_NOT_NULL), text_form(col), tail);
            lemma_byte(CHECK_IS_NOT_NULL, text_form(col)->Ok_0 + tail, met);
            lemma_text(col, tail, met);
        },
        CheckV::And(items) => {
            let n = count_form(items.len());
            let f = checks_form(items, enc, met as int);
            lemma_cut(byte_form(CHECK_AND), join(n, f), tail);
            lemma_cut(n, f, tail);
            lemma_byte(CHECK_AND, join(n, f)->Ok_0 + tail, met);
            lemma_count(items.len(), f->Ok_0 + tail, met);
            lemma_checks(items, depth + 1, tail, met, known, enc, all);
        },
        CheckV::Or(items) => {
            let n = count_form(items.len());
            let f = checks_form(items, enc, met as int);
            lemma_cut(byte_form(CHECK_OR), join(n, f), tail);
            lemma_cut(n, f, tail);
            lemma_byte(CHECK_OR, join(n, f)->Ok_0 + tail, met);
            lemma_count(items.len(), f->Ok_0 + tail, met);
            lemma_checks(items, depth + 1, tail, met, known, enc, all);
        },
        CheckV::Not(inner) => {
            let f = check_form(*inner, enc, met as int);
            lemma_cut(byte_form(CHECK_NOT), f, tail);
            lemma_byte(CHECK_NOT, f->Ok_0 + tail, met);
            lemma_check(*inner, depth + 1, tail, met, known, enc, all);
        },
    }
}

proof fn lemma_checks(
    items: Seq<CheckV>,
    depth: nat,
    tail: Seq<u8>,
    met: nat,
    known: Literals,
    enc: Seq<Encoded>,
    all: Seq<ValueV>,
)
    requires
        checks_form(items, enc, met as int) is Ok,
        depth + depth_of_all(items) <= MAX_CHECK_DEPTH || items.len() == 0,
        met <= known.len(),
        first_of(known, all),
        met + comparisons_in_all(items) <= all.len(),
        all.subrange(met as int, (met + comparisons_in_all(items)) as int) == checks_literals(
            items,
        ),
    ensures
        back(
            read_checks(
                Left { bytes: checks_form(items, enc, met as int)->Ok_0 + tail, met },
                items.len(),
                depth,
                known,
            ),
            items,
            tail,
            met,
            comparisons_in_all(items),
            known,
            enc,
        ),
    decreases items,
{
    if items.len() == 0 {
        assert(Seq::<u8>::empty() + tail =~= tail);
        assert(items =~= Seq::empty());
    } else {
        let c = items[0];
        let rest = items.drop_first();
        let n1 = comparisons_in(c);
        let n2 = comparisons_in_all(rest);
        let f = check_form(c, enc, met as int);
        let g = checks_form(rest, enc, met as int + n1);
        lemma_cut(f, g, tail);
        lemma_check_literals_len(c);
        lemma_checks_literals_len(rest);
        let sub = all.subrange(met as int, (met + n1 + n2) as int);
        assert(all.subrange(met as int, (met + n1) as int) =~= sub.take(n1 as int));
        assert(sub.take(n1 as int) =~= check_literals(c));
        assert(all.subrange((met + n1) as int, (met + n1 + n2) as int) =~= sub.skip(n1 as int));
        assert(sub.skip(n1 as int) =~= checks_literals(rest));
        lemma_check(c, depth, g->Ok_0 + tail, met, known, enc, all);
        if met + n1 <= known.len() {
            lemma_checks(rest, depth, tail, met + n1, known, enc, all);
            assert(seq![c] + rest =~= items);
        }
    }
}

proof fn lemma_index(x: IndexV, tail: Seq<u8>, met: nat)
    requires
        index_form(x) is Ok,
    ensures
        read_index(Left { bytes: index_form(x)->Ok_0 + tail, met }) == Read::Got(
            x,
            Left { bytes: tail, met },
        ),
{
    let u = byte_form(truth_byte(x.unique));
    let n = name_list_form(x.columns);
    lemma_cut(text_form(x.name), join(u, n), tail);
    lemma_cut(u, n, tail);
    lemma_text(x.name, join(u, n)->Ok_0 + tail, met);
    lemma_byte(truth_byte(x.unique), n->Ok_0 + tail, met);
    lemma_names(x.columns, tail, met);
}

proof fn lemma_indexes(xs: Seq<IndexV>, tail: Seq<u8>, met: nat)
    requires
        indexes_form(xs) is Ok,
    ensures
        read_indexes(Left { bytes: indexes_form(xs)->Ok_0 + tail, met }, xs.len()) == Read::Got(
            xs,
            Left { bytes: tail, met },
        ),
    decreases xs.len(),
{
    if xs.len() == 0 {
        assert(Seq::<u8>::empty() + tail =~= tail);
        assert(xs =~= Seq::empty());
    } else {
        let rest = xs.drop_first();
        lemma_cut(index_form(xs[0]), indexes_form(rest), tail);
        lemma_index(xs[0], indexes_form(rest)->Ok_0 + tail, met);
        lemma_indexes(rest, tail, met);
        assert(seq![xs[0]] + rest =~= xs);
    }
}

proof fn lemma_key(k: ForeignKeyV, tail: Seq<u8>, met: nat)
    requires
        key_form(k) is Ok,
    ensures
        read_key(Left { bytes: key_form(k)->Ok_0 + tail, met }) == Read::Got(
            k,
            Left { bytes: tail, met },
        ),
{
    let d = byte_form(action_byte(k.on_delete));
    let u = byte_form(action_byte(k.on_update));
    let pc = name_list_form(k.parent_columns);
    let p = text_form(k.parent);
    let c = name_list_form(k.columns);
    let f4 = join(d, u);
    let f3 = join(pc, f4);
    let f2 = join(p, f3);
    let f1 = join(c, f2);
    lemma_cut(text_form(k.name), f1, tail);
    lemma_cut(c, f2, tail);
    lemma_cut(p, f3, tail);
    lemma_cut(pc, f4, tail);
    lemma_cut(d, u, tail);
    lemma_text(k.name, f1->Ok_0 + tail, met);
    lemma_names(k.columns, f2->Ok_0 + tail, met);
    lemma_text(k.parent, f3->Ok_0 + tail, met);
    lemma_names(k.parent_columns, f4->Ok_0 + tail, met);
    lemma_byte(action_byte(k.on_delete), u->Ok_0 + tail, met);
    lemma_byte(action_byte(k.on_update), tail, met);
}

#[verifier::spinoff_prover]
proof fn lemma_keys(ks: Seq<ForeignKeyV>, tail: Seq<u8>, met: nat)
    requires
        keys_form(ks) is Ok,
    ensures
        read_keys(Left { bytes: keys_form(ks)->Ok_0 + tail, met }, ks.len()) == Read::Got(
            ks,
            Left { bytes: tail, met },
        ),
    decreases ks.len(),
{
    if ks.len() == 0 {
        assert(Seq::<u8>::empty() + tail =~= tail);
        assert(ks =~= Seq::empty());
    } else {
        let rest = ks.drop_first();
        lemma_cut(key_form(ks[0]), keys_form(rest), tail);
        lemma_key(ks[0], keys_form(rest)->Ok_0 + tail, met);
        lemma_keys(rest, tail, met);
        assert(seq![ks[0]] + rest =~= ks);
    }
}

/// The sections of indexes and foreign keys read back.
proof fn lemma_last_sections(t: TableV, tail: Seq<u8>, met: nat)
    requires
        join(
            join(count_form(t.indexes.len()), indexes_form(t.indexes)),
            key_section(t.foreign_keys),
        ) is Ok,
    ensures
        ({
            let xf = join(count_form(t.indexes.len()), indexes_form(t.indexes));
            let kf = key_section(t.foreign_keys);
            &&& read_index_list(
                Left { bytes: xf->Ok_0 + (kf->Ok_0 + tail), met },
                version_of(t),
            ) == Read::Got(t.indexes, Left { bytes: kf->Ok_0 + tail, met })
            &&& read_key_list(Left { bytes: kf->Ok_0 + tail, met }, version_of(t)) == Read::Got(
                t.foreign_keys,
                Left { bytes: tail, met },
            )
        }),
{
    let kf = key_section(t.foreign_keys);
    lemma_cut(count_form(t.indexes.len()), indexes_form(t.indexes), kf->Ok_0 + tail);
    lemma_count(t.indexes.len(), indexes_form(t.indexes)->Ok_0 + (kf->Ok_0 + tail), met);
    lemma_indexes(t.indexes, kf->Ok_0 + tail, met);
    if t.foreign_keys.len() == 0 {
        assert(kf->Ok_0 + tail =~= tail);
        assert(t.foreign_keys =~= Seq::empty());
    } else {
        lemma_cut(count_form(t.foreign_keys.len()), keys_form(t.foreign_keys), tail);
        lemma_count(t.foreign_keys.len(), keys_form(t.foreign_keys)->Ok_0 + tail, met);
        lemma_keys(t.foreign_keys, tail, met);
    }
}

/// What reading the stored form of `t` with `tail` behind it comes to.
pub open spec fn reads_back(
    t: TableV,
    literals: Seq<Encoded>,
    known: Literals,
    tail: Seq<u8>,
) -> bool {
    let r = read_table(table_form(t, literals)->Ok_0 + tail, known);
    if known.len() < literals_in(t) {
        r == Read::<TableV>::Wants(encoded_view(literals[known.len() as int])->Ok_0)
    } else if tail.len() > 0 {
        r == Read::<TableV>::Bad(CatalogCorruption::TrailingBytes)
    } else {
        r is Got && r->Got_0 == t
    }
}

/// A stored definition is read back as it was written: with all its literals known it
/// gives the definition, and with only the first ones known it asks for the next, by the
/// very bytes that stand for it. Bytes that follow it are not passed over: the record is
/// then refused.
pub proof fn definitions_round_trip(
    t: TableV,
    literals: Seq<Encoded>,
    known: Literals,
    tail: Seq<u8>,
)
    requires
        table_form(t, literals) is Ok,
        depth_of_all(t.checks) <= MAX_CHECK_DEPTH,
        first_of(known, literals_of(t)),
    ensures
        reads_back(t, literals, known, tail),
{
    let rest = join(text_form(t.name), body_form(t, literals));
    lemma_cut(byte_form(version_of(t)), rest, tail);
    lemma_byte(version_of(t), rest->Ok_0 + tail, 0);
    lemma_body(t, literals, known, tail);
}

/// What follows the version reads back.
#[verifier::spinoff_prover]
#[verifier::rlimit(60)]
proof fn lemma_body(t: TableV, literals: Seq<Encoded>, known: Literals, tail: Seq<u8>)
    requires
        join(text_form(t.name), body_form(t, literals)) is Ok,
        depth_of_all(t.checks) <= MAX_CHECK_DEPTH,
        first_of(known, literals_of(t)),
    ensures
        ({
            let bytes = join(text_form(t.name), body_form(t, literals))->Ok_0 + tail;
            let r = read_body(Left { bytes, met: 0 }, version_of(t), known);
            if known.len() < literals_in(t) {
                r == Read::<TableV>::Wants(encoded_view(literals[known.len() as int])->Ok_0)
            } else {
                r == Read::Got(t, Left { bytes: tail, met: literals_in(t) })
            }
        }),
{
    let all = literals_of(t);
    let n1 = literals_in_columns(t.columns);
    let n2 = comparisons_in_all(t.checks);
    lemma_columns_literals_len(t.columns);
    lemma_checks_literals_len(t.checks);
    assert(all.subrange(0, n1 as int) =~= columns_literals(t.columns));
    assert(all.subrange(n1 as int, (n1 + n2) as int) =~= checks_literals(t.checks));
    let kf = key_section(t.foreign_keys);
    let xf = join(count_form(t.indexes.len()), indexes_form(t.indexes));
    let cn = count_form(t.checks.len());
    let cf = checks_form(t.checks, literals, n1 as int);
    let tf = tail_form(t, literals);
    let pf = name_list_form(t.pk);
    let ln = count_form(t.columns.len());
    let lf = columns_form(t.columns, literals, 0);
    let bf = body_form(t, literals);
    let nf = text_form(t.name);
    lemma_cut(nf, bf, tail);
    lemma_cut(ln, join(lf, join(pf, tf)), tail);
    lemma_cut(lf, join(pf, tf), tail);
    lemma_cut(pf, tf, tail);
    lemma_cut(cn, join(cf, join(xf, kf)), tail);
    lemma_cut(cf, join(xf, kf), tail);
    lemma_cut(xf, kf, tail);
    lemma_text(t.name, bf->Ok_0 + tail, 0);
    lemma_count(t.columns.len(), join(lf, join(pf, tf))->Ok_0 + tail, 0);
    lemma_columns(t.columns, join(pf, tf)->Ok_0 + tail, 0, known, literals, all);
    if n1 <= known.len() {
        lemma_names(t.pk, tf->Ok_0 + tail, n1);
        lemma_count(t.checks.len(), join(cf, join(xf, kf))->Ok_0 + tail, n1);
        lemma_checks(t.checks, 0, join(xf, kf)->Ok_0 + tail, n1, known, literals, all);
        if n1 + n2 <= known.len() {
            lemma_last_sections(t, tail, n1 + n2);
        }
    }
}

/// CHECKs that pass validation nest no deeper than the stored form allows.
#[verifier::spinoff_prover]
pub proof fn valid_checks_can_be_stored(items: Seq<CheckV>, t: TableV, depth: nat)
    requires
        checks_error(items, t, depth) is None,
    ensures
        items.len() > 0 ==> depth + depth_of_all(items) <= MAX_CHECK_DEPTH,
    decreases items,
{
    if items.len() > 0 {
        lemma_valid_depth(items[0], t, depth);
        let rest = items.drop_first();
        valid_checks_can_be_stored(rest, t, depth);
        assert(rest.len() == 0 ==> depth_of_all(rest) == 0);
        assert(depth_of_all(items) == depth_of(items[0]) || depth_of_all(items) == depth_of_all(
            rest,
        ));
    }
}

proof fn lemma_valid_depth(c: CheckV, t: TableV, depth: nat)
    requires
        check_error(c, t, depth) is None,
    ensures
        depth + depth_of(c) <= MAX_CHECK_DEPTH,
    decreases c,
{
    match c {
        CheckV::And(items) => valid_checks_can_be_stored(items, t, depth + 1),
        CheckV::Or(items) => valid_checks_can_be_stored(items, t, depth + 1),
        CheckV::Not(inner) => lemma_valid_depth(*inner, t, depth + 1),
        _ => {},
    }
}

/// What the first version stored of a definition, which had neither indexes nor foreign keys.
pub open spec fn first_form(t: TableV, literals: Seq<Encoded>) -> Form {
    join(
        byte_form(1),
        join(
            text_form(t.name),
            join(
                count_form(t.columns.len()),
                join(
                    columns_form(t.columns, literals, 0),
                    join(
                        name_list_form(t.pk),
                        join(
                            count_form(t.checks.len()),
                            checks_form(t.checks, literals, literals_in_columns(t.columns) as int),
                        ),
                    ),
                ),
            ),
        ),
    )
}

/// What the first version stored is still read: as a definition without indexes and without
/// foreign keys, and otherwise as it was written.
#[verifier::spinoff_prover]
#[verifier::rlimit(60)]
pub proof fn first_definitions_are_still_read(
    t: TableV,
    literals: Seq<Encoded>,
    known: Literals,
)
    requires
        first_form(t, literals) is Ok,
        t.indexes.len() == 0,
        t.foreign_keys.len() == 0,
        depth_of_all(t.checks) <= MAX_CHECK_DEPTH,
        first_of(known, literals_of(t)),
        literals_in(t) <= known.len(),
    ensures
        read_table(first_form(t, literals)->Ok_0, known) is Got,
        read_table(first_form(t, literals)->Ok_0, known)->Got_0 == t,
{
    let all = literals_of(t);
    let n1 = literals_in_columns(t.columns);
    let n2 = comparisons_in_all(t.checks);
    lemma_columns_literals_len(t.columns);
    lemma_checks_literals_len(t.checks);
    assert(all.subrange(0, n1 as int) =~= columns_literals(t.columns));
    assert(all.subrange(n1 as int, (n1 + n2) as int) =~= checks_literals(t.checks));
    let none = Seq::<u8>::empty();
    let cn = count_form(t.checks.len());
    let cf = checks_form(t.checks, literals, n1 as int);
    let tf = join(cn, cf);
    let pf = name_list_form(t.pk);
    let ln = count_form(t.columns.len());
    let lf = columns_form(t.columns, literals, 0);
    let bf = join(ln, join(lf, join(pf, tf)));
    let nf = text_form(t.name);
    assert(first_form(t, literals)->Ok_0 + none =~= first_form(t, literals)->Ok_0);
    lemma_cut(byte_form(1), join(nf, bf), none);
    lemma_byte(1, join(nf, bf)->Ok_0 + none, 0);
    lemma_cut(nf, bf, none);
    lemma_cut(ln, join(lf, join(pf, tf)), none);
    lemma_cut(lf, join(pf, tf), none);
    lemma_cut(pf, tf, none);
    lemma_cut(cn, cf, none);
    lemma_text(t.name, bf->Ok_0 + none, 0);
    lemma_count(t.columns.len(), join(lf, join(pf, tf))->Ok_0 + none, 0);
    lemma_columns(t.columns, join(pf, tf)->Ok_0 + none, 0, known, literals, all);
    lemma_names(t.pk, tf->Ok_0 + none, n1);
    lemma_count(t.checks.len(), cf->Ok_0 + none, n1);
    lemma_checks(t.checks, 0, none, n1, known, literals, all);
    assert(t.indexes =~= Seq::empty());
    assert(t.foreign_keys =~= Seq::empty());
}

/// What is read as a definition is read to its last byte, in one of the three versions;
/// without the sections that its version does not have, it has none of what they hold.
pub proof fn definitions_are_read_whole(bytes: Seq<u8>, known: Literals)
    ensures
        read_table(bytes, known) matches Read::Got(t, left) ==> {
            &&& left.bytes.len() == 0
            &&& bytes.len() > 0
            &&& bytes[0] == 1 || bytes[0] == 2 || bytes[0] == 3
            &&& bytes[0] == 1 ==> t.indexes.len() == 0
            &&& bytes[0] < 3 ==> t.foreign_keys.len() == 0
        },
        bytes.len() > 0 && !(1 <= bytes[0] <= 3) ==> read_table(bytes, known) == Read::<TableV>::Bad(
            CatalogCorruption::BadVersion { version: bytes[0] },
        ),
{
}

/// Each code stands for one type, operator or action, and each of these has one code; every
/// other code stands for none.
pub proof fn codes_stand_for_one_thing(code: u8, kind: TypeKind, op: CmpOp, action: RefAction)
    ensures
        kind_of(code) == Some(kind) <==> code == kind_byte(kind),
        op_of(code) == Some(op) <==> code == op_byte(op),
        action_of(code) == Some(action) <==> code == action_byte(action),
        kind_of(code) is Some <==> 1 <= code <= 8,
        op_of(code) is Some <==> 1 <= code <= 6,
        action_of(code) is Some <==> code <= 2,
{
}

} // verus!
