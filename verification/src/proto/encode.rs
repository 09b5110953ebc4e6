//! The MessagePack wire form of a [`Doc`], and that it reads back.

use vstd::prelude::*;
use vstd::utf8::{encode_utf8, encode_utf8_decode_utf8, encode_utf8_valid_utf8};
use crate::bytes::{
    be_bytes, lemma_be_nat_of_be_bytes, lemma_pow256_values, pow256, push_all, push_be,
};
use super::error::ProtoErrorV;
use super::wire::{
    charge, decoded, docs, entry_keys, entry_vals, head_of, items, key, length, number, pairs, take,
    text, value, DecodeLimits, Doc, DocV, Head, Read, Rest, Span,
};

verus! {

/// A head byte and a big-endian number of `width` bytes.
pub open spec fn tagged(head: u8, n: nat, width: nat) -> Seq<u8> {
    seq![head] + be_bytes(n, width)
}

/// The most compact form of an integer.
pub open spec fn int_form(v: int) -> Seq<u8> {
    if v >= 0 {
        if v <= 0x7F {
            seq![v as u8]
        } else if v <= 0xFF {
            tagged(0xCC, v as nat, 1)
        } else if v <= 0xFFFF {
            tagged(0xCD, v as nat, 2)
        } else if v <= 0xFFFF_FFFF {
            tagged(0xCE, v as nat, 4)
        } else {
            tagged(0xCF, v as nat, 8)
        }
    } else if v >= -32 {
        seq![(v + 0x100) as u8]
    } else if v >= -128 {
        tagged(0xD0, (v + 0x100) as nat, 1)
    } else if v >= -32768 {
        tagged(0xD1, (v + 0x1_0000) as nat, 2)
    } else if v >= -2_147_483_648 {
        tagged(0xD2, (v + 0x1_0000_0000) as nat, 4)
    } else {
        tagged(0xD3, (v + 0x1_0000_0000_0000_0000) as nat, 8)
    }
}

/// A length as a 32-bit number; lengths beyond it saturate.
pub open spec fn len32(n: nat) -> nat {
    if n > 0xFFFF_FFFF {
        0xFFFF_FFFF
    } else {
        n
    }
}

/// The head of a string of `n` bytes.
pub open spec fn str_head(n: nat) -> Seq<u8> {
    if n <= 0x1F {
        seq![(0xA0 + n) as u8]
    } else if n <= 0xFF {
        tagged(0xD9, n, 1)
    } else if n <= 0xFFFF {
        tagged(0xDA, n, 2)
    } else {
        tagged(0xDB, len32(n), 4)
    }
}

/// The head of a payload of `n` bytes.
pub open spec fn bin_head(n: nat) -> Seq<u8> {
    if n <= 0xFF {
        tagged(0xC4, n, 1)
    } else if n <= 0xFFFF {
        tagged(0xC5, n, 2)
    } else {
        tagged(0xC6, len32(n), 4)
    }
}

/// The head of an array of `n` items.
pub open spec fn array_head(n: nat) -> Seq<u8> {
    if n <= 0x0F {
        seq![(0x90 + n) as u8]
    } else if n <= 0xFFFF {
        tagged(0xDC, n, 2)
    } else {
        tagged(0xDD, len32(n), 4)
    }
}

/// The head of a map of `n` entries.
pub open spec fn map_head(n: nat) -> Seq<u8> {
    if n <= 0x0F {
        seq![(0x80 + n) as u8]
    } else if n <= 0xFFFF {
        tagged(0xDE, n, 2)
    } else {
        tagged(0xDF, len32(n), 4)
    }
}

/// The form of a string.
pub open spec fn str_form(s: Seq<char>) -> Seq<u8> {
    str_head(encode_utf8(s).len()) + encode_utf8(s)
}

/// The form of a payload.
pub open spec fn bin_form(b: Seq<u8>) -> Seq<u8> {
    bin_head(b.len()) + b
}

/// The wire form of a document.
pub open spec fn form(d: DocV) -> Seq<u8>
    decreases d,
{
    match d {
        DocV::Null => seq![0xC0u8],
        DocV::Bool(b) => seq![
            if b {
                0xC3u8
            } else {
                0xC2u8
            },
        ],
        DocV::Int(v) => int_form(v as int),
        DocV::Float(v) => tagged(0xCB, v as nat, 8),
        DocV::Str(s) => str_form(s),
        DocV::Bin(b) => bin_form(b),
        DocV::Array(items) => array_head(items.len()) + forms(items),
        DocV::Dict { keys, vals } => map_head(keys.len()) + entry_forms(keys, vals),
    }
}

/// The wire forms of documents, one after the other.
pub open spec fn forms(items: Seq<DocV>) -> Seq<u8>
    decreases items,
{
    if items.len() == 0 {
        Seq::empty()
    } else {
        form(items[0]) + forms(items.drop_first())
    }
}

/// The wire forms of map entries, one after the other.
pub open spec fn entry_forms(keys: Seq<Seq<char>>, vals: Seq<DocV>) -> Seq<u8>
    decreases vals,
{
    if keys.len() == 0 || vals.len() == 0 {
        Seq::empty()
    } else {
        str_form(keys[0]) + form(vals[0]) + entry_forms(keys.drop_first(), vals.drop_first())
    }
}

/// Encode a [`Doc`] in its MessagePack wire form (the inverse of
/// [`decode_doc`](super::wire::decode_doc); round-trips exactly).
pub fn encode_doc(doc: &Doc) -> (r: Vec<u8>)
    ensures
        r@ == form(doc@),
{
    let mut out: Vec<u8> = Vec::new();
    write_doc(&mut out, doc);
    assert(out@ =~= form(doc@));
    out
}

pub(crate) fn write_doc(out: &mut Vec<u8>, doc: &Doc)
    ensures
        final(out)@ == old(out)@ + form(doc@),
    decreases doc,
{
    proof {
        doc.lemma_parts();
    }
    match doc {
        Doc::Null => {
            out.push(0xC0);
            assert(out@ =~= old(out)@ + form(doc@));
        },
        Doc::Bool(b) => {
            out.push(
                if *b {
                    0xC3
                } else {
                    0xC2
                },
            );
            assert(out@ =~= old(out)@ + form(doc@));
        },
        Doc::Int(v) => write_int(out, *v),
        Doc::Float(v) => write_tagged(out, 0xCB, *v, 8),
        Doc::Str(s) => write_str(out, s.as_str()),
        Doc::Bin(b) => write_bin(out, b.as_slice()),
        Doc::Array(list) => {
            let ghost xs = docs(list@);
            write_array_header(out, list.len());
            let ghost start = out@;
            let mut i: usize = 0;
            assert(xs.skip(0) =~= xs);
            assert(start + forms(xs) =~= out@ + forms(xs.skip(0)));
            while i < list.len()
                invariant
                    i <= list@.len(),
                    xs == docs(list@),
                    start + forms(xs) == out@ + forms(xs.skip(i as int)),
                    decreases_to!(doc => list),
                decreases list@.len() - i,
            {
                let ghost before = out@;
                write_doc(out, &list[i]);
                proof {
                    let s = xs.skip(i as int);
                    assert(s[0] == list@[i as int]@);
                    assert(s.drop_first() =~= xs.skip(i as int + 1));
                    assert(before + (form(s[0]) + forms(s.drop_first())) =~= out@ + forms(
                        s.drop_first(),
                    ));
                }
                i = i + 1;
            }
            proof {
                assert(xs.skip(i as int) =~= Seq::empty());
                assert(out@ + Seq::empty() =~= out@);
                assert(old(out)@ + (array_head(xs.len()) + forms(xs)) =~= start + forms(xs));
            }
        },
        Doc::Dict(entries) => {
            let ghost ks = entry_keys(entries@);
            let ghost vs = entry_vals(entries@);
            write_map_header(out, entries.len());
            let ghost start = out@;
            let mut i: usize = 0;
            assert(ks.skip(0) =~= ks);
            assert(vs.skip(0) =~= vs);
            assert(start + entry_forms(ks, vs) =~= out@ + entry_forms(ks.skip(0), vs.skip(0)));
            while i < entries.len()
                invariant
                    i <= entries@.len(),
                    ks == entry_keys(entries@),
                    vs == entry_vals(entries@),
                    start + entry_forms(ks, vs) == out@ + entry_forms(
                        ks.skip(i as int),
                        vs.skip(i as int),
                    ),
                    decreases_to!(doc => entries),
                decreases entries@.len() - i,
            {
                let ghost before = out@;
                let e = &entries[i];
                write_str(out, e.0.as_str());
                let ghost mid = out@;
                assert(decreases_to!(doc => e.1));
                write_doc(out, &e.1);
                proof {
                    let s = ks.skip(i as int);
                    let t = vs.skip(i as int);
                    assert(s[0] == entries@[i as int].0@);
                    assert(t[0] == entries@[i as int].1@);
                    assert(s.drop_first() =~= ks.skip(i as int + 1));
                    assert(t.drop_first() =~= vs.skip(i as int + 1));
                    assert(before + (str_form(s[0]) + form(t[0]) + entry_forms(
                        s.drop_first(),
                        t.drop_first(),
                    )) =~= out@ + entry_forms(s.drop_first(), t.drop_first()));
                }
                i = i + 1;
            }
            proof {
                assert(ks.skip(i as int) =~= Seq::empty());
                assert(out@ + Seq::empty() =~= out@);
                assert(old(out)@ + (map_head(ks.len()) + entry_forms(ks, vs)) =~= start
                    + entry_forms(ks, vs));
            }
        },
    }
}

fn write_tagged(out: &mut Vec<u8>, head: u8, n: u64, width: usize)
    requires
        width <= 8,
    ensures
        final(out)@ == old(out)@ + tagged(head, n as nat, width as nat),
{
    out.push(head);
    push_be(out, n, width);
    assert(out@ =~= old(out)@ + tagged(head, n as nat, width as nat));
}

/// Write `v` in the most compact MessagePack int form.
pub(crate) fn write_int(out: &mut Vec<u8>, v: i64)
    ensures
        final(out)@ == old(out)@ + int_form(v as int),
{
    if v >= 0 {
        let n: u64 = v as u64;
        if n <= 0x7F {
            out.push(n as u8);
            assert(out@ =~= old(out)@ + int_form(v as int));
        } else if n <= 0xFF {
            write_tagged(out, 0xCC, n, 1);
        } else if n <= 0xFFFF {
            write_tagged(out, 0xCD, n, 2);
        } else if n <= 0xFFFF_FFFF {
            write_tagged(out, 0xCE, n, 4);
        } else {
            write_tagged(out, 0xCF, n, 8);
        }
    } else if v >= -32 {
        out.push((v + 0x100) as u8);
        assert(out@ =~= old(out)@ + int_form(v as int));
    } else if v >= -128 {
        write_tagged(out, 0xD0, (v + 0x100) as u64, 1);
    } else if v >= -32768 {
        write_tagged(out, 0xD1, (v + 0x1_0000) as u64, 2);
    } else if v >= -2_147_483_648 {
        write_tagged(out, 0xD2, (v + 0x1_0000_0000) as u64, 4);
    } else {
        write_tagged(out, 0xD3, 0xFFFF_FFFF_FFFF_FFFF - (-(v + 1)) as u64, 8);
    }
}

fn to_len32(n: usize) -> (r: u64)
    ensures
        r == len32(n as nat),
{
    // Lengths beyond u32 are unreachable through the bounded protocol surface;
    // saturate rather than panic.
    if n as u64 > 0xFFFF_FFFF {
        0xFFFF_FFFF
    } else {
        n as u64
    }
}

pub(crate) fn write_str(out: &mut Vec<u8>, s: &str)
    ensures
        final(out)@ == old(out)@ + str_form(s@),
{
    let bytes = s.as_bytes();
    let n: usize = bytes.len();
    if n <= 0x1F {
        out.push(0xA0 + n as u8);
        assert(out@ =~= old(out)@ + str_head(n as nat));
    } else if n <= 0xFF {
        write_tagged(out, 0xD9, n as u64, 1);
    } else if n <= 0xFFFF {
        write_tagged(out, 0xDA, n as u64, 2);
    } else {
        write_tagged(out, 0xDB, to_len32(n), 4);
    }
    push_all(out, bytes);
    assert(out@ =~= old(out)@ + str_form(s@));
}

pub(crate) fn write_bin(out: &mut Vec<u8>, bytes: &[u8])
    ensures
        final(out)@ == old(out)@ + bin_form(bytes@),
{
    let n: usize = bytes.len();
    if n <= 0xFF {
        write_tagged(out, 0xC4, n as u64, 1);
    } else if n <= 0xFFFF {
        write_tagged(out, 0xC5, n as u64, 2);
    } else {
        write_tagged(out, 0xC6, to_len32(n), 4);
    }
    push_all(out, bytes);
    assert(out@ =~= old(out)@ + bin_form(bytes@));
}

pub(crate) fn write_array_header(out: &mut Vec<u8>, n: usize)
    ensures
        final(out)@ == old(out)@ + array_head(n as nat),
{
    if n <= 0x0F {
        out.push(0x90 + n as u8);
        assert(out@ =~= old(out)@ + array_head(n as nat));
    } else if n <= 0xFFFF {
        write_tagged(out, 0xDC, n as u64, 2);
    } else {
        write_tagged(out, 0xDD, to_len32(n), 4);
    }
}

pub(crate) fn write_map_header(out: &mut Vec<u8>, n: usize)
    ensures
        final(out)@ == old(out)@ + map_head(n as nat),
{
    if n <= 0x0F {
        out.push(0x80 + n as u8);
        assert(out@ =~= old(out)@ + map_head(n as nat));
    } else if n <= 0xFFFF {
        write_tagged(out, 0xDE, n as u64, 2);
    } else {
        write_tagged(out, 0xDF, to_len32(n), 4);
    }
}

// Round trips.

/// Whether a document at a nesting depth is one the wire can carry: not nested
/// too deep, lengths of 32 bits, and map keys that are different.
pub open spec fn fits(d: DocV, depth: nat, max_depth: nat) -> bool
    decreases d,
{
    &&& depth <= max_depth
    &&& match d {
        DocV::Str(s) => encode_utf8(s).len() <= 0xFFFF_FFFF,
        DocV::Bin(b) => b.len() <= 0xFFFF_FFFF,
        DocV::Array(items) => items.len() <= 0xFFFF_FFFF && forall|i: int|
            0 <= i < items.len() ==> fits(#[trigger] items[i], depth + 1, max_depth),
        DocV::Dict { keys, vals } => {
            &&& keys.len() == vals.len()
            &&& keys.len() <= 0xFFFF_FFFF
            &&& keys.no_duplicates()
            &&& forall|i: int| 0 <= i < keys.len() ==> encode_utf8(#[trigger] keys[i]).len()
                <= 0xFFFF_FFFF
            &&& forall|i: int|
                0 <= i < vals.len() ==> fits(#[trigger] vals[i], depth + 1, max_depth)
        },
        _ => true,
    }
}

/// How many nodes a document has; a map key is one.
pub open spec fn node_count(d: DocV) -> nat
    decreases d,
{
    match d {
        DocV::Array(items) => 1 + node_counts(items),
        DocV::Dict { keys, vals } => 1 + keys.len() + node_counts(vals),
        _ => 1,
    }
}

/// How many nodes documents have.
pub open spec fn node_counts(items: Seq<DocV>) -> nat
    decreases items,
{
    if items.len() == 0 {
        0
    } else {
        node_count(items[0]) + node_counts(items.drop_first())
    }
}

proof fn lemma_number(head: u8, n: nat, width: u8, tail: Seq<u8>, nodes: nat)
    requires
        width == 1 || width == 2 || width == 4 || width == 8,
        n < pow256(width as nat),
    ensures
        number(Rest { bytes: be_bytes(n, width as nat) + tail, nodes }, width) == Read::Got(
            n,
            Rest { bytes: tail, nodes },
        ),
{
    lemma_be_nat_of_be_bytes(n, width as nat);
    let b = be_bytes(n, width as nat);
    assert((b + tail).take(width as int) =~= b);
    assert((b + tail).skip(width as int) =~= tail);
}

/// A head byte reads back.
proof fn lemma_head(head: u8, tail: Seq<u8>, nodes: nat)
    ensures
        number(Rest { bytes: seq![head] + tail, nodes }, 1) == Read::Got(
            head as nat,
            Rest { bytes: tail, nodes },
        ),
{
    lemma_pow256_values();
    lemma_number(head, head as nat, 1, tail, nodes);
    reveal_with_fuel(crate::bytes::le_bytes, 2);
    assert(be_bytes(head as nat, 1) =~= seq![head]);
}

/// A head byte and a number read back.
proof fn lemma_tagged(head: u8, n: nat, width: u8, tail: Seq<u8>, nodes: nat)
    requires
        width == 1 || width == 2 || width == 4 || width == 8,
        n < pow256(width as nat),
    ensures
        number(Rest { bytes: tagged(head, n, width as nat) + tail, nodes }, 1) == Read::Got(
            head as nat,
            Rest { bytes: be_bytes(n, width as nat) + tail, nodes },
        ),
        number(Rest { bytes: be_bytes(n, width as nat) + tail, nodes }, width) == Read::Got(
            n,
            Rest { bytes: tail, nodes },
        ),
        tagged(head, n, width as nat).len() == 1 + width,
{
    let b = be_bytes(n, width as nat);
    lemma_head(head, b + tail, nodes);
    assert(tagged(head, n, width as nat) + tail =~= seq![head] + (b + tail));
    lemma_number(head, n, width, tail, nodes);
    lemma_be_nat_of_be_bytes(n, width as nat);
}

/// Whether `head + tail` starts with a head byte that says `h` and the length
/// `n`, and goes on with `tail`.
spec fn headed(head: Seq<u8>, h: spec_fn(Span) -> Head, n: nat, tail: Seq<u8>, nodes: nat) -> bool {
    match number(Rest { bytes: head + tail, nodes }, 1) {
        Read::Got(b, r2) => b <= 0xFF && exists|span: Span| #[trigger]
            length(r2, span) == Read::Got(n, Rest { bytes: tail, nodes }) && head_of(b as u8) == h(
                span,
            ),
        Read::Fail(_) => false,
    }
}

proof fn lemma_fixed_head(b: u8, h: spec_fn(Span) -> Head, n: u8, tail: Seq<u8>, nodes: nat)
    requires
        head_of(b) == h(Span::Fixed(n)),
    ensures
        headed(seq![b], h, n as nat, tail, nodes),
{
    lemma_head(b, tail, nodes);
    let r2 = Rest { bytes: tail, nodes };
    assert(length(r2, Span::Fixed(n)) == Read::Got(n as nat, r2));
}

proof fn lemma_wide_head(
    b: u8,
    h: spec_fn(Span) -> Head,
    n: nat,
    w: u8,
    tail: Seq<u8>,
    nodes: nat,
)
    requires
        head_of(b) == h(Span::Wide(w)),
        w == 1 || w == 2 || w == 4,
        n < pow256(w as nat),
    ensures
        headed(tagged(b, n, w as nat), h, n, tail, nodes),
{
    lemma_tagged(b, n, w, tail, nodes);
    let r2 = Rest { bytes: be_bytes(n, w as nat) + tail, nodes };
    assert(length(r2, Span::Wide(w)) == Read::Got(n, Rest { bytes: tail, nodes }));
}

spec fn a_str() -> spec_fn(Span) -> Head {
    |span: Span| Head::Str(span)
}

spec fn a_bin() -> spec_fn(Span) -> Head {
    |span: Span| Head::Bin(span)
}

spec fn an_array() -> spec_fn(Span) -> Head {
    |span: Span| Head::Array(span)
}

spec fn a_dict() -> spec_fn(Span) -> Head {
    |span: Span| Head::Dict(span)
}

proof fn lemma_str_head(n: nat, tail: Seq<u8>, nodes: nat)
    requires
        n <= 0xFFFF_FFFF,
    ensures
        headed(str_head(n), a_str(), n, tail, nodes),
{
    lemma_pow256_values();
    if n <= 0x1F {
        lemma_fixed_head((0xA0 + n) as u8, a_str(), n as u8, tail, nodes);
    } else if n <= 0xFF {
        lemma_wide_head(0xD9, a_str(), n, 1, tail, nodes);
    } else if n <= 0xFFFF {
        lemma_wide_head(0xDA, a_str(), n, 2, tail, nodes);
    } else {
        lemma_wide_head(0xDB, a_str(), n, 4, tail, nodes);
    }
}

proof fn lemma_bin_head(n: nat, tail: Seq<u8>, nodes: nat)
    requires
        n <= 0xFFFF_FFFF,
    ensures
        headed(bin_head(n), a_bin(), n, tail, nodes),
{
    lemma_pow256_values();
    if n <= 0xFF {
        lemma_wide_head(0xC4, a_bin(), n, 1, tail, nodes);
    } else if n <= 0xFFFF {
        lemma_wide_head(0xC5, a_bin(), n, 2, tail, nodes);
    } else {
        lemma_wide_head(0xC6, a_bin(), n, 4, tail, nodes);
    }
}

proof fn lemma_array_head(n: nat, tail: Seq<u8>, nodes: nat)
    requires
        n <= 0xFFFF_FFFF,
    ensures
        headed(array_head(n), an_array(), n, tail, nodes),
{
    lemma_pow256_values();
    if n <= 0x0F {
        lemma_fixed_head((0x90 + n) as u8, an_array(), n as u8, tail, nodes);
    } else if n <= 0xFFFF {
        lemma_wide_head(0xDC, an_array(), n, 2, tail, nodes);
    } else {
        lemma_wide_head(0xDD, an_array(), n, 4, tail, nodes);
    }
}

proof fn lemma_map_head(n: nat, tail: Seq<u8>, nodes: nat)
    requires
        n <= 0xFFFF_FFFF,
    ensures
        headed(map_head(n), a_dict(), n, tail, nodes),
{
    lemma_pow256_values();
    if n <= 0x0F {
        lemma_fixed_head((0x80 + n) as u8, a_dict(), n as u8, tail, nodes);
    } else if n <= 0xFFFF {
        lemma_wide_head(0xDE, a_dict(), n, 2, tail, nodes);
    } else {
        lemma_wide_head(0xDF, a_dict(), n, 4, tail, nodes);
    }
}

/// Text reads back.
proof fn lemma_text(s: Seq<char>, tail: Seq<u8>, nodes: nat)
    ensures
        text(Rest { bytes: encode_utf8(s) + tail, nodes }, encode_utf8(s).len()) == Read::Got(
            s,
            Rest { bytes: tail, nodes },
        ),
{
    let b = encode_utf8(s);
    encode_utf8_valid_utf8(s);
    encode_utf8_decode_utf8(s);
    assert((b + tail).take(b.len() as int) =~= b);
    assert((b + tail).skip(b.len() as int) =~= tail);
}

/// A map key reads back.
proof fn lemma_key(k: Seq<char>, tail: Seq<u8>, nodes: nat)
    requires
        encode_utf8(k).len() <= 0xFFFF_FFFF,
    ensures
        key(Rest { bytes: str_form(k) + tail, nodes: nodes + 1 }) == Read::Got(
            k,
            Rest { bytes: tail, nodes },
        ),
        str_form(k).len() >= 1,
{
    let b = encode_utf8(k);
    lemma_str_head(b.len(), b + tail, nodes);
    lemma_text(k, tail, nodes);
    assert(str_form(k) + tail =~= str_head(b.len()) + (b + tail));
}

/// A document's form is at least a byte.
proof fn lemma_form_len(d: DocV)
    ensures
        form(d).len() >= 1,
{
}

/// An integer reads back.
proof fn lemma_int(v: i64, tail: Seq<u8>, nodes: nat, depth: nat, max_depth: nat)
    requires
        depth <= max_depth,
    ensures
        value(Rest { bytes: int_form(v as int) + tail, nodes: nodes + 1 }, depth, max_depth)
            == Read::Got(DocV::Int(v), Rest { bytes: tail, nodes }),
{
    lemma_pow256_values();
    let x = v as int;
    if x >= 0 {
        if x <= 0x7F {
            lemma_head(x as u8, tail, nodes);
        } else if x <= 0xFF {
            lemma_tagged(0xCC, x as nat, 1, tail, nodes);
        } else if x <= 0xFFFF {
            lemma_tagged(0xCD, x as nat, 2, tail, nodes);
        } else if x <= 0xFFFF_FFFF {
            lemma_tagged(0xCE, x as nat, 4, tail, nodes);
        } else {
            lemma_tagged(0xCF, x as nat, 8, tail, nodes);
        }
    } else if x >= -32 {
        lemma_head((x + 0x100) as u8, tail, nodes);
    } else if x >= -128 {
        lemma_tagged(0xD0, (x + 0x100) as nat, 1, tail, nodes);
    } else if x >= -32768 {
        lemma_tagged(0xD1, (x + 0x1_0000) as nat, 2, tail, nodes);
    } else if x >= -2_147_483_648 {
        lemma_tagged(0xD2, (x + 0x1_0000_0000) as nat, 4, tail, nodes);
    } else {
        lemma_tagged(0xD3, (x + 0x1_0000_0000_0000_0000) as nat, 8, tail, nodes);
    }
}

/// A document that is neither an array nor a map reads back from its form.
#[verifier::spinoff_prover]
#[verifier::rlimit(30)]
proof fn lemma_scalar_reads_back(d: DocV, tail: Seq<u8>, nodes: nat, depth: nat, max_depth: nat)
    requires
        fits(d, depth, max_depth),
        !(d is Array) && !(d is Dict),
    ensures
        value(Rest { bytes: form(d) + tail, nodes: nodes + node_count(d) }, depth, max_depth)
            == Read::Got(d, Rest { bytes: tail, nodes }),
{
    let total = nodes + node_count(d);
    let left = (total - 1) as nat;
    assert(charge(Rest { bytes: form(d) + tail, nodes: total }) == Read::Got(
        (),
        Rest { bytes: form(d) + tail, nodes: left },
    ));
    lemma_pow256_values();
    match d {
        DocV::Null => {
            lemma_head(0xC0, tail, nodes);
        },
        DocV::Bool(b) => {
            lemma_head(
                if b {
                    0xC3
                } else {
                    0xC2
                },
                tail,
                nodes,
            );
        },
        DocV::Int(v) => {
            lemma_int(v, tail, nodes, depth, max_depth);
        },
        DocV::Float(v) => {
            lemma_tagged(0xCB, v as nat, 8, tail, nodes);
        },
        DocV::Str(s) => {
            let b = encode_utf8(s);
            lemma_str_head(b.len(), b + tail, left);
            lemma_text(s, tail, left);
            assert(form(d) + tail =~= str_head(b.len()) + (b + tail));
        },
        DocV::Bin(b) => {
            lemma_bin_head(b.len(), b + tail, left);
            assert(form(d) + tail =~= bin_head(b.len()) + (b + tail));
            assert((b + tail).take(b.len() as int) =~= b);
            assert((b + tail).skip(b.len() as int) =~= tail);
        },
        _ => {},
    }
}

/// An array reads back once its items do.
#[verifier::spinoff_prover]
#[verifier::rlimit(30)]
proof fn lemma_array_reads_back(
    xs: Seq<DocV>,
    tail: Seq<u8>,
    nodes: nat,
    depth: nat,
    max_depth: nat,
)
    requires
        fits(DocV::Array(xs), depth, max_depth),
        items(
            Rest { bytes: forms(xs) + tail, nodes: nodes + node_counts(xs) },
            xs.len(),
            depth,
            max_depth,
        ) == Read::Got(xs, Rest { bytes: tail, nodes }),
        forms(xs).len() >= xs.len(),
        node_counts(xs) >= xs.len(),
    ensures
        value(
            Rest {
                bytes: form(DocV::Array(xs)) + tail,
                nodes: nodes + node_count(DocV::Array(xs)),
            },
            depth,
            max_depth,
        ) == Read::Got(DocV::Array(xs), Rest { bytes: tail, nodes }),
{
    let d = DocV::Array(xs);
    let left = nodes + node_counts(xs);
    assert(nodes + node_count(d) == left + 1);
    lemma_array_head(xs.len(), forms(xs) + tail, left);
    assert(form(d) + tail =~= array_head(xs.len()) + (forms(xs) + tail));
}

/// A map reads back once its entries do.
#[verifier::spinoff_prover]
#[verifier::rlimit(30)]
proof fn lemma_dict_reads_back(
    ks: Seq<Seq<char>>,
    xs: Seq<DocV>,
    tail: Seq<u8>,
    nodes: nat,
    depth: nat,
    max_depth: nat,
)
    requires
        fits((DocV::Dict { keys: ks, vals: xs }), depth, max_depth),
        pairs(
            Rest { bytes: entry_forms(ks, xs) + tail, nodes: nodes + (ks.len() + node_counts(xs)) },
            ks.len(),
            depth,
            max_depth,
            Seq::empty(),
        ) == Read::Got((ks, xs), Rest { bytes: tail, nodes }),
        entry_forms(ks, xs).len() >= 2 * ks.len(),
        node_counts(xs) >= xs.len(),
    ensures
        value(
            Rest {
                bytes: form((DocV::Dict { keys: ks, vals: xs })) + tail,
                nodes: nodes + node_count((DocV::Dict { keys: ks, vals: xs })),
            },
            depth,
            max_depth,
        ) == Read::Got((DocV::Dict { keys: ks, vals: xs }), Rest { bytes: tail, nodes }),
{
    let d = DocV::Dict { keys: ks, vals: xs };
    let left = nodes + (ks.len() + node_counts(xs));
    assert(nodes + node_count(d) == left + 1);
    lemma_map_head(ks.len(), entry_forms(ks, xs) + tail, left);
    assert(form(d) + tail =~= map_head(ks.len()) + (entry_forms(ks, xs) + tail));
}

/// A document reads back from its form, whatever follows.
#[verifier::spinoff_prover]
proof fn lemma_reads_back(d: DocV, tail: Seq<u8>, nodes: nat, depth: nat, max_depth: nat)
    requires
        fits(d, depth, max_depth),
    ensures
        value(Rest { bytes: form(d) + tail, nodes: nodes + node_count(d) }, depth, max_depth)
            == Read::Got(d, Rest { bytes: tail, nodes }),
    decreases d,
{
    match d {
        DocV::Array(xs) => {
            lemma_items_read_back(xs, tail, nodes, depth, max_depth);
            lemma_array_reads_back(xs, tail, nodes, depth, max_depth);
        },
        DocV::Dict { keys, vals } => {
            assert forall|i: int| 0 <= i < keys.len() implies !Seq::<Seq<char>>::empty().contains(
                #[trigger] keys[i],
            ) by {}
            lemma_pairs_read_back(keys, vals, tail, nodes, depth, max_depth, Seq::empty());
            lemma_dict_reads_back(keys, vals, tail, nodes, depth, max_depth);
        },
        _ => {
            lemma_scalar_reads_back(d, tail, nodes, depth, max_depth);
        },
    }
}

proof fn lemma_items_read_back(
    xs: Seq<DocV>,
    tail: Seq<u8>,
    nodes: nat,
    depth: nat,
    max_depth: nat,
)
    requires
        depth <= max_depth,
        forall|i: int| 0 <= i < xs.len() ==> fits(#[trigger] xs[i], depth + 1, max_depth),
    ensures
        items(
            Rest { bytes: forms(xs) + tail, nodes: nodes + node_counts(xs) },
            xs.len(),
            depth,
            max_depth,
        ) == Read::Got(xs, Rest { bytes: tail, nodes }),
        forms(xs).len() >= xs.len(),
        node_counts(xs) >= xs.len(),
    decreases xs,
{
    if xs.len() == 0 {
        assert(forms(xs) + tail =~= tail);
        assert(xs =~= Seq::empty());
    } else {
        let rest = xs.drop_first();
        assert forall|i: int| 0 <= i < rest.len() implies fits(
            #[trigger] rest[i],
            depth + 1,
            max_depth,
        ) by {
            assert(rest[i] == xs[i + 1]);
        }
        assert(fits(xs[0], depth + 1, max_depth));
        lemma_form_len(xs[0]);
        lemma_reads_back(xs[0], forms(rest) + tail, nodes + node_counts(rest), depth + 1, max_depth);
        lemma_items_read_back(rest, tail, nodes, depth, max_depth);
        assert(forms(xs) + tail =~= form(xs[0]) + (forms(rest) + tail));
        assert(nodes + node_counts(xs) == nodes + node_counts(rest) + node_count(xs[0]));
        assert(seq![xs[0]] + rest =~= xs);
    }
}

#[verifier::spinoff_prover]
#[verifier::rlimit(60)]
proof fn lemma_pairs_read_back(
    ks: Seq<Seq<char>>,
    xs: Seq<DocV>,
    tail: Seq<u8>,
    nodes: nat,
    depth: nat,
    max_depth: nat,
    seen: Seq<Seq<char>>,
)
    requires
        depth <= max_depth,
        ks.len() == xs.len(),
        ks.no_duplicates(),
        forall|i: int| 0 <= i < ks.len() ==> !seen.contains(#[trigger] ks[i]),
        forall|i: int| 0 <= i < ks.len() ==> encode_utf8(#[trigger] ks[i]).len() <= 0xFFFF_FFFF,
        forall|i: int| 0 <= i < xs.len() ==> fits(#[trigger] xs[i], depth + 1, max_depth),
    ensures
        pairs(
            Rest { bytes: entry_forms(ks, xs) + tail, nodes: nodes + (ks.len() + node_counts(xs)) },
            ks.len(),
            depth,
            max_depth,
            seen,
        ) == Read::Got((ks, xs), Rest { bytes: tail, nodes }),
        entry_forms(ks, xs).len() >= 2 * ks.len(),
        node_counts(xs) >= xs.len(),
    decreases xs,
{
    if ks.len() == 0 {
        assert(entry_forms(ks, xs) + tail =~= tail);
        assert(ks =~= Seq::empty() && xs =~= Seq::empty());
    } else {
        let kt = ks.drop_first();
        let xt = xs.drop_first();
        let seen2 = seen.push(ks[0]);
        lemma_tail_fits(ks, xs, depth, max_depth, seen);
        lemma_form_len(xs[0]);
        let rest_nodes = nodes + (kt.len() + node_counts(xt));
        let rest_bytes = entry_forms(kt, xt) + tail;
        lemma_key(ks[0], form(xs[0]) + rest_bytes, rest_nodes + node_count(xs[0]));
        lemma_reads_back(xs[0], rest_bytes, rest_nodes, depth + 1, max_depth);
        lemma_pairs_read_back(kt, xt, tail, nodes, depth, max_depth, seen2);
        lemma_first_entry(ks, xs, tail);
        assert(nodes + (ks.len() + node_counts(xs)) == rest_nodes + node_count(xs[0]) + 1);
        lemma_pairs_step(
            Rest { bytes: entry_forms(ks, xs) + tail, nodes: nodes + (ks.len() + node_counts(xs)) },
            Rest { bytes: form(xs[0]) + rest_bytes, nodes: rest_nodes + node_count(xs[0]) },
            Rest { bytes: rest_bytes, nodes: rest_nodes },
            Rest { bytes: tail, nodes },
            ks,
            xs,
            depth,
            max_depth,
            seen,
        );
    }
}

/// The form of entries starts with that of the first.
proof fn lemma_first_entry(ks: Seq<Seq<char>>, xs: Seq<DocV>, tail: Seq<u8>)
    requires
        ks.len() == xs.len(),
        ks.len() > 0,
    ensures
        entry_forms(ks, xs) + tail == str_form(ks[0]) + (form(xs[0]) + (entry_forms(
            ks.drop_first(),
            xs.drop_first(),
        ) + tail)),
        entry_forms(ks, xs).len() == str_form(ks[0]).len() + form(xs[0]).len() + entry_forms(
            ks.drop_first(),
            xs.drop_first(),
        ).len(),
{
    assert(entry_forms(ks, xs) + tail =~= str_form(ks[0]) + (form(xs[0]) + (entry_forms(
        ks.drop_first(),
        xs.drop_first(),
    ) + tail)));
}

/// What holds of entries holds of all but the first, the first now being seen.
proof fn lemma_tail_fits(
    ks: Seq<Seq<char>>,
    xs: Seq<DocV>,
    depth: nat,
    max_depth: nat,
    seen: Seq<Seq<char>>,
)
    requires
        ks.len() == xs.len(),
        ks.len() > 0,
        ks.no_duplicates(),
        forall|i: int| 0 <= i < ks.len() ==> !seen.contains(#[trigger] ks[i]),
        forall|i: int| 0 <= i < ks.len() ==> encode_utf8(#[trigger] ks[i]).len() <= 0xFFFF_FFFF,
        forall|i: int| 0 <= i < xs.len() ==> fits(#[trigger] xs[i], depth + 1, max_depth),
    ensures
        ks.drop_first().no_duplicates(),
        forall|i: int|
            0 <= i < ks.drop_first().len() ==> !seen.push(ks[0]).contains(
                #[trigger] ks.drop_first()[i],
            ),
        forall|i: int|
            0 <= i < ks.drop_first().len() ==> encode_utf8(#[trigger] ks.drop_first()[i]).len()
                <= 0xFFFF_FFFF,
        forall|i: int|
            0 <= i < xs.drop_first().len() ==> fits(
                #[trigger] xs.drop_first()[i],
                depth + 1,
                max_depth,
            ),
        fits(xs[0], depth + 1, max_depth),
        encode_utf8(ks[0]).len() <= 0xFFFF_FFFF,
        !seen.contains(ks[0]),
{
    let kt = ks.drop_first();
    let xt = xs.drop_first();
    let seen2 = seen.push(ks[0]);
    assert forall|i: int| 0 <= i < xt.len() implies fits(#[trigger] xt[i], depth + 1, max_depth) by {
        assert(xt[i] == xs[i + 1]);
    }
    assert forall|i: int| 0 <= i < kt.len() implies encode_utf8(#[trigger] kt[i]).len()
        <= 0xFFFF_FFFF && !seen2.contains(kt[i]) by {
        assert(kt[i] == ks[i + 1]);
        assert(ks[0] != ks[i + 1]);
        if seen2.contains(kt[i]) {
            let j = seen2.index_of(kt[i]);
            assert(seen[j] == kt[i]);
        }
    }
}

/// One entry and then the others are the entries.
proof fn lemma_pairs_step(
    r: Rest,
    r2: Rest,
    r3: Rest,
    r4: Rest,
    ks: Seq<Seq<char>>,
    xs: Seq<DocV>,
    depth: nat,
    max_depth: nat,
    seen: Seq<Seq<char>>,
)
    requires
        depth <= max_depth,
        ks.len() > 0,
        xs.len() == ks.len(),
        key(r) == Read::Got(ks[0], r2),
        !seen.contains(ks[0]),
        value(r2, depth + 1, max_depth) == Read::Got(xs[0], r3),
        pairs(r3, ks.drop_first().len(), depth, max_depth, seen.push(ks[0])) == Read::Got(
            (ks.drop_first(), xs.drop_first()),
            r4,
        ),
    ensures
        pairs(r, ks.len(), depth, max_depth, seen) == Read::Got((ks, xs), r4),
{
    assert(seq![ks[0]] + ks.drop_first() =~= ks);
    assert(seq![xs[0]] + xs.drop_first() =~= xs);
}

/// Encoding round-trips exactly: what a document that the limits admit encodes
/// to decodes to that document.
pub proof fn documents_round_trip(d: DocV, limits: DecodeLimits)
    requires
        fits(d, 0, limits.max_depth as nat),
        node_count(d) <= limits.max_nodes,
        form(d).len() <= limits.max_bytes,
    ensures
        decoded(form(d), limits) == Ok::<DocV, ProtoErrorV>(d),
{
    lemma_reads_back(
        d,
        Seq::empty(),
        (limits.max_nodes - node_count(d)) as nat,
        0,
        limits.max_depth as nat,
    );
    assert(form(d) + Seq::empty() =~= form(d));
}

} // verus!
