//! That what is decoded is within the limits.

use vstd::prelude::*;
use vstd::utf8::{decode_utf8_encode_utf8, encode_utf8};
use crate::bytes::{lemma_be_bytes_of_be_nat, lemma_pow256_values};
use super::encode::{fits, node_count, node_counts};
use super::wire::{
    charge, decoded, head_of, items, key, length, number, pairs, take, text, value, DecodeLimits,
    DocV, Head, Read, Rest, Span,
};

verus! {

proof fn lemma_length(r: Rest, span: Span)
    requires
        span matches Span::Wide(w) ==> w == 1 || w == 2 || w == 4,
    ensures
        length(r, span) matches Read::Got(n, r2) ==> n <= 0xFFFF_FFFF && r2.nodes == r.nodes,
{
    if let Span::Wide(w) = span {
        if r.bytes.len() >= w {
            lemma_pow256_values();
            lemma_be_bytes_of_be_nat(r.bytes.take(w as int));
        }
    }
}

proof fn lemma_text_fits(r: Rest, n: nat)
    requires
        n <= 0xFFFF_FFFF,
    ensures
        text(r, n) matches Read::Got(s, r2) ==> encode_utf8(s).len() <= 0xFFFF_FFFF && r2.nodes
            == r.nodes,
{
    if text(r, n) is Got {
        decode_utf8_encode_utf8(r.bytes.take(n as int));
    }
}

proof fn lemma_key_fits(r: Rest)
    ensures
        key(r) matches Read::Got(s, r2) ==> encode_utf8(s).len() <= 0xFFFF_FFFF && r2.nodes + 1
            == r.nodes,
{
    if let Read::Got(_, r1) = charge(r) {
        if let Read::Got(b, r2) = number(r1, 1) {
            if let Head::Str(span) = head_of(b as u8) {
                lemma_length(r2, span);
                if let Read::Got(n, r3) = length(r2, span) {
                    lemma_text_fits(r3, n);
                }
            }
        }
    }
}

proof fn lemma_value_fits(r: Rest, depth: nat, max_depth: nat)
    ensures
        value(r, depth, max_depth) matches Read::Got(d, r2) ==> fits(d, depth, max_depth)
            && r2.nodes + node_count(d) == r.nodes,
    decreases max_depth + 1 - depth, 1nat, 0nat,
{
    if depth <= max_depth {
        if let Read::Got(_, r1) = charge(r) {
            if let Read::Got(b, r2) = number(r1, 1) {
                match head_of(b as u8) {
                    Head::Str(span) => {
                        lemma_length(r2, span);
                        if let Read::Got(n, r3) = length(r2, span) {
                            lemma_text_fits(r3, n);
                        }
                    },
                    Head::Bin(span) => {
                        lemma_length(r2, span);
                    },
                    Head::Array(span) => {
                        lemma_length(r2, span);
                        if let Read::Got(n, r3) = length(r2, span) {
                            lemma_items_fit(r3, n, depth, max_depth);
                        }
                    },
                    Head::Dict(span) => {
                        lemma_length(r2, span);
                        if let Read::Got(n, r3) = length(r2, span) {
                            lemma_pairs_fit(r3, n, depth, max_depth, Seq::empty());
                        }
                    },
                    _ => {},
                }
            }
        }
    }
}

proof fn lemma_items_fit(r: Rest, n: nat, depth: nat, max_depth: nat)
    requires
        depth <= max_depth,
    ensures
        items(r, n, depth, max_depth) matches Read::Got(xs, r2) ==> {
            &&& xs.len() == n
            &&& forall|i: int| 0 <= i < xs.len() ==> fits(#[trigger] xs[i], depth + 1, max_depth)
            &&& r2.nodes + node_counts(xs) == r.nodes
        },
    decreases max_depth + 1 - depth, 0nat, n,
{
    if n > 0 {
        lemma_value_fits(r, depth + 1, max_depth);
        if let Read::Got(x, r2) = value(r, depth + 1, max_depth) {
            lemma_items_fit(r2, (n - 1) as nat, depth, max_depth);
            if let Read::Got(xs, r3) = items(r2, (n - 1) as nat, depth, max_depth) {
                let all = seq![x] + xs;
                assert(all.drop_first() =~= xs);
                assert forall|i: int| 0 <= i < all.len() implies fits(
                    #[trigger] all[i],
                    depth + 1,
                    max_depth,
                ) by {
                    if i > 0 {
                        assert(all[i] == xs[i - 1]);
                    }
                }
            }
        }
    }
}

proof fn lemma_pairs_fit(r: Rest, n: nat, depth: nat, max_depth: nat, seen: Seq<Seq<char>>)
    requires
        depth <= max_depth,
    ensures
        pairs(r, n, depth, max_depth, seen) matches Read::Got((ks, xs), r2) ==> {
            &&& ks.len() == n
            &&& xs.len() == n
            &&& ks.no_duplicates()
            &&& forall|i: int|
                0 <= i < ks.len() ==> encode_utf8(#[trigger] ks[i]).len() <= 0xFFFF_FFFF
                    && !seen.contains(ks[i])
            &&& forall|i: int| 0 <= i < xs.len() ==> fits(#[trigger] xs[i], depth + 1, max_depth)
            &&& r2.nodes + ks.len() + node_counts(xs) == r.nodes
        },
    decreases max_depth + 1 - depth, 0nat, n,
{
    if n > 0 {
        lemma_key_fits(r);
        if let Read::Got(k, r2) = key(r) {
            if !seen.contains(k) {
                lemma_value_fits(r2, depth + 1, max_depth);
                if let Read::Got(x, r3) = value(r2, depth + 1, max_depth) {
                    let seen2 = seen.push(k);
                    lemma_pairs_fit(r3, (n - 1) as nat, depth, max_depth, seen2);
                    if let Read::Got((kt, xt), r4) = pairs(
                        r3,
                        (n - 1) as nat,
                        depth,
                        max_depth,
                        seen2,
                    ) {
                        lemma_one_more(k, kt, x, xt, depth, max_depth, seen);
                    }
                }
            }
        }
    }
}

proof fn lemma_one_more(
    k: Seq<char>,
    kt: Seq<Seq<char>>,
    x: DocV,
    xt: Seq<DocV>,
    depth: nat,
    max_depth: nat,
    seen: Seq<Seq<char>>,
)
    requires
        kt.no_duplicates(),
        !seen.contains(k),
        encode_utf8(k).len() <= 0xFFFF_FFFF,
        fits(x, depth + 1, max_depth),
        forall|i: int|
            0 <= i < kt.len() ==> encode_utf8(#[trigger] kt[i]).len() <= 0xFFFF_FFFF && !seen.push(
                k,
            ).contains(kt[i]),
        forall|i: int| 0 <= i < xt.len() ==> fits(#[trigger] xt[i], depth + 1, max_depth),
    ensures
        (seq![k] + kt).no_duplicates(),
        forall|i: int|
            0 <= i < (seq![k] + kt).len() ==> encode_utf8(#[trigger] (seq![k] + kt)[i]).len()
                <= 0xFFFF_FFFF && !seen.contains((seq![k] + kt)[i]),
        forall|i: int|
            0 <= i < (seq![x] + xt).len() ==> fits(
                #[trigger] (seq![x] + xt)[i],
                depth + 1,
                max_depth,
            ),
        node_counts(seq![x] + xt) == node_count(x) + node_counts(xt),
{
    let ks = seq![k] + kt;
    let xs = seq![x] + xt;
    let seen2 = seen.push(k);
    assert(xs.drop_first() =~= xt);
    assert(seen2[seen.len() as int] == k);
    assert(seen2.contains(k));
    assert forall|i: int| 0 <= i < ks.len() implies encode_utf8(#[trigger] ks[i]).len()
        <= 0xFFFF_FFFF && !seen.contains(ks[i]) && (i > 0 ==> ks[i] != k) by {
        if i > 0 {
            assert(ks[i] == kt[i - 1]);
            if seen.contains(ks[i]) {
                let j = seen.index_of(ks[i]);
                assert(seen2[j] == ks[i]);
            }
        }
    }
    assert forall|i: int, j: int| 0 <= i < ks.len() && 0 <= j < ks.len() && i != j implies ks[i]
        != ks[j] by {
        if i > 0 && j > 0 {
            assert(ks[i] == kt[i - 1] && ks[j] == kt[j - 1]);
        }
    }
    assert forall|i: int| 0 <= i < xs.len() implies fits(#[trigger] xs[i], depth + 1, max_depth) by {
        if i > 0 {
            assert(xs[i] == xt[i - 1]);
        }
    }
}

/// Every decoded document is within the limits, and the keys of each of its
/// maps are different.
pub proof fn decoded_documents_fit(bytes: Seq<u8>, limits: DecodeLimits)
    ensures
        decoded(bytes, limits) matches Ok(d) ==> {
            &&& bytes.len() <= limits.max_bytes
            &&& fits(d, 0, limits.max_depth as nat)
            &&& node_count(d) <= limits.max_nodes
        },
{
    lemma_value_fits(Rest { bytes, nodes: limits.max_nodes as nat }, 0, limits.max_depth as nat);
}

} // verus!
