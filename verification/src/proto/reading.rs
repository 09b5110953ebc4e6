//! How numbers are read from a message: at any width that holds them, and floats by
//! their value.

use vstd::prelude::*;
use vstd::arithmetic::power2::{lemma2_to64, lemma_pow2_unfold, pow2};
use super::error::ProtoErrorV;
use super::wire::{head_of, key, normal, number, signed, value, widened, DocV, Head, Read, Rest};
use crate::bytes::{be_bytes, lemma_be_nat_of_be_bytes, lemma_pow256_values, pow256};

verus! {

/// Whether a head byte announces an integer of so many bytes, with a sign or without.
pub open spec fn announces(head: u8, width: nat, with_sign: bool) -> bool {
    let first: int = if with_sign {
        0xD0
    } else {
        0xCC
    };
    ||| head == first && width == 1
    ||| head == first + 1 && width == 2
    ||| head == first + 2 && width == 4
    ||| head == first + 3 && width == 8
}

/// An integer is read as what it is at every width that holds it, not only the narrowest:
/// with a sign in two's complement, without one as it stands.
pub proof fn integers_are_read_at_any_width(
    n: i64,
    head: u8,
    width: nat,
    with_sign: bool,
    tail: Seq<u8>,
    nodes: nat,
    depth: nat,
    max_depth: nat,
)
    requires
        depth <= max_depth,
        announces(head, width, with_sign),
        with_sign ==> -pow256(width) <= 2 * n < pow256(width),
        !with_sign ==> 0 <= n < pow256(width),
    ensures
        ({
            let bits = if n < 0 {
                (n + pow256(width)) as nat
            } else {
                n as nat
            };
            value(
                Rest { bytes: seq![head] + be_bytes(bits, width) + tail, nodes: nodes + 1 },
                depth,
                max_depth,
            ) == Read::Got(DocV::Int(n), Rest { bytes: tail, nodes })
        }),
{
    lemma_pow256_values();
    let bits = if n < 0 {
        (n + pow256(width)) as nat
    } else {
        n as nat
    };
    let bytes = seq![head] + be_bytes(bits, width) + tail;
    let rest = be_bytes(bits, width) + tail;
    let r1 = Rest { bytes, nodes };
    assert(bytes.take(1) =~= seq![head]);
    assert(bytes.skip(1) =~= rest);
    lemma_one_byte(head);
    assert(number(r1, 1) == Read::Got(head as nat, Rest { bytes: rest, nodes }));
    lemma_be_nat_of_be_bytes(bits, width);
    let b = be_bytes(bits, width);
    assert(rest.take(width as int) =~= b);
    assert(rest.skip(width as int) =~= tail);
    let w = width as u8;
    assert(number(Rest { bytes: rest, nodes }, w) == Read::Got(
        bits,
        Rest { bytes: tail, nodes },
    ));
    if with_sign {
        assert(head_of(head) == Head::Signed(w));
        assert(signed(bits, w) == n);
    } else {
        assert(head_of(head) == Head::Unsigned(w));
    }
}

proof fn lemma_one_byte(b: u8)
    ensures
        crate::bytes::be_nat(seq![b]) == b,
{
    lemma_pow256_values();
    lemma_be_nat_of_be_bytes(b as nat, 1);
    crate::bytes::lemma_be_bytes_of_be_nat(seq![b]);
    let s = seq![b];
    assert(s.reverse() =~= s);
    reveal_with_fuel(crate::bytes::le_nat, 2);
}

/// A float of four bytes becomes the float of eight bytes of the same value: its sign stays,
/// a normal number keeps its exponent, counted from the wider bias, and its fraction, padded;
/// zero stays zero and infinity infinity; what is not a number stays so, and is quiet; and a
/// subnormal number becomes the normal number that is as large.
pub proof fn widened_floats_keep_their_value(b: nat)
    requires
        b < 0x1_0000_0000,
    ensures
        ({
            let exp = (b / 0x80_0000) % 0x100;
            let frac = b % 0x80_0000;
            let w = widened(b);
            let wide_exp = (w / 0x10_0000_0000_0000) % 0x800;
            let wide_frac = w % 0x10_0000_0000_0000;
            &&& w < 0x1_0000_0000_0000_0000
            &&& w / 0x8000_0000_0000_0000 == b / 0x8000_0000
            &&& 0 < exp < 0xFF ==> wide_exp - 1023 == exp - 127 && wide_frac == frac * 0x2000_0000
            &&& exp == 0 && frac == 0 ==> wide_exp == 0 && wide_frac == 0
            &&& exp == 0xFF && frac == 0 ==> wide_exp == 0x7FF && wide_frac == 0
            &&& exp == 0xFF && frac > 0 ==> wide_exp == 0x7FF && wide_frac
                >= 0x8_0000_0000_0000
            &&& exp == 0 && frac > 0 ==> (wide_frac + 0x10_0000_0000_0000) * pow2(wide_exp) == frac
                * 0x2000_0000 * pow2(897)
        }),
{
    let exp = (b / 0x80_0000) % 0x100;
    let frac = b % 0x80_0000;
    if exp == 0 && frac > 0 {
        lemma2_to64();
        assert(pow2(23) == 0x80_0000);
        assert(frac * pow2(23) >= 0x80_0000) by (nonlinear_arith)
            requires
                frac >= 1,
                pow2(23) == 0x80_0000,
        ;
        lemma_normal(frac, 897, 23);
    }
}

proof fn lemma_normal(frac: nat, exp: nat, steps: nat)
    requires
        0 < frac < 0x100_0000,
        steps <= exp < 0x700,
        frac * pow2(steps) >= 0x80_0000,
    ensures
        ({
            let w = normal(frac, exp);
            let wide_exp = w / 0x10_0000_0000_0000;
            let wide_frac = w % 0x10_0000_0000_0000;
            &&& wide_exp <= exp
            &&& (wide_frac + 0x10_0000_0000_0000) * pow2(wide_exp) == frac * 0x2000_0000 * pow2(
                exp,
            )
        }),
    decreases exp,
{
    if frac >= 0x80_0000 {
        let w = normal(frac, exp);
        assert(w == exp * 0x10_0000_0000_0000 + (frac % 0x80_0000) * 0x2000_0000);
        assert(w / 0x10_0000_0000_0000 == exp);
        assert(w % 0x10_0000_0000_0000 + 0x10_0000_0000_0000 == frac * 0x2000_0000);
    } else {
        if steps == 0 {
            lemma2_to64();
            assert(frac * pow2(0) == frac) by (nonlinear_arith)
                requires
                    pow2(0) == 1,
            ;
        }
        assert(exp > 0);
        lemma_pow2_unfold(steps);
        lemma_pow2_unfold(exp);
        let p = pow2((steps - 1) as nat);
        assert((frac * 2) * p == frac * (2 * p)) by (nonlinear_arith);
        lemma_normal(frac * 2, (exp - 1) as nat, (steps - 1) as nat);
        let q = pow2((exp - 1) as nat);
        assert((frac * 2) * 0x2000_0000 * q == frac * 0x2000_0000 * (2 * q)) by (nonlinear_arith);
    }
}

/// A message holds no extension and no reserved byte, and its maps have strings for keys:
/// whatever follows, the head byte is refused.
pub proof fn strange_heads_are_refused(
    head: u8,
    tail: Seq<u8>,
    nodes: nat,
    depth: nat,
    max_depth: nat,
)
    requires
        depth <= max_depth,
    ensures
        ({
            let r = Rest { bytes: seq![head] + tail, nodes: nodes + 1 };
            &&& head == 0xC1 ==> value(r, depth, max_depth) == Read::<DocV>::Fail(
                ProtoErrorV::ReservedByte,
            )
            &&& 0xC7 <= head <= 0xC9 || 0xD4 <= head <= 0xD8 ==> value(r, depth, max_depth)
                == Read::<DocV>::Fail(ProtoErrorV::ExtNotAllowed)
            &&& !(0xA0 <= head <= 0xBF || 0xD9 <= head <= 0xDB) ==> key(r) == Read::<
                Seq<char>,
            >::Fail(ProtoErrorV::NonStringKey)
        }),
{
    let bytes = seq![head] + tail;
    let r1 = Rest { bytes, nodes };
    assert(bytes.take(1) =~= seq![head]);
    assert(bytes.skip(1) =~= tail);
    lemma_one_byte(head);
    assert(number(r1, 1) == Read::Got(head as nat, Rest { bytes: tail, nodes }));
}

} // verus!
