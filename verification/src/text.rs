//! Strings: comparison, UTF-8 and the decimal form of integers.

use vstd::prelude::*;
use vstd::string::StringExecFns;
use vstd::utf8::{decode_utf8, encode_utf8_decode_utf8, valid_utf8};
use crate::bytes::bytes_eq;
use crate::views::views;

verus! {

/// Whether two strings are the same.
pub fn same(a: &str, b: &str) -> (r: bool)
    ensures
        r == (a@ == b@),
{
    proof {
        encode_utf8_decode_utf8(a@);
        encode_utf8_decode_utf8(b@);
    }
    bytes_eq(a.as_bytes(), b.as_bytes())
}

/// `String::from_utf8`: the text of bytes that are valid UTF-8, nothing for any
/// other bytes.
#[verifier::external_body]
pub(crate) fn from_utf8(bytes: Vec<u8>) -> (r: Option<String>)
    ensures
        match r {
            Some(s) => valid_utf8(bytes@) && s@ == decode_utf8(bytes@),
            None => !valid_utf8(bytes@),
        },
{
    String::from_utf8(bytes).ok()
}

/// What `{:?}` shows of a string: the string in quotes, with what cannot stand
/// there escaped.
pub uninterp spec fn shown(s: Seq<char>) -> Seq<char>;

/// `format!("{:?}", s)`: the text that the standard library's `Debug` of a string
/// gives, by its name. What it escapes, and how, is not stated.
#[verifier::external_body]
pub(crate) fn show(s: &str) -> (r: String)
    ensures
        r@ == shown(s@),
{
    format!("{:?}", s)
}

/// The decimal digit for `d`.
pub open spec fn digit(d: nat) -> char {
    (48 + d) as char
}

/// The decimal digits of `n`.
pub open spec fn decimal(n: nat) -> Seq<char>
    decreases n,
{
    if n < 10 {
        seq![digit(n)]
    } else {
        decimal(n / 10).push(digit(n % 10))
    }
}

/// The decimal form of `n`, with a sign if it is negative.
pub open spec fn signed_decimal(n: int) -> Seq<char> {
    if n < 0 {
        seq!['-'] + decimal((-n) as nat)
    } else {
        decimal(n as nat)
    }
}

/// What a text of decimal digits counts to.
pub open spec fn counted(s: Seq<char>) -> nat
    decreases s.len(),
{
    if s.len() == 0 {
        0
    } else {
        10 * counted(s.drop_last()) + (s.last() as u32 - '0' as u32) as nat
    }
}

/// The decimal form of a number is the text of digits that counts to it, without
/// zeros in front of it.
pub proof fn decimals_count_to_their_number(n: nat)
    ensures
        decimal(n).len() > 0,
        forall|i: int| 0 <= i < decimal(n).len() ==> '0' <= #[trigger] decimal(n)[i] <= '9',
        decimal(n).len() > 1 ==> decimal(n)[0] != '0',
        counted(decimal(n)) == n,
    decreases n,
{
    if n < 10 {
        assert(decimal(n).drop_last() =~= Seq::empty());
        assert(counted(decimal(n).drop_last()) == 0);
    } else {
        decimals_count_to_their_number(n / 10);
        assert(decimal(n).drop_last() =~= decimal(n / 10));
        if n / 10 < 10 {
            assert(decimal(n / 10).len() == 1);
            assert(decimal(n / 10)[0] == digit(n / 10));
        } else {
            decimals_count_to_their_number(n / 10 / 10);
            assert(decimal(n / 10) == decimal(n / 10 / 10).push(digit(n / 10 % 10)));
        }
        assert(decimal(n)[0] == decimal(n / 10)[0]);
    }
}

/// The signed form of a number is that of its magnitude, behind a minus sign exactly
/// where it is negative.
pub proof fn signs_stand_before_negative_numbers(n: int)
    ensures
        n >= 0 ==> signed_decimal(n) == decimal(n as nat),
        n < 0 ==> signed_decimal(n).len() > 0 && signed_decimal(n)[0] == '-'
            && signed_decimal(n).drop_first() == decimal((-n) as nat),
{
    if n < 0 {
        assert(signed_decimal(n).drop_first() =~= decimal((-n) as nat));
    }
}

fn push_digit(out: &mut String, d: u64)
    requires
        d < 10,
    ensures
        final(out)@ == old(out)@.push(digit(d as nat)),
{
    proof {
        reveal_strlit("0");
        reveal_strlit("1");
        reveal_strlit("2");
        reveal_strlit("3");
        reveal_strlit("4");
        reveal_strlit("5");
        reveal_strlit("6");
        reveal_strlit("7");
        reveal_strlit("8");
        reveal_strlit("9");
    }
    let s = match d {
        0 => "0",
        1 => "1",
        2 => "2",
        3 => "3",
        4 => "4",
        5 => "5",
        6 => "6",
        7 => "7",
        8 => "8",
        _ => "9",
    };
    assert(s@ =~= seq![digit(d as nat)]);
    out.append(s);
    assert(out@ =~= old(out)@.push(digit(d as nat)));
}

/// Append the decimal digits of `n`.
pub fn push_decimal(out: &mut String, n: u64)
    ensures
        final(out)@ == old(out)@ + decimal(n as nat),
    decreases n,
{
    if n >= 10 {
        push_decimal(out, n / 10);
    }
    push_digit(out, n % 10);
    assert(out@ =~= old(out)@ + decimal(n as nat));
}

/// The decimal form of `n`.
pub fn to_decimal(n: u64) -> (r: String)
    ensures
        r@ == decimal(n as nat),
{
    let mut out = String::new();
    push_decimal(&mut out, n);
    assert(out@ =~= decimal(n as nat));
    out
}

/// The decimal form of `n`, with a sign if it is negative.
pub fn to_signed_decimal(n: i64) -> (r: String)
    ensures
        r@ == signed_decimal(n as int),
{
    if n < 0 {
        let mut out = "-".to_owned();
        let m: u64 = (-(n + 1)) as u64 + 1;
        push_decimal(&mut out, m);
        proof {
            reveal_strlit("-");
            assert("-"@ =~= seq!['-']);
        }
        out
    } else {
        to_decimal(n as u64)
    }
}

/// Texts one after the other, with `sep` between them.
pub open spec fn join_text(parts: Seq<Seq<char>>, sep: Seq<char>) -> Seq<char>
    decreases parts.len(),
{
    if parts.len() == 0 {
        Seq::empty()
    } else if parts.len() == 1 {
        parts[0]
    } else {
        join_text(parts.drop_last(), sep) + sep + parts.last()
    }
}

/// One text joined is itself; those of two lists joined are each joined, with the
/// separator between them.
pub proof fn joined_texts_stand_apart(a: Seq<Seq<char>>, b: Seq<Seq<char>>, sep: Seq<char>)
    ensures
        join_text(Seq::empty(), sep) == Seq::<char>::empty(),
        forall|x: Seq<char>| #[trigger] join_text(seq![x], sep) == x,
        a.len() > 0 && b.len() > 0 ==> join_text(a + b, sep) == join_text(a, sep) + sep + join_text(
            b,
            sep,
        ),
    decreases b.len(),
{
    if a.len() > 0 && b.len() > 0 {
        let front = b.drop_last();
        assert((a + b).drop_last() =~= a + front);
        assert((a + b).last() == b.last());
        if b.len() == 1 {
            assert(a + front =~= a);
        } else {
            joined_texts_stand_apart(a, front, sep);
            assert(join_text(a, sep) + sep + join_text(front, sep) + sep + b.last() =~= join_text(
                a,
                sep,
            ) + sep + (join_text(front, sep) + sep + b.last()));
        }
    }
}

/// Texts one after the other, with `sep` between them.
pub fn join_texts(parts: &Vec<String>, sep: &str) -> (r: String)
    ensures
        r@ == join_text(views(parts@), sep@),
{
    let ghost vs = views(parts@);
    let mut out = String::new();
    let mut i: usize = 0;
    assert(vs.take(0) =~= Seq::empty());
    while i < parts.len()
        invariant
            i <= parts@.len(),
            vs == views(parts@),
            out@ == join_text(vs.take(i as int), sep@),
        decreases parts@.len() - i,
    {
        proof {
            assert(vs[i as int] == parts@[i as int]@);
            assert(vs.take(i + 1).drop_last() =~= vs.take(i as int));
            assert(vs.take(i + 1).last() == vs[i as int]);
        }
        let ghost before = out@;
        if i > 0 {
            out.append(sep);
        }
        out.append(parts[i].as_str());
        i = i + 1;
        assert(out@ =~= join_text(vs.take(i as int), sep@));
    }
    assert(vs.take(i as int) =~= vs);
    out
}

/// `before` and a number.
pub fn numbered(before: &str, n: u64) -> (r: String)
    ensures
        r@ == before@ + decimal(n as nat),
{
    let mut out = before.to_owned();
    push_decimal(&mut out, n);
    out
}

/// `before`, a number, and `after`.
pub fn around(before: &str, n: u64, after: &str) -> (r: String)
    ensures
        r@ == before@ + decimal(n as nat) + after@,
{
    let mut out = before.to_owned();
    push_decimal(&mut out, n);
    out.append(after);
    out
}

/// `before`, a number, `between`, and another number.
pub fn numbered_two(before: &str, a: u64, between: &str, b: u64) -> (r: String)
    ensures
        r@ == before@ + decimal(a as nat) + between@ + decimal(b as nat),
{
    let mut out = around(before, a, between);
    push_decimal(&mut out, b);
    out
}

/// What bytes read as, where what is not UTF-8 is replaced.
pub uninterp spec fn lossy(bytes: Seq<u8>) -> Seq<char>;

/// `String::from_utf8_lossy`, owned: the text of bytes, by its name; for bytes that
/// are valid UTF-8 it is what they encode. What stands for other bytes is not stated.
#[verifier::external_body]
pub(crate) fn from_utf8_lossy(bytes: &[u8]) -> (r: String)
    ensures
        r@ == lossy(bytes@),
        valid_utf8(bytes@) ==> r@ == decode_utf8(bytes@),
{
    String::from_utf8_lossy(bytes).into_owned()
}

} // verus!
