//! Fixed-width integers as byte strings, in both byte orders.

use vstd::prelude::*;

verus! {

/// The number a little-endian byte string denotes.
pub open spec fn le_nat(s: Seq<u8>) -> nat
    decreases s.len(),
{
    if s.len() == 0 {
        0
    } else {
        s[0] as nat + 256 * le_nat(s.drop_first())
    }
}

/// The little-endian byte string of width `n` for `x`.
pub open spec fn le_bytes(x: nat, n: nat) -> Seq<u8>
    decreases n,
{
    if n == 0 {
        Seq::empty()
    } else {
        seq![(x % 256) as u8] + le_bytes(x / 256, (n - 1) as nat)
    }
}

/// The number a big-endian byte string denotes.
pub open spec fn be_nat(s: Seq<u8>) -> nat {
    le_nat(s.reverse())
}

/// The big-endian byte string of width `n` for `x`.
pub open spec fn be_bytes(x: nat, n: nat) -> Seq<u8> {
    le_bytes(x, n).reverse()
}

/// 256 to the power `n`: one past the largest number of `n` bytes.
pub open spec fn pow256(n: nat) -> nat
    decreases n,
{
    if n == 0 {
        1
    } else {
        256 * pow256((n - 1) as nat)
    }
}

pub proof fn lemma_pow256_values()
    ensures
        pow256(1) == 0x100,
        pow256(2) == 0x1_0000,
        pow256(4) == 0x1_0000_0000,
        pow256(8) == 0x1_0000_0000_0000_0000,
{
    reveal_with_fuel(pow256, 9);
}

pub proof fn lemma_le_bytes_len(x: nat, n: nat)
    ensures
        le_bytes(x, n).len() == n,
    decreases n,
{
    if n > 0 {
        lemma_le_bytes_len(x / 256, (n - 1) as nat);
    }
}

/// Decoding an encoded number gives the number back, if it fits the width.
pub proof fn lemma_le_nat_of_le_bytes(x: nat, n: nat)
    requires
        x < pow256(n),
    ensures
        le_nat(le_bytes(x, n)) == x,
        le_bytes(x, n).len() == n,
    decreases n,
{
    if n > 0 {
        lemma_le_nat_of_le_bytes(x / 256, (n - 1) as nat);
        assert(le_bytes(x, n).drop_first() =~= le_bytes(x / 256, (n - 1) as nat));
    }
}

/// Every byte string is the encoding of the number it denotes.
pub proof fn lemma_le_bytes_of_le_nat(s: Seq<u8>)
    ensures
        le_bytes(le_nat(s), s.len()) == s,
        le_nat(s) < pow256(s.len()),
    decreases s.len(),
{
    if s.len() > 0 {
        lemma_le_bytes_of_le_nat(s.drop_first());
        let rest = le_nat(s.drop_first());
        assert((s[0] as nat + 256 * rest) % 256 == s[0] as nat);
        assert((s[0] as nat + 256 * rest) / 256 == rest);
        assert(le_bytes(le_nat(s), s.len()) =~= s);
    } else {
        assert(le_bytes(le_nat(s), s.len()) =~= s);
    }
}

pub proof fn lemma_be_nat_of_be_bytes(x: nat, n: nat)
    requires
        x < pow256(n),
    ensures
        be_nat(be_bytes(x, n)) == x,
        be_bytes(x, n).len() == n,
{
    lemma_le_nat_of_le_bytes(x, n);
    assert(le_bytes(x, n).reverse().reverse() =~= le_bytes(x, n));
}

pub proof fn lemma_be_bytes_of_be_nat(s: Seq<u8>)
    ensures
        be_bytes(be_nat(s), s.len()) == s,
        be_nat(s) < pow256(s.len()),
{
    lemma_le_bytes_of_le_nat(s.reverse());
    assert(s.reverse().reverse() =~= s);
}

/// In a little-endian byte string the first byte counts least and each further one 256 times
/// as much as the one before it; in a big-endian one it is the other way round.
pub proof fn bytes_count_by_their_place(b: u8, s: Seq<u8>)
    ensures
        le_nat(seq![b] + s) == b + 256 * le_nat(s),
        be_nat(s.push(b)) == b + 256 * be_nat(s),
        le_nat(Seq::empty()) == 0,
        be_nat(Seq::empty()) == 0,
{
    assert((seq![b] + s).drop_first() =~= s);
    assert(s.push(b).reverse() =~= seq![b] + s.reverse());
    assert((seq![b] + s.reverse()).drop_first() =~= s.reverse());
    assert(Seq::<u8>::empty().reverse() =~= Seq::empty());
}

/// The 16-bit little-endian number at `at`.
pub fn get_le16(s: &[u8], at: usize) -> (r: u16)
    requires
        at + 2 <= s@.len(),
    ensures
        r == le_nat(s@.subrange(at as int, at + 2)),
{
    assert(s.len() == s@.len());
    let r: u16 = s[at] as u16 + 256 * s[at + 1] as u16;
    proof {
        let w = s@.subrange(at as int, at + 2);
        reveal_with_fuel(le_nat, 3);
        assert(w.drop_first()[0] == s@[at + 1]);
    }
    r
}

/// The 32-bit little-endian number at `at`.
pub fn get_le32(s: &[u8], at: usize) -> (r: u32)
    requires
        at + 4 <= s@.len(),
    ensures
        r == le_nat(s@.subrange(at as int, at + 4)),
{
    assert(s.len() == s@.len());
    let lo = get_le16(s, at);
    let hi = get_le16(s, at + 2);
    let r: u32 = lo as u32 + 65536 * hi as u32;
    proof {
        lemma_le_nat_split(s@.subrange(at as int, at + 4), 2);
        lemma_pow256_values();
        assert(s@.subrange(at as int, at + 4).take(2) =~= s@.subrange(at as int, at + 2));
        assert(s@.subrange(at as int, at + 4).skip(2) =~= s@.subrange(at + 2, at + 4));
    }
    r
}

/// The 64-bit little-endian number at `at`.
pub fn get_le64(s: &[u8], at: usize) -> (r: u64)
    requires
        at + 8 <= s@.len(),
    ensures
        r == le_nat(s@.subrange(at as int, at + 8)),
{
    assert(s.len() == s@.len());
    let lo = get_le32(s, at);
    let hi = get_le32(s, at + 4);
    let r: u64 = lo as u64 + 0x1_0000_0000 * hi as u64;
    proof {
        lemma_le_nat_split(s@.subrange(at as int, at + 8), 4);
        lemma_pow256_values();
        assert(s@.subrange(at as int, at + 8).take(4) =~= s@.subrange(at as int, at + 4));
        assert(s@.subrange(at as int, at + 8).skip(4) =~= s@.subrange(at + 4, at + 8));
    }
    r
}

pub proof fn lemma_le_nat_split(s: Seq<u8>, k: nat)
    requires
        k <= s.len(),
    ensures
        le_nat(s) == le_nat(s.take(k as int)) + pow256(k) * le_nat(s.skip(k as int)),
    decreases k,
{
    if k == 0 {
        assert(s.skip(0) =~= s);
        let all = le_nat(s);
        assert(pow256(0) * all == all) by (nonlinear_arith)
            requires
                pow256(0) == 1,
        ;
    } else {
        let t = s.drop_first();
        lemma_le_nat_split(t, (k - 1) as nat);
        assert(t.take(k - 1) =~= s.take(k as int).drop_first());
        assert(t.skip(k - 1) =~= s.skip(k as int));
        let a = le_nat(t.take(k - 1));
        let p = pow256((k - 1) as nat);
        let b = le_nat(s.skip(k as int));
        assert(s.take(k as int)[0] == s[0]);
        assert(256 * (a + p * b) == 256 * a + (256 * p) * b) by (nonlinear_arith);
    }
}

/// The 16-bit big-endian number at `at`.
pub fn get_be16(s: &[u8], at: usize) -> (r: u16)
    requires
        at + 2 <= s@.len(),
    ensures
        r == be_nat(s@.subrange(at as int, at + 2)),
{
    assert(s.len() == s@.len());
    let r: u16 = s[at + 1] as u16 + 256 * s[at] as u16;
    proof {
        let w = s@.subrange(at as int, at + 2).reverse();
        reveal_with_fuel(le_nat, 3);
        assert(w.drop_first()[0] == s@[at as int]);
    }
    r
}

/// The 32-bit big-endian number at `at`.
pub fn get_be32(s: &[u8], at: usize) -> (r: u32)
    requires
        at + 4 <= s@.len(),
    ensures
        r == be_nat(s@.subrange(at as int, at + 4)),
{
    assert(s.len() == s@.len());
    let hi = get_be16(s, at);
    let lo = get_be16(s, at + 2);
    let r: u32 = lo as u32 + 65536 * hi as u32;
    proof {
        let w = s@.subrange(at as int, at + 4).reverse();
        lemma_le_nat_split(w, 2);
        lemma_pow256_values();
        assert(w.take(2) =~= s@.subrange(at + 2, at + 4).reverse());
        assert(w.skip(2) =~= s@.subrange(at as int, at + 2).reverse());
    }
    r
}

/// The 64-bit big-endian number at `at`.
pub fn get_be64(s: &[u8], at: usize) -> (r: u64)
    requires
        at + 8 <= s@.len(),
    ensures
        r == be_nat(s@.subrange(at as int, at + 8)),
{
    assert(s.len() == s@.len());
    let hi = get_be32(s, at);
    let lo = get_be32(s, at + 4);
    let r: u64 = lo as u64 + 0x1_0000_0000 * hi as u64;
    proof {
        let w = s@.subrange(at as int, at + 8).reverse();
        lemma_le_nat_split(w, 4);
        lemma_pow256_values();
        assert(w.take(4) =~= s@.subrange(at + 4, at + 8).reverse());
        assert(w.skip(4) =~= s@.subrange(at as int, at + 4).reverse());
    }
    r
}

/// Appends the `n` low bytes of `x`, least significant first.
pub fn push_le(out: &mut Vec<u8>, x: u64, n: usize)
    requires
        n <= 8,
    ensures
        final(out)@ == old(out)@ + le_bytes(x as nat, n as nat),
{
    let mut rest: u64 = x;
    let mut k: usize = n;
    proof {
        lemma_le_bytes_len(x as nat, n as nat);
    }
    while k > 0
        invariant
            k <= n,
            out@ + le_bytes(rest as nat, k as nat) == old(out)@ + le_bytes(x as nat, n as nat),
        decreases k,
    {
        let ghost before = out@;
        out.push((rest % 256) as u8);
        proof {
            assert(out@ + le_bytes(rest as nat / 256, (k - 1) as nat) =~= before + le_bytes(
                rest as nat,
                k as nat,
            ));
        }
        rest = rest / 256;
        k = k - 1;
    }
    assert(out@ =~= out@ + le_bytes(rest as nat, 0));
}

/// Appends the `n` low bytes of `x`, most significant first.
pub fn push_be(out: &mut Vec<u8>, x: u64, n: usize)
    requires
        n <= 8,
    ensures
        final(out)@ == old(out)@ + be_bytes(x as nat, n as nat),
{
    let mut tail: Vec<u8> = Vec::new();
    push_le(&mut tail, x, n);
    proof {
        lemma_le_bytes_len(x as nat, n as nat);
    }
    assert(tail@ == le_bytes(x as nat, n as nat));
    let mut k: usize = n;
    while k > 0
        invariant
            k <= n,
            tail@ == le_bytes(x as nat, n as nat),
            tail@.len() == n,
            out@ == old(out)@ + be_bytes(x as nat, n as nat).take(n - k),
        decreases k,
    {
        out.push(tail[k - 1]);
        k = k - 1;
        assert(be_bytes(x as nat, n as nat).take(n - k) =~= be_bytes(x as nat, n as nat).take(
            n - k - 1,
        ).push(tail@[k as int]));
    }
    assert(be_bytes(x as nat, n as nat).take(n as int) =~= be_bytes(x as nat, n as nat));
}

/// The bytes of `s` with those of `data` in place of the ones from `at` on.
pub open spec fn splice(s: Seq<u8>, at: int, data: Seq<u8>) -> Seq<u8> {
    Seq::new(
        s.len(),
        |i: int|
            if at <= i < at + data.len() {
                data[i - at]
            } else {
                s[i]
            },
    )
}

/// Copies `data` into `dst` from `at` on.
pub fn copy_into(dst: &mut [u8], at: usize, data: &[u8])
    requires
        at + data@.len() <= old(dst)@.len(),
    ensures
        final(dst)@ == splice(old(dst)@, at as int, data@),
{
    let n: usize = dst.len();
    let mut i: usize = 0;
    while i < data.len()
        invariant
            i <= data@.len(),
            n == old(dst)@.len(),
            dst@.len() == old(dst)@.len(),
            at + data@.len() <= old(dst)@.len(),
            dst@ == splice(old(dst)@, at as int, data@.take(i as int)),
        decreases data@.len() - i,
    {
        dst[at + i] = data[i];
        i = i + 1;
        assert(dst@ =~= splice(old(dst)@, at as int, data@.take(i as int)));
    }
    assert(data@.take(i as int) =~= data@);
}

/// Appends all of `data`.
pub fn push_all(out: &mut Vec<u8>, data: &[u8])
    ensures
        final(out)@ == old(out)@ + data@,
{
    let mut i: usize = 0;
    while i < data.len()
        invariant
            i <= data@.len(),
            out@ == old(out)@ + data@.take(i as int),
        decreases data@.len() - i,
    {
        out.push(data[i]);
        i = i + 1;
        assert(data@.take(i as int) =~= data@.take(i - 1).push(data@[i - 1]));
    }
    assert(data@.take(i as int) =~= data@);
}

/// An owned copy of `data`.
pub fn to_vec(data: &[u8]) -> (r: Vec<u8>)
    ensures
        r@ == data@,
{
    let mut out: Vec<u8> = Vec::new();
    push_all(&mut out, data);
    assert(out@ =~= data@);
    out
}

/// Whether two byte strings are equal.
pub fn bytes_eq(a: &[u8], b: &[u8]) -> (r: bool)
    ensures
        r == (a@ == b@),
{
    if a.len() != b.len() {
        return false;
    }
    let mut i: usize = 0;
    while i < a.len()
        invariant
            i <= a@.len(),
            a@.len() == b@.len(),
            forall|j: int| 0 <= j < i ==> a@[j] == b@[j],
        decreases a@.len() - i,
    {
        if a[i] != b[i] {
            return false;
        }
        i = i + 1;
    }
    assert(a@ =~= b@);
    true
}

} // verus!
