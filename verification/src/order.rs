//! The order of byte strings: bytewise, a proper prefix before what extends it.

use vstd::prelude::*;

verus! {

/// Whether `a` comes strictly before `b`.
pub open spec fn before(a: Seq<u8>, b: Seq<u8>) -> bool
    decreases a.len(),
{
    if b.len() == 0 {
        false
    } else if a.len() == 0 {
        true
    } else {
        a[0] < b[0] || (a[0] == b[0] && before(a.drop_first(), b.drop_first()))
    }
}

/// Nothing comes before itself.
pub proof fn before_irreflexive(a: Seq<u8>)
    ensures
        !before(a, a),
    decreases a.len(),
{
    if a.len() > 0 {
        before_irreflexive(a.drop_first());
    }
}

/// The order is transitive.
pub proof fn before_transitive(a: Seq<u8>, b: Seq<u8>, c: Seq<u8>)
    requires
        before(a, b),
        before(b, c),
    ensures
        before(a, c),
    decreases a.len(),
{
    if a.len() > 0 && a[0] == b[0] && b[0] == c[0] {
        before_transitive(a.drop_first(), b.drop_first(), c.drop_first());
    }
}

/// Of two different byte strings one comes before the other.
pub proof fn before_total(a: Seq<u8>, b: Seq<u8>)
    ensures
        before(a, b) || a == b || before(b, a),
    decreases a.len(),
{
    if a.len() == 0 || b.len() == 0 {
        if a.len() == 0 && b.len() == 0 {
            assert(a =~= b);
        }
    } else if a[0] == b[0] {
        before_total(a.drop_first(), b.drop_first());
        if a.drop_first() == b.drop_first() {
            assert(a =~= seq![a[0]] + a.drop_first());
            assert(b =~= seq![b[0]] + b.drop_first());
        }
    }
}

/// The order laws, together.
pub broadcast proof fn before_antisymmetric(a: Seq<u8>, b: Seq<u8>)
    ensures
        #[trigger] before(a, b) ==> !before(b, a) && a != b,
{
    before_irreflexive(a);
    if before(a, b) && before(b, a) {
        before_transitive(a, b, a);
    }
}

/// A key that is not before `b` is not before anything that `b` is not before.
pub proof fn not_before_transitive(a: Seq<u8>, b: Seq<u8>, c: Seq<u8>)
    requires
        !before(a, b),
        !before(b, c),
    ensures
        !before(a, c),
{
    before_total(a, b);
    before_total(b, c);
    before_antisymmetric(b, a);
    before_antisymmetric(c, b);
    if before(a, c) {
        before_antisymmetric(a, c);
        if before(b, a) {
            before_transitive(b, a, c);
        }
    }
}

/// `a` comes before or is `b`, and `b` before `c`: then `a` before `c`.
pub proof fn not_after_before(a: Seq<u8>, b: Seq<u8>, c: Seq<u8>)
    requires
        !before(b, a),
        before(b, c),
    ensures
        before(a, c),
{
    before_total(a, b);
    if before(a, b) {
        before_transitive(a, b, c);
    }
}

/// `a` before `b`, and `b` comes before or is `c`: then `a` before `c`.
pub proof fn before_not_after(a: Seq<u8>, b: Seq<u8>, c: Seq<u8>)
    requires
        before(a, b),
        !before(c, b),
    ensures
        before(a, c),
{
    before_total(b, c);
    if before(b, c) {
        before_transitive(a, b, c);
    }
}

/// Whether `a` comes strictly before `b`.
pub fn is_before(a: &[u8], b: &[u8]) -> (r: bool)
    ensures
        r == before(a@, b@),
{
    let mut i: usize = 0;
    assert(a@.skip(0) =~= a@ && b@.skip(0) =~= b@);
    while i < a.len() && i < b.len()
        invariant
            i <= a@.len(),
            i <= b@.len(),
            before(a@, b@) == before(a@.skip(i as int), b@.skip(i as int)),
        decreases a@.len() - i,
    {
        let ghost sa = a@.skip(i as int);
        let ghost sb = b@.skip(i as int);
        if a[i] < b[i] {
            assert(sa[0] < sb[0]);
            return true;
        }
        if b[i] < a[i] {
            assert(sb[0] < sa[0]);
            return false;
        }
        assert(sa.drop_first() =~= a@.skip(i + 1));
        assert(sb.drop_first() =~= b@.skip(i + 1));
        assert(sa[0] == sb[0]);
        i = i + 1;
    }
    i < b.len()
}

/// Whether `keys` are strictly ascending.
pub open spec fn ascending(keys: Seq<Seq<u8>>) -> bool {
    forall|i: int, j: int|
        0 <= i < j < keys.len() ==> before(#[trigger] keys[i], #[trigger] keys[j])
}

/// Keys each before the next are ascending.
pub proof fn lemma_ascending_steps(keys: Seq<Seq<u8>>)
    requires
        forall|i: int| 0 <= i < keys.len() - 1 ==> before(#[trigger] keys[i], keys[i + 1]),
    ensures
        ascending(keys),
{
    assert forall|i: int, j: int| 0 <= i < j < keys.len() implies before(
        #[trigger] keys[i],
        #[trigger] keys[j],
    ) by {
        lemma_ascending_pair(keys, i, j);
    }
}

proof fn lemma_ascending_pair(keys: Seq<Seq<u8>>, i: int, j: int)
    requires
        forall|i: int| 0 <= i < keys.len() - 1 ==> before(#[trigger] keys[i], keys[i + 1]),
        0 <= i < j < keys.len(),
    ensures
        before(keys[i], keys[j]),
    decreases j - i,
{
    if i + 1 < j {
        lemma_ascending_pair(keys, i, j - 1);
        let mid = j - 1;
        assert(before(keys[mid], keys[mid + 1]));
        before_transitive(keys[i], keys[j - 1], keys[j]);
    } else {
        assert(before(keys[i], keys[i + 1]));
    }
}

/// The contents of a vector of byte strings.
pub open spec fn strings(v: Seq<Vec<u8>>) -> Seq<Seq<u8>> {
    Seq::new(v.len(), |i: int| v[i]@)
}

/// How many of the ascending `keys` come before `key`: the first position whose
/// key is not before it.
pub open spec fn lower_bound(keys: Seq<Seq<u8>>, key: Seq<u8>) -> int
    decreases keys.len(),
{
    if keys.len() == 0 || !before(keys[0], key) {
        0
    } else {
        1 + lower_bound(keys.drop_first(), key)
    }
}

/// How many of the ascending `keys` come before `key` or are it: the first
/// position whose key comes after it.
pub open spec fn upper_bound(keys: Seq<Seq<u8>>, key: Seq<u8>) -> int
    decreases keys.len(),
{
    if keys.len() == 0 || before(key, keys[0]) {
        0
    } else {
        1 + upper_bound(keys.drop_first(), key)
    }
}

pub proof fn lemma_lower_bound(keys: Seq<Seq<u8>>, key: Seq<u8>)
    requires
        ascending(keys),
    ensures
        0 <= lower_bound(keys, key) <= keys.len(),
        forall|i: int| 0 <= i < lower_bound(keys, key) ==> before(#[trigger] keys[i], key),
        forall|i: int| lower_bound(keys, key) <= i < keys.len() ==> !before(#[trigger] keys[i], key),
    decreases keys.len(),
{
    if keys.len() > 0 {
        let rest = keys.drop_first();
        assert(ascending(rest)) by {
            assert forall|i: int, j: int| 0 <= i < j < rest.len() implies before(
                #[trigger] rest[i],
                #[trigger] rest[j],
            ) by {
                assert(rest[i] == keys[i + 1] && rest[j] == keys[j + 1]);
            }
        }
        if before(keys[0], key) {
            lemma_lower_bound(rest, key);
            let n = lower_bound(keys, key);
            assert forall|i: int| 0 <= i < n implies before(#[trigger] keys[i], key) by {
                if i > 0 {
                    assert(rest[i - 1] == keys[i]);
                }
            }
            assert forall|i: int| n <= i < keys.len() implies !before(#[trigger] keys[i], key) by {
                assert(rest[i - 1] == keys[i]);
            }
        } else {
            assert forall|i: int| 0 <= i < keys.len() implies !before(#[trigger] keys[i], key) by {
                if before(keys[i], key) && i > 0 {
                    before_transitive(keys[0], keys[i], key);
                }
            }
        }
    }
}

pub proof fn lemma_upper_bound(keys: Seq<Seq<u8>>, key: Seq<u8>)
    requires
        ascending(keys),
    ensures
        0 <= upper_bound(keys, key) <= keys.len(),
        forall|i: int| 0 <= i < upper_bound(keys, key) ==> !before(key, #[trigger] keys[i]),
        forall|i: int| upper_bound(keys, key) <= i < keys.len() ==> before(key, #[trigger] keys[i]),
    decreases keys.len(),
{
    if keys.len() > 0 {
        let rest = keys.drop_first();
        assert(ascending(rest)) by {
            assert forall|i: int, j: int| 0 <= i < j < rest.len() implies before(
                #[trigger] rest[i],
                #[trigger] rest[j],
            ) by {
                assert(rest[i] == keys[i + 1] && rest[j] == keys[j + 1]);
            }
        }
        if !before(key, keys[0]) {
            lemma_upper_bound(rest, key);
            let n = upper_bound(keys, key);
            assert forall|i: int| 0 <= i < n implies !before(key, #[trigger] keys[i]) by {
                if i > 0 {
                    assert(rest[i - 1] == keys[i]);
                }
            }
            assert forall|i: int| n <= i < keys.len() implies before(key, #[trigger] keys[i]) by {
                assert(rest[i - 1] == keys[i]);
            }
        } else {
            assert forall|i: int| 0 <= i < keys.len() implies before(key, #[trigger] keys[i]) by {
                if i > 0 {
                    before_transitive(key, keys[0], keys[i]);
                }
            }
        }
    }
}

/// The bound is the only position that parts the keys so.
pub proof fn lemma_upper_bound_unique(keys: Seq<Seq<u8>>, key: Seq<u8>, n: int)
    requires
        ascending(keys),
        0 <= n <= keys.len(),
        n > 0 ==> !before(key, keys[n - 1]),
        n < keys.len() ==> before(key, keys[n]),
    ensures
        n == upper_bound(keys, key),
{
    lemma_upper_bound(keys, key);
}

/// The first position of ascending `keys` whose key is not before `key`, by
/// binary search.
pub fn find_lower(keys: &Vec<Vec<u8>>, key: &[u8]) -> (n: usize)
    requires
        ascending(strings(keys@)),
    ensures
        n == lower_bound(strings(keys@), key@),
        n <= keys@.len(),
{
    let mut lo: usize = 0;
    let mut hi: usize = keys.len();
    let ghost ks = strings(keys@);
    proof {
        lemma_lower_bound(ks, key@);
    }
    while lo < hi
        invariant
            ks == strings(keys@),
            ascending(ks),
            lo <= lower_bound(ks, key@) <= hi,
            hi <= keys@.len(),
        decreases hi - lo,
    {
        let mid: usize = lo + (hi - lo) / 2;
        proof {
            lemma_lower_bound(ks, key@);
            assert(ks[mid as int] == keys@[mid as int]@);
        }
        if is_before(keys[mid].as_slice(), key) {
            lo = mid + 1;
        } else {
            hi = mid;
        }
    }
    lo
}

/// The first position of ascending `keys` whose key comes after `key`, by
/// binary search.
pub fn find_upper(keys: &Vec<Vec<u8>>, key: &[u8]) -> (n: usize)
    requires
        ascending(strings(keys@)),
    ensures
        n == upper_bound(strings(keys@), key@),
        n <= keys@.len(),
{
    let mut lo: usize = 0;
    let mut hi: usize = keys.len();
    let ghost ks = strings(keys@);
    proof {
        lemma_upper_bound(ks, key@);
    }
    while lo < hi
        invariant
            ks == strings(keys@),
            ascending(ks),
            lo <= upper_bound(ks, key@) <= hi,
            hi <= keys@.len(),
        decreases hi - lo,
    {
        let mid: usize = lo + (hi - lo) / 2;
        proof {
            lemma_upper_bound(ks, key@);
            assert(ks[mid as int] == keys@[mid as int]@);
        }
        if is_before(key, keys[mid].as_slice()) {
            hi = mid;
        } else {
            lo = mid + 1;
        }
    }
    lo
}

} // verus!
