//! The cross-check of an index against its base table, entry for entry.

use vstd::prelude::*;
use vstd::relations::{sorted_by, total_ordering};
use super::error::{CatalogError, CatalogErrorV, Res, Result};
use super::fk::{StoredRow, StoredRowV};
use super::form::Encoded;
use super::row::{cells_named, index_cols};
use super::schema::{IndexDef, IndexV, TableDef, TableV};
use super::write::encodings;
use crate::bytes::bytes_eq;
use crate::index::{encoded_view, entry, entry_of, Entry, EntryV};
use crate::order::{before, before_irreflexive, before_total, before_transitive, is_before};
use crate::value::TypeError;
use crate::views::views;

verus! {

/// The order of entries: by key, then by value.
pub open spec fn entry_leq() -> spec_fn(EntryV, EntryV) -> bool {
    |a: EntryV, b: EntryV|
        before(a.key, b.key) || (a.key == b.key && !before(b.value, a.value))
}

proof fn lemma_entry_order()
    ensures
        total_ordering(entry_leq()),
{
    let leq = entry_leq();
    assert forall|a: EntryV| #[trigger] leq(a, a) by {
        before_irreflexive(a.value);
    }
    assert forall|a: EntryV, b: EntryV| #[trigger] leq(a, b) && #[trigger] leq(b, a) implies a
        == b by {
        if before(a.key, b.key) && before(b.key, a.key) {
            before_transitive(a.key, b.key, a.key);
            before_irreflexive(a.key);
        }
        if before(a.key, b.key) && b.key == a.key {
            before_irreflexive(a.key);
        }
        if before(b.key, a.key) && b.key == a.key {
            before_irreflexive(a.key);
        }
        before_total(a.value, b.value);
    }
    assert forall|a: EntryV, b: EntryV, c: EntryV| #[trigger] leq(a, b) && #[trigger] leq(
        b,
        c,
    ) implies leq(a, c) by {
        if before(a.key, b.key) && before(b.key, c.key) {
            before_transitive(a.key, b.key, c.key);
        }
        if a.key == b.key && b.key == c.key {
            before_irreflexive(a.key);
            crate::order::not_before_transitive(c.value, b.value, a.value);
        }
    }
    assert forall|a: EntryV, b: EntryV| #[trigger] leq(a, b) || #[trigger] leq(b, a) by {
        before_total(a.key, b.key);
        before_total(a.value, b.value);
        if before(b.value, a.value) && before(a.value, b.value) {
            before_transitive(a.value, b.value, a.value);
            before_irreflexive(a.value);
        }
    }
}

fn leq_entry(a: &Entry, b: &Entry) -> (r: bool)
    ensures
        r == entry_leq()(a@, b@),
{
    if is_before(a.key.as_slice(), b.key.as_slice()) {
        true
    } else {
        bytes_eq(a.key.as_slice(), b.key.as_slice()) && !is_before(
            b.value.as_slice(),
            a.value.as_slice(),
        )
    }
}

proof fn lemma_insert_multiset<T>(s: Seq<T>, i: int, x: T)
    requires
        0 <= i <= s.len(),
    ensures
        s.insert(i, x).to_multiset() == s.to_multiset().insert(x),
{
    broadcast use vstd::seq_lib::group_to_multiset_ensures;
    broadcast use vstd::multiset::group_multiset_axioms;

    let t = s.insert(i, x);
    assert(t.remove(i) =~= s);
    assert(t[i] == x);
    assert(t.to_multiset().remove(x) == s.to_multiset());
    assert(t.to_multiset().count(x) > 0);
    assert(s.to_multiset().insert(x) =~= t.to_multiset());
}

fn sort_entries(input: Vec<Entry>) -> (r: Vec<Entry>)
    ensures
        sorted_by(views(r@), entry_leq()),
        views(r@).to_multiset() == views(input@).to_multiset(),
{
    let ghost all = views(input@);
    let mut out: Vec<Entry> = Vec::new();
    let mut i: usize = 0;
    proof {
        assert(views(out@) =~= all.take(0));
        lemma_entry_order();
    }
    while i < input.len()
        invariant
            i <= input@.len(),
            all == views(input@),
            total_ordering(entry_leq()),
            sorted_by(views(out@), entry_leq()),
            views(out@).to_multiset() == all.take(i as int).to_multiset(),
        decreases input@.len() - i,
    {
        let ghost so_far = views(out@);
        let ghost x = all[i as int];
        assert(x == input@[i as int]@);
        let mut at: usize = out.len();
        assert(so_far.len() == out@.len());
        while at > 0 && !leq_entry(&out[at - 1], &input[i])
            invariant
                at <= out@.len(),
                i < input@.len(),
                so_far == views(out@),
                x == input@[i as int]@,
                total_ordering(entry_leq()),
                sorted_by(so_far, entry_leq()),
                forall|j: int| at <= j < so_far.len() ==> !entry_leq()(#[trigger] so_far[j], x),
            decreases at,
        {
            assert(so_far[at - 1] == out@[at - 1]@);
            at = at - 1;
        }
        let e = input[i].copy();
        out.insert(at, e);
        proof {
            assert(views(out@) =~= so_far.insert(at as int, x));
            lemma_insert_multiset(so_far, at as int, x);
            assert(all.take(i + 1) =~= all.take(i as int).push(x));
            vstd::seq_lib::to_multiset_build(all.take(i as int), x);
            let leq = entry_leq();
            let s = views(out@);
            if at > 0 {
                assert(leq(so_far[at - 1], x)) by {
                    assert(so_far[at - 1] == views(out@)[at - 1]);
                }
            }
            assert forall|a: int, b: int| 0 <= a < b < s.len() implies #[trigger] leq(s[a], s[b]) by {
                if a < at && b < at {
                    assert(s[a] == so_far[a] && s[b] == so_far[b]);
                } else if a < at && b == at {
                    assert(s[a] == so_far[a]);
                    if a < at - 1 {
                        assert(leq(so_far[a], so_far[at - 1]));
                    }
                } else if a < at {
                    assert(s[a] == so_far[a] && s[b] == so_far[b - 1]);
                } else if a == at {
                    assert(s[b] == so_far[b - 1]);
                    assert(!leq(so_far[b - 1], x));
                    assert(leq(x, so_far[b - 1]) || leq(so_far[b - 1], x));
                } else {
                    assert(s[a] == so_far[a - 1] && s[b] == so_far[b - 1]);
                }
            }
        }
        i = i + 1;
    }
    assert(all.take(i as int) =~= all);
    out
}

/// The entries that rows contribute to an index, or the error of the first that
/// cannot be made: those of the first `n` rows.
pub open spec fn expected(
    t: TableV,
    x: IndexV,
    rows: Seq<StoredRowV>,
    keys: Seq<core::result::Result<Seq<u8>, TypeError>>,
    n: nat,
) -> Res<Seq<EntryV>>
    decreases n,
{
    if n == 0 || n > rows.len() {
        Ok(Seq::empty())
    } else {
        match expected(t, x, rows, keys, (n - 1) as nat) {
            Err(e) => Err(e),
            Ok(es) => match entry_of(
                cells_named(t, rows[n - 1].row, x.columns),
                keys[n - 1],
                rows[n - 1].pk_key,
                x.unique,
            ) {
                Err(e) => Err(CatalogErrorV::Index(e)),
                Ok(None) => Ok(es),
                Ok(Some(e)) => Ok(es.push(e)),
            },
        }
    }
}

proof fn lemma_expected_err(
    t: TableV,
    x: IndexV,
    rows: Seq<StoredRowV>,
    keys: Seq<core::result::Result<Seq<u8>, TypeError>>,
    n: nat,
    all: nat,
)
    requires
        n <= all <= rows.len(),
        expected(t, x, rows, keys, n) is Err,
    ensures
        expected(t, x, rows, keys, all) == expected(t, x, rows, keys, n),
    decreases all,
{
    if n < all {
        lemma_expected_err(t, x, rows, keys, n, (all - 1) as nat);
    }
}

fn expect_entries(
    def: &TableDef,
    idx: &IndexDef,
    rows: &Vec<StoredRow>,
    keys: &Vec<Encoded>,
) -> (r: Result<Vec<Entry>>)
    requires
        keys@.len() == rows@.len(),
    ensures
        match r {
            Ok(es) => expected(def@, idx@, views(rows@), encodings(keys@), rows@.len()) == Ok::<
                Seq<EntryV>,
                CatalogErrorV,
            >(views(es@)),
            Err(e) => expected(def@, idx@, views(rows@), encodings(keys@), rows@.len()) == Err::<
                Seq<EntryV>,
                CatalogErrorV,
            >(e@),
        },
{
    let ghost t = def@;
    let ghost x = idx@;
    let ghost vs = views(rows@);
    let ghost ks = encodings(keys@);
    let mut out: Vec<Entry> = Vec::new();
    let mut i: usize = 0;
    assert(views(out@) =~= Seq::empty());
    while i < rows.len()
        invariant
            i <= rows@.len(),
            keys@.len() == rows@.len(),
            t == def@,
            x == idx@,
            vs == views(rows@),
            ks == encodings(keys@),
            expected(t, x, vs, ks, i as nat) == Ok::<Seq<EntryV>, CatalogErrorV>(views(out@)),
        decreases rows@.len() - i,
    {
        proof {
            assert(vs[i as int] == rows@[i as int]@);
            assert(ks[i as int] == encoded_view(keys@[i as int]));
            if expected(t, x, vs, ks, (i + 1) as nat) is Err {
                lemma_expected_err(t, x, vs, ks, (i + 1) as nat, vs.len());
            }
        }
        let cols = index_cols(def, idx, &rows[i].row);
        match entry(&cols, &keys[i], rows[i].pk_key.as_slice(), idx.unique) {
            Err(e) => {
                return Err(CatalogError::Index(e));
            },
            Ok(found) => {
                if let Some(e) = found {
                    let ghost before = views(out@);
                    out.push(e);
                    assert(views(out@) =~= before.push(e@));
                }
            },
        }
        i = i + 1;
    }
    assert(vs.len() == rows@.len());
    Ok(out)
}

fn same_entries(a: &Vec<Entry>, b: &Vec<Entry>) -> (r: bool)
    ensures
        r == (views(a@) == views(b@)),
{
    let ghost va = views(a@);
    let ghost vb = views(b@);
    if a.len() != b.len() {
        assert(va.len() != vb.len());
        return false;
    }
    let mut i: usize = 0;
    while i < a.len()
        invariant
            i <= a@.len(),
            a@.len() == b@.len(),
            va == views(a@),
            vb == views(b@),
            forall|j: int| 0 <= j < i ==> #[trigger] va[j] == vb[j],
        decreases a@.len() - i,
    {
        assert(va[i as int] == a@[i as int]@ && vb[i as int] == b@[i as int]@);
        if !(bytes_eq(a[i].key.as_slice(), b[i].key.as_slice()) && bytes_eq(
            a[i].value.as_slice(),
            b[i].value.as_slice(),
        )) {
            assert(va[i as int] != vb[i as int]);
            return false;
        }
        i = i + 1;
    }
    assert(va =~= vb);
    true
}

/// Cross-check an index against its base table: its entries, in the order of its
/// tree, have to be those that the rows contribute. `keys` holds, for each row, the
/// encoding of its cells in the index's columns.
pub fn check_index(
    def: &TableDef,
    idx: &IndexDef,
    rows: &Vec<StoredRow>,
    keys: &Vec<Encoded>,
    actual: &Vec<Entry>,
) -> (r: Result<()>)
    requires
        keys@.len() == rows@.len(),
    ensures
        match expected(def@, idx@, views(rows@), encodings(keys@), rows@.len()) {
            Err(e) => r is Err && r->Err_0@ == e,
            Ok(es) => if views(actual@) == es.sort_by(entry_leq()) {
                r is Ok
            } else {
                r is Err && r->Err_0@ == (CatalogErrorV::IndexOutOfSync {
                    table: def@.name,
                    index: idx@.name,
                })
            },
        },
{
    let entries = match expect_entries(def, idx, rows, keys) {
        Ok(es) => es,
        Err(e) => {
            return Err(e);
        },
    };
    let ghost es = views(entries@);
    let sorted = sort_entries(entries);
    proof {
        lemma_entry_order();
        es.lemma_sort_by_ensures(entry_leq());
        vstd::seq_lib::lemma_sorted_unique(
            views(sorted@),
            es.sort_by(entry_leq()),
            entry_leq(),
        );
    }
    if same_entries(&sorted, actual) {
        Ok(())
    } else {
        Err(CatalogError::IndexOutOfSync { table: def.name.clone(), index: idx.name.clone() })
    }
}

/// An index passes its cross-check exactly where it holds the entries of the rows, each as
/// often as it comes of them, in the order of their keys.
pub proof fn checked_indexes_hold_what_their_rows_say(es: Seq<EntryV>, actual: Seq<EntryV>)
    ensures
        actual == es.sort_by(entry_leq()) <==> {
            &&& actual.to_multiset() == es.to_multiset()
            &&& forall|a: int, b: int|
                0 <= a < b < actual.len() ==> before((#[trigger] actual[a]).key, (
                #[trigger] actual[b]).key) || (actual[a].key == actual[b].key && !before(
                    actual[b].value,
                    actual[a].value,
                ))
        },
{
    lemma_entry_order();
    es.lemma_sort_by_ensures(entry_leq());
    let sorted = es.sort_by(entry_leq());
    if actual == sorted {
        assert forall|a: int, b: int| 0 <= a < b < actual.len() implies before(
            (#[trigger] actual[a]).key,
            (#[trigger] actual[b]).key,
        ) || (actual[a].key == actual[b].key && !before(actual[b].value, actual[a].value)) by {
            assert(entry_leq()(actual[a], actual[b]));
        }
    }
    if actual.to_multiset() == es.to_multiset() && (forall|a: int, b: int|
        0 <= a < b < actual.len() ==> before((#[trigger] actual[a]).key, (
        #[trigger] actual[b]).key) || (actual[a].key == actual[b].key && !before(
            actual[b].value,
            actual[a].value,
        ))) {
        assert(sorted_by(actual, entry_leq())) by {
            assert forall|a: int, b: int| 0 <= a < b < actual.len() implies #[trigger] entry_leq()(
                actual[a],
                actual[b],
            ) by {
                assert(actual[a].key == actual[a].key && actual[b].key == actual[b].key);
            }
        }
        vstd::seq_lib::lemma_sorted_unique(actual, sorted, entry_leq());
    }
}

} // verus!
