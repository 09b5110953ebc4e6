//! Plans: the tree operations that staged rows come to.
//!
//! All leaving entries go before any arriving one, so that a unique value can move
//! between the rows of one batch.

use vstd::prelude::*;
use super::schema::TableV;
use super::write::{
    arriving, brings, clash_error, clashes, clashes_at, contribution, delta_at, deltas_from, key_of,
    leaving, staged, takes, Batch, ChangeV, Delta, DeltaV, KeyedV, Mode, MoveV,
};
use crate::bytes::to_vec;
use crate::index::{Entry, EntryV};
use crate::views::{opt, views};

verus! {

/// The tree operations of a transaction on one table: first the base rows, then the
/// entries that leave, then those that arrive.
#[derive(Debug, PartialEq, Eq)]
pub struct Plan {
    /// Base rows by encoded primary key: the encoded row to store, or nothing where
    /// the row is removed.
    pub base: Vec<(Vec<u8>, Option<Vec<u8>>)>,
    /// The entries that leave, each with its index.
    pub removes: Vec<(usize, Entry)>,
    /// The entries that arrive, each with its index.
    pub inserts: Vec<(usize, Entry)>,
}

/// What operations on base rows say.
pub open spec fn base_views(s: Seq<(Vec<u8>, Option<Vec<u8>>)>) -> Seq<
    (Seq<u8>, Option<Seq<u8>>),
> {
    Seq::new(s.len(), |i: int| (s[i].0@, opt(s[i].1)))
}

/// What operations on entries say.
pub open spec fn entry_views(s: Seq<(usize, Entry)>) -> Seq<(nat, EntryV)> {
    Seq::new(s.len(), |i: int| (s[i].0 as nat, s[i].1@))
}

/// The base rows of staged rows.
pub open spec fn base_of(cs: Seq<ChangeV>) -> Seq<(Seq<u8>, Option<Seq<u8>>)> {
    Seq::new(cs.len(), |i: int| (cs[i].pk_key, cs[i].bytes))
}

/// The entries that leave with deltas.
pub open spec fn olds_of(ds: Seq<DeltaV>) -> Seq<(nat, EntryV)>
    decreases ds.len(),
{
    if ds.len() == 0 {
        Seq::empty()
    } else {
        let rest = olds_of(ds.drop_last());
        match ds.last().old {
            Some(e) => rest.push((ds.last().index, e)),
            None => rest,
        }
    }
}

/// The entries that arrive with deltas.
pub open spec fn news_of(ds: Seq<DeltaV>) -> Seq<(nat, EntryV)>
    decreases ds.len(),
{
    if ds.len() == 0 {
        Seq::empty()
    } else {
        let rest = news_of(ds.drop_last());
        match ds.last().new {
            Some(e) => rest.push((ds.last().index, e)),
            None => rest,
        }
    }
}

/// The entries that leave with staged rows.
pub open spec fn removes_of(cs: Seq<ChangeV>) -> Seq<(nat, EntryV)>
    decreases cs.len(),
{
    if cs.len() == 0 {
        Seq::empty()
    } else {
        removes_of(cs.drop_last()) + olds_of(cs.last().deltas)
    }
}

/// The entries that arrive with staged rows.
pub open spec fn inserts_of(cs: Seq<ChangeV>) -> Seq<(nat, EntryV)>
    decreases cs.len(),
{
    if cs.len() == 0 {
        Seq::empty()
    } else {
        inserts_of(cs.drop_last()) + news_of(cs.last().deltas)
    }
}

fn push_moves(
    ds: &Vec<Delta>,
    removes: &mut Vec<(usize, Entry)>,
    inserts: &mut Vec<(usize, Entry)>,
)
    ensures
        entry_views(final(removes)@) == entry_views(old(removes)@) + olds_of(views(ds@)),
        entry_views(final(inserts)@) == entry_views(old(inserts)@) + news_of(views(ds@)),
{
    let ghost vs = views(ds@);
    let ghost r0 = entry_views(removes@);
    let ghost i0 = entry_views(inserts@);
    let mut d: usize = 0;
    assert(vs.take(0) =~= Seq::empty());
    assert(r0 + Seq::empty() =~= r0);
    assert(i0 + Seq::empty() =~= i0);
    while d < ds.len()
        invariant
            d <= ds@.len(),
            vs == views(ds@),
            entry_views(removes@) == r0 + olds_of(vs.take(d as int)),
            entry_views(inserts@) == i0 + news_of(vs.take(d as int)),
        decreases ds@.len() - d,
    {
        let ghost rb = entry_views(removes@);
        let ghost ib = entry_views(inserts@);
        proof {
            assert(vs[d as int] == ds@[d as int]@);
            assert(vs.take(d + 1).drop_last() =~= vs.take(d as int));
            assert(vs.take(d + 1).last() == vs[d as int]);
        }
        if let Some(e) = &ds[d].old {
            removes.push((ds[d].index, e.copy()));
            assert(entry_views(removes@) =~= rb.push((ds@[d as int].index as nat, e@)));
        }
        if let Some(e) = &ds[d].new {
            inserts.push((ds[d].index, e.copy()));
            assert(entry_views(inserts@) =~= ib.push((ds@[d as int].index as nat, e@)));
        }
        d = d + 1;
        assert(entry_views(removes@) =~= r0 + olds_of(vs.take(d as int)));
        assert(entry_views(inserts@) =~= i0 + news_of(vs.take(d as int)));
    }
    assert(vs.take(d as int) =~= vs);
}

fn copy_bytes(b: &Option<Vec<u8>>) -> (r: Option<Vec<u8>>)
    ensures
        opt(r) == opt(*b),
{
    match b {
        Some(b) => Some(to_vec(b.as_slice())),
        None => None,
    }
}

impl Batch {
    /// The tree operations that the staged rows come to.
    pub fn plan(&self) -> (r: Plan)
        ensures
            base_views(r.base@) == base_of(self@),
            entry_views(r.removes@) == removes_of(self@),
            entry_views(r.inserts@) == inserts_of(self@),
    {
        let ghost cs = self@;
        let mut base: Vec<(Vec<u8>, Option<Vec<u8>>)> = Vec::new();
        let mut removes: Vec<(usize, Entry)> = Vec::new();
        let mut inserts: Vec<(usize, Entry)> = Vec::new();
        let mut c: usize = 0;
        assert(cs.take(0) =~= Seq::empty());
        assert(entry_views(removes@) =~= Seq::empty());
        assert(entry_views(inserts@) =~= Seq::empty());
        while c < self.changes.len()
            invariant
                c <= self.changes@.len(),
                cs == views(self.changes@),
                cs == self@,
                base@.len() == c,
                forall|j: int|
                    0 <= j < c ==> (#[trigger] base@[j]).0@ == cs[j].pk_key && opt(base@[j].1)
                        == cs[j].bytes,
                entry_views(removes@) == removes_of(cs.take(c as int)),
                entry_views(inserts@) == inserts_of(cs.take(c as int)),
            decreases self.changes@.len() - c,
        {
            let change = &self.changes[c];
            proof {
                assert(cs[c as int] == change@);
                assert(cs.take(c + 1).drop_last() =~= cs.take(c as int));
                assert(cs.take(c + 1).last() == cs[c as int]);
            }
            base.push((to_vec(change.pk_key.as_slice()), copy_bytes(&change.bytes)));
            push_moves(&change.deltas, &mut removes, &mut inserts);
            c = c + 1;
        }
        assert(cs.take(c as int) =~= cs);
        assert(base_views(base@) =~= base_of(cs));
        Plan { base, removes, inserts }
    }

    /// For each of `n` indexes, whether an entry of it moves.
    pub fn touched(&self, n: usize) -> (r: Vec<bool>)
        ensures
            r@.len() == n,
            forall|i: int| 0 <= i < n ==> #[trigger] r@[i] == touches(self@, i as nat),
    {
        let mut out: Vec<bool> = Vec::new();
        let mut i: usize = 0;
        while i < n
            invariant
                i <= n,
                out@.len() == i,
                forall|j: int| 0 <= j < i ==> #[trigger] out@[j] == touches(self@, j as nat),
            decreases n - i,
        {
            out.push(self.touches_index(i));
            i = i + 1;
        }
        out
    }

    fn touches_index(&self, i: usize) -> (r: bool)
        ensures
            r == touches(self@, i as nat),
    {
        let ghost cs = self@;
        let mut c: usize = 0;
        while c < self.changes.len()
            invariant
                c <= self.changes@.len(),
                cs == views(self.changes@),
                cs == self@,
                forall|a: int, b: int| 0 <= a < c ==> !#[trigger] touches_at(cs, i as nat, a, b),
            decreases self.changes@.len() - c,
        {
            assert(cs[c as int] == self.changes@[c as int]@);
            let ds = &self.changes[c].deltas;
            let mut d: usize = 0;
            while d < ds.len()
                invariant
                    c < self.changes@.len(),
                    d <= ds@.len(),
                    cs == self@,
                    cs[c as int].deltas == views(ds@),
                    cs == views(self.changes@),
                    forall|b: int| 0 <= b < d ==> !#[trigger] touches_at(cs, i as nat, c as int, b),
                decreases ds@.len() - d,
            {
                assert(cs[c as int].deltas[d as int] == ds@[d as int]@);
                if ds[d].index == i {
                    assert(touches_at(cs, i as nat, c as int, d as int));
                    return true;
                }
                d = d + 1;
            }
            c = c + 1;
        }
        false
    }
}

/// Whether this delta is one of index `i`.
pub open spec fn touches_at(cs: Seq<ChangeV>, i: nat, c: int, d: int) -> bool {
    0 <= c < cs.len() && 0 <= d < cs[c].deltas.len() && cs[c].deltas[d].index == i
}

/// Whether staged rows move an entry of index `i`.
pub open spec fn touches(cs: Seq<ChangeV>, i: nat) -> bool {
    exists|c: int, d: int| #[trigger] touches_at(cs, i, c, d)
}

// --- what a plan does --------------------------------------------------------

/// An index tree after entries left it.
pub open spec fn del_all(m: Map<Seq<u8>, Seq<u8>>, rs: Seq<(nat, EntryV)>, i: nat) -> Map<
    Seq<u8>,
    Seq<u8>,
>
    decreases rs.len(),
{
    if rs.len() == 0 {
        m
    } else {
        let rest = del_all(m, rs.drop_last(), i);
        if rs.last().0 == i {
            rest.remove(rs.last().1.key)
        } else {
            rest
        }
    }
}

/// An index tree after entries arrived in it.
pub open spec fn put_all(m: Map<Seq<u8>, Seq<u8>>, rs: Seq<(nat, EntryV)>, i: nat) -> Map<
    Seq<u8>,
    Seq<u8>,
>
    decreases rs.len(),
{
    if rs.len() == 0 {
        m
    } else {
        let rest = put_all(m, rs.drop_last(), i);
        if rs.last().0 == i {
            rest.insert(rs.last().1.key, rs.last().1.value)
        } else {
            rest
        }
    }
}

/// Index tree `i` after the plan of staged rows.
pub open spec fn index_after(m: Map<Seq<u8>, Seq<u8>>, cs: Seq<ChangeV>, i: nat) -> Map<
    Seq<u8>,
    Seq<u8>,
> {
    put_all(del_all(m, removes_of(cs), i), inserts_of(cs), i)
}

/// The rows of a table after rows moved.
pub open spec fn rows_after(base: Map<Seq<u8>, KeyedV>, moves: Seq<MoveV>) -> Map<Seq<u8>, KeyedV>
    decreases moves.len(),
{
    if moves.len() == 0 {
        base
    } else {
        let rest = rows_after(base, moves.drop_last());
        match moves.last().new {
            Some(row) => rest.insert(moves.last().pk_key, row),
            None => rest.remove(moves.last().pk_key),
        }
    }
}

/// The key that a row contributes to index `i`, if it contributes one.
pub open spec fn key_at(t: TableV, i: int, pk: Seq<u8>, row: Option<KeyedV>) -> Option<Seq<u8>> {
    match contribution(t, i, pk, row) {
        Ok(e) => key_of(e),
        Err(_) => None,
    }
}

/// Whether index `i` is in step with its base table: it holds, for every row, the
/// entry that the row contributes, and nothing else.
pub open spec fn in_step(
    t: TableV,
    i: int,
    base: Map<Seq<u8>, KeyedV>,
    m: Map<Seq<u8>, Seq<u8>>,
) -> bool {
    &&& forall|pk: Seq<u8>| #[trigger]
        base.contains_key(pk) ==> match key_at(t, i, pk, Some(base[pk])) {
            Some(k) => m.contains_key(k) && m[k] == pk,
            None => true,
        }
    &&& forall|k: Seq<u8>| #[trigger]
        m.contains_key(k) ==> base.contains_key(m[k]) && key_at(t, i, m[k], Some(base[m[k]]))
            == Some(k)
}

/// The row with this primary key, if there is one.
pub open spec fn row_at(base: Map<Seq<u8>, KeyedV>, pk: Seq<u8>) -> Option<KeyedV> {
    if base.contains_key(pk) {
        Some(base[pk])
    } else {
        None
    }
}

/// Whether moves are of distinct rows and start from what is committed.
pub open spec fn moves_start(base: Map<Seq<u8>, KeyedV>, moves: Seq<MoveV>) -> bool {
    &&& forall|a: int, b: int|
        0 <= a < b < moves.len() ==> (#[trigger] moves[a]).pk_key != (#[trigger] moves[b]).pk_key
    &&& forall|c: int|
        0 <= c < moves.len() ==> (#[trigger] moves[c]).old == row_at(base, moves[c].pk_key)
}

/// Whether staging the moves one by one gave these changes.
pub open spec fn staged_as(
    table: Seq<char>,
    t: TableV,
    mode: Mode,
    moves: Seq<MoveV>,
    cs: Seq<ChangeV>,
) -> bool {
    &&& moves.len() == cs.len()
    &&& forall|c: int|
        0 <= c < moves.len() ==> #[trigger] staged(table, t, mode, cs.take(c), moves[c]) == Ok::<
            ChangeV,
            super::error::CatalogErrorV,
        >(cs[c])
}

/// Whether what was found out about taken keys is true of the index.
pub open spec fn taken_is_true(
    t: TableV,
    i: int,
    m: Map<Seq<u8>, Seq<u8>>,
    moves: Seq<MoveV>,
) -> bool {
    forall|c: int|
        0 <= c < moves.len() ==> (key_at(t, i, (#[trigger] moves[c]).pk_key, moves[c].new) matches Some(
            k,
        ) ==> moves[c].taken[i] == m.contains_key(k))
}

/// Whether the new keys of moved rows are not those of other rows. The key of an
/// entry of a plain index ends with the primary key of its row.
pub open spec fn keys_apart(
    t: TableV,
    i: int,
    base: Map<Seq<u8>, KeyedV>,
    moves: Seq<MoveV>,
) -> bool {
    &&& forall|c: int, pk: Seq<u8>|
        #![trigger moves[c], base.contains_key(pk)]
        0 <= c < moves.len() && base.contains_key(pk) && pk != moves[c].pk_key ==> (key_at(
            t,
            i,
            moves[c].pk_key,
            moves[c].new,
        ) matches Some(k) ==> key_at(t, i, pk, Some(base[pk])) != Some(k))
    &&& forall|a: int, b: int|
        0 <= a < b < moves.len() ==> (key_at(
            t,
            i,
            (#[trigger] moves[a]).pk_key,
            moves[a].new,
        ) matches Some(k) ==> key_at(t, i, (#[trigger] moves[b]).pk_key, moves[b].new) != Some(k))
}

proof fn lemma_deltas(
    table: Seq<char>,
    t: TableV,
    mode: Mode,
    cs: Seq<ChangeV>,
    m: MoveV,
    from: int,
)
    requires
        0 <= from,
        deltas_from(table, t, mode, cs, m, from) is Ok,
    ensures
        forall|d: int|
            0 <= d < deltas_from(table, t, mode, cs, m, from)->Ok_0.len() ==> {
                let x = #[trigger] deltas_from(table, t, mode, cs, m, from)->Ok_0[d];
                from <= x.index < t.indexes.len() && delta_at(table, t, mode, cs, m, x.index as int)
                    == Ok::<Option<DeltaV>, super::error::CatalogErrorV>(Some(x))
            },
        forall|i: int|
            from <= i < t.indexes.len() ==> (#[trigger] delta_at(table, t, mode, cs, m, i) is Ok && (
            delta_at(table, t, mode, cs, m, i)->Ok_0 matches Some(x) ==> deltas_from(
                table,
                t,
                mode,
                cs,
                m,
                from,
            )->Ok_0.contains(x))),
    decreases t.indexes.len() - from,
{
    if from < t.indexes.len() {
        lemma_deltas(table, t, mode, cs, m, from + 1);
        let ds = deltas_from(table, t, mode, cs, m, from)->Ok_0;
        let rest = deltas_from(table, t, mode, cs, m, from + 1)->Ok_0;
        let first = delta_at(table, t, mode, cs, m, from)->Ok_0;
        match first {
            Some(x) => {
                assert(ds =~= seq![x] + rest);
                assert(ds[0] == x);
                assert forall|d: int| 0 <= d < ds.len() implies ({
                    let y = #[trigger] ds[d];
                    from <= y.index < t.indexes.len() && delta_at(
                        table,
                        t,
                        mode,
                        cs,
                        m,
                        y.index as int,
                    ) == Ok::<Option<DeltaV>, super::error::CatalogErrorV>(Some(y))
                }) by {
                    if d > 0 {
                        assert(ds[d] == rest[d - 1]);
                    }
                }
                assert forall|i: int| from <= i < t.indexes.len() implies (#[trigger] delta_at(
                    table,
                    t,
                    mode,
                    cs,
                    m,
                    i,
                ) is Ok && (delta_at(table, t, mode, cs, m, i)->Ok_0 matches Some(y) ==> ds.contains(
                    y,
                ))) by {
                    if i > from {
                        if let Some(y) = delta_at(table, t, mode, cs, m, i)->Ok_0 {
                            let k = rest.index_of(y);
                            assert(ds[k + 1] == y);
                        }
                    }
                }
            },
            None => {
                assert(ds == rest);
            },
        }
    }
}

/// What a staged row does to index `i`.
proof fn lemma_change(table: Seq<char>, t: TableV, mode: Mode, cs: Seq<ChangeV>, m: MoveV, i: int)
    requires
        staged(table, t, mode, cs, m) is Ok,
        0 <= i < t.indexes.len(),
    ensures
        ({
            let c = staged(table, t, mode, cs, m)->Ok_0;
            let old = key_at(t, i, m.pk_key, m.old);
            let new = key_at(t, i, m.pk_key, m.new);
            &&& c.pk_key == m.pk_key
            &&& forall|k: Seq<u8>| #[trigger]
                takes(c, i as nat, k) <==> (old == Some(k) && old != new)
            &&& forall|k: Seq<u8>| #[trigger]
                brings(c, i as nat, k) <==> (new == Some(k) && old != new)
            &&& forall|d: int|
                0 <= d < c.deltas.len() && (#[trigger] c.deltas[d]).index == i ==> delta_at(
                    table,
                    t,
                    mode,
                    cs,
                    m,
                    i,
                ) == Ok::<Option<DeltaV>, super::error::CatalogErrorV>(Some(c.deltas[d]))
            &&& delta_at(table, t, mode, cs, m, i) is Ok
        }),
{
    lemma_deltas(table, t, mode, cs, m, 0);
    let c = staged(table, t, mode, cs, m)->Ok_0;
    let old = key_at(t, i, m.pk_key, m.old);
    let new = key_at(t, i, m.pk_key, m.new);
    assert(delta_at(table, t, mode, cs, m, i) is Ok);
    let found = delta_at(table, t, mode, cs, m, i)->Ok_0;
    assert(found is Some <==> old != new);
    if let Some(x) = found {
        let d = c.deltas.index_of(x);
        assert(c.deltas[d] == x);
        assert(x.index == i);
        assert(key_of(x.old) == old);
        assert(key_of(x.new) == new);
        assert forall|k: Seq<u8>| old == Some(k) implies #[trigger] takes(c, i as nat, k) by {
            assert(c.deltas[d].old is Some);
        }
        assert forall|k: Seq<u8>| new == Some(k) implies #[trigger] brings(c, i as nat, k) by {
            assert(c.deltas[d].new is Some);
        }
    }
}

proof fn lemma_del(m: Map<Seq<u8>, Seq<u8>>, rs: Seq<(nat, EntryV)>, i: nat, k: Seq<u8>)
    ensures
        del_all(m, rs, i).contains_key(k) <==> m.contains_key(k) && forall|j: int|
            0 <= j < rs.len() ==> !((#[trigger] rs[j]).0 == i && rs[j].1.key == k),
        del_all(m, rs, i).contains_key(k) ==> del_all(m, rs, i)[k] == m[k],
    decreases rs.len(),
{
    if rs.len() > 0 {
        let rest = rs.drop_last();
        lemma_del(m, rest, i, k);
        assert(forall|j: int| 0 <= j < rest.len() ==> #[trigger] rest[j] == rs[j]);
        assert(forall|j: int| 0 <= j < rest.len() ==> #[trigger] rs[j] == rest[j]);
        assert(rs[rs.len() - 1] == rs.last());
    }
}

proof fn lemma_put(m: Map<Seq<u8>, Seq<u8>>, rs: Seq<(nat, EntryV)>, i: nat, k: Seq<u8>)
    ensures
        put_all(m, rs, i).contains_key(k) <==> m.contains_key(k) || exists|j: int|
            0 <= j < rs.len() && (#[trigger] rs[j]).0 == i && rs[j].1.key == k,
        (exists|j: int| 0 <= j < rs.len() && (#[trigger] rs[j]).0 == i && rs[j].1.key == k) ==> exists|
            j: int,
        |
            0 <= j < rs.len() && (#[trigger] rs[j]).0 == i && rs[j].1.key == k && put_all(m, rs, i)[k]
                == rs[j].1.value,
        !(exists|j: int| 0 <= j < rs.len() && (#[trigger] rs[j]).0 == i && rs[j].1.key == k)
            && m.contains_key(k) ==> put_all(m, rs, i)[k] == m[k],
    decreases rs.len(),
{
    if rs.len() > 0 {
        let rest = rs.drop_last();
        lemma_put(m, rest, i, k);
        assert(forall|j: int| 0 <= j < rest.len() ==> #[trigger] rest[j] == rs[j]);
        assert(forall|j: int| 0 <= j < rest.len() ==> #[trigger] rs[j] == rest[j]);
        assert(rs[rs.len() - 1] == rs.last());
        if rs.last().0 == i && rs.last().1.key == k {
            assert(put_all(m, rs, i)[k] == rs[rs.len() - 1].1.value);
        } else if exists|j: int| 0 <= j < rs.len() && (#[trigger] rs[j]).0 == i && rs[j].1.key == k {
            let j = choose|j: int| 0 <= j < rs.len() && (#[trigger] rs[j]).0 == i && rs[j].1.key == k;
            assert(rest[j] == rs[j]);
            let j2 = choose|j: int|
                0 <= j < rest.len() && (#[trigger] rest[j]).0 == i && rest[j].1.key == k && put_all(
                    m,
                    rest,
                    i,
                )[k] == rest[j].1.value;
            assert(rs[j2] == rest[j2]);
        }
    }
}

proof fn lemma_olds(ds: Seq<DeltaV>, i: nat, e: EntryV)
    ensures
        olds_of(ds).contains((i, e)) <==> exists|d: int|
            0 <= d < ds.len() && (#[trigger] ds[d]).index == i && ds[d].old == Some(e),
    decreases ds.len(),
{
    if ds.len() > 0 {
        let rest = ds.drop_last();
        lemma_olds(rest, i, e);
        let n = ds.len() - 1;
        assert(ds[n] == ds.last());
        assert(forall|j: int| 0 <= j < rest.len() ==> #[trigger] ds[j] == rest[j]);
        assert(forall|j: int| 0 <= j < rest.len() ==> #[trigger] rest[j] == ds[j]);
        lemma_push_contains(olds_of(rest), (ds.last().index, ds.last().old->Some_0), (i, e));
    }
}

proof fn lemma_news(ds: Seq<DeltaV>, i: nat, e: EntryV)
    ensures
        news_of(ds).contains((i, e)) <==> exists|d: int|
            0 <= d < ds.len() && (#[trigger] ds[d]).index == i && ds[d].new == Some(e),
    decreases ds.len(),
{
    if ds.len() > 0 {
        let rest = ds.drop_last();
        lemma_news(rest, i, e);
        let n = ds.len() - 1;
        assert(ds[n] == ds.last());
        assert(forall|j: int| 0 <= j < rest.len() ==> #[trigger] ds[j] == rest[j]);
        assert(forall|j: int| 0 <= j < rest.len() ==> #[trigger] rest[j] == ds[j]);
        lemma_push_contains(news_of(rest), (ds.last().index, ds.last().new->Some_0), (i, e));
    }
}

proof fn lemma_push_contains<T>(s: Seq<T>, x: T, y: T)
    ensures
        s.push(x).contains(y) <==> s.contains(y) || x == y,
{
    assert(s.push(x)[s.len() as int] == x);
    if s.contains(y) {
        let k = s.index_of(y);
        assert(s.push(x)[k] == y);
    }
    if s.push(x).contains(y) && x != y {
        let k = s.push(x).index_of(y);
        assert(s[k] == y);
    }
}

proof fn lemma_add_contains<T>(a: Seq<T>, b: Seq<T>, y: T)
    ensures
        (a + b).contains(y) <==> a.contains(y) || b.contains(y),
{
    if a.contains(y) {
        assert((a + b)[a.index_of(y)] == y);
    }
    if b.contains(y) {
        assert((a + b)[a.len() + b.index_of(y)] == y);
    }
    if (a + b).contains(y) {
        let k = (a + b).index_of(y);
        if k < a.len() {
            assert(a[k] == y);
        } else {
            assert(b[k - a.len()] == y);
        }
    }
}

/// Whether staged row `c` brings this very entry to index `i`.
spec fn brings_entry(c: ChangeV, i: nat, e: EntryV) -> bool {
    exists|d: int|
        0 <= d < c.deltas.len() && (#[trigger] c.deltas[d]).index == i && c.deltas[d].new == Some(e)
}

/// Whether staged row `c` takes this very entry from index `i`.
spec fn takes_entry(c: ChangeV, i: nat, e: EntryV) -> bool {
    exists|d: int|
        0 <= d < c.deltas.len() && (#[trigger] c.deltas[d]).index == i && c.deltas[d].old == Some(e)
}

proof fn lemma_removes(cs: Seq<ChangeV>, i: nat, e: EntryV)
    ensures
        removes_of(cs).contains((i, e)) <==> exists|c: int|
            0 <= c < cs.len() && takes_entry(#[trigger] cs[c], i, e),
    decreases cs.len(),
{
    if cs.len() > 0 {
        let rest = cs.drop_last();
        lemma_removes(rest, i, e);
        lemma_olds(cs.last().deltas, i, e);
        lemma_add_contains(removes_of(rest), olds_of(cs.last().deltas), (i, e));
        let n = cs.len() - 1;
        assert(cs[n] == cs.last());
        assert(forall|j: int| 0 <= j < rest.len() ==> #[trigger] cs[j] == rest[j]);
        assert(forall|j: int| 0 <= j < rest.len() ==> #[trigger] rest[j] == cs[j]);
    }
}

proof fn lemma_inserts(cs: Seq<ChangeV>, i: nat, e: EntryV)
    ensures
        inserts_of(cs).contains((i, e)) <==> exists|c: int|
            0 <= c < cs.len() && brings_entry(#[trigger] cs[c], i, e),
    decreases cs.len(),
{
    if cs.len() > 0 {
        let rest = cs.drop_last();
        lemma_inserts(rest, i, e);
        lemma_news(cs.last().deltas, i, e);
        lemma_add_contains(inserts_of(rest), news_of(cs.last().deltas), (i, e));
        let n = cs.len() - 1;
        assert(cs[n] == cs.last());
        assert(forall|j: int| 0 <= j < rest.len() ==> #[trigger] cs[j] == rest[j]);
        assert(forall|j: int| 0 <= j < rest.len() ==> #[trigger] rest[j] == cs[j]);
    }
}

/// What the plan of staged rows leaves at a key of index `i`.
proof fn lemma_after(m: Map<Seq<u8>, Seq<u8>>, cs: Seq<ChangeV>, i: nat, k: Seq<u8>)
    ensures
        index_after(m, cs, i).contains_key(k) <==> arriving(cs, i, k) || (m.contains_key(k)
            && !leaving(cs, i, k)),
        arriving(cs, i, k) ==> exists|c: int, e: EntryV|
            #![trigger brings_entry(cs[c], i, e)]
            0 <= c < cs.len() && brings_entry(cs[c], i, e) && e.key == k && index_after(m, cs, i)[k]
                == e.value,
        !arriving(cs, i, k) && m.contains_key(k) && !leaving(cs, i, k) ==> index_after(m, cs, i)[k]
            == m[k],
{
    let rs = removes_of(cs);
    let ns = inserts_of(cs);
    lemma_del(m, rs, i, k);
    lemma_put(del_all(m, rs, i), ns, i, k);
    let gone = exists|j: int| 0 <= j < rs.len() && (#[trigger] rs[j]).0 == i && rs[j].1.key == k;
    let come = exists|j: int| 0 <= j < ns.len() && (#[trigger] ns[j]).0 == i && ns[j].1.key == k;
    assert(gone <==> leaving(cs, i, k)) by {
        if gone {
            let j = choose|j: int| 0 <= j < rs.len() && (#[trigger] rs[j]).0 == i && rs[j].1.key == k;
            lemma_removes(cs, i, rs[j].1);
            assert(rs.contains((i, rs[j].1)));
            let c = choose|c: int| 0 <= c < cs.len() && takes_entry(#[trigger] cs[c], i, rs[j].1);
            assert(takes(cs[c], i, k));
        }
        if leaving(cs, i, k) {
            let c = choose|c: int| 0 <= c < cs.len() && takes(#[trigger] cs[c], i, k);
            let d = choose|d: int|
                0 <= d < cs[c].deltas.len() && (#[trigger] cs[c].deltas[d]).index == i
                    && cs[c].deltas[d].old is Some && cs[c].deltas[d].old->Some_0.key == k;
            let e = cs[c].deltas[d].old->Some_0;
            lemma_removes(cs, i, e);
            assert(takes_entry(cs[c], i, e));
            let j = rs.index_of((i, e));
            assert(rs[j] == (i, e));
        }
    }
    assert(come <==> arriving(cs, i, k)) by {
        if come {
            let j = choose|j: int| 0 <= j < ns.len() && (#[trigger] ns[j]).0 == i && ns[j].1.key == k;
            lemma_inserts(cs, i, ns[j].1);
            assert(ns.contains((i, ns[j].1)));
            let c = choose|c: int| 0 <= c < cs.len() && brings_entry(#[trigger] cs[c], i, ns[j].1);
            assert(brings(cs[c], i, k));
        }
        if arriving(cs, i, k) {
            let c = choose|c: int| 0 <= c < cs.len() && brings(#[trigger] cs[c], i, k);
            let d = choose|d: int|
                0 <= d < cs[c].deltas.len() && (#[trigger] cs[c].deltas[d]).index == i
                    && cs[c].deltas[d].new is Some && cs[c].deltas[d].new->Some_0.key == k;
            let e = cs[c].deltas[d].new->Some_0;
            lemma_inserts(cs, i, e);
            assert(brings_entry(cs[c], i, e));
            let j = ns.index_of((i, e));
            assert(ns[j] == (i, e));
        }
    }
    if come {
        let j = choose|j: int|
            0 <= j < ns.len() && (#[trigger] ns[j]).0 == i && ns[j].1.key == k && put_all(
                del_all(m, rs, i),
                ns,
                i,
            )[k] == ns[j].1.value;
        lemma_inserts(cs, i, ns[j].1);
        assert(ns.contains((i, ns[j].1)));
        let c = choose|c: int| 0 <= c < cs.len() && brings_entry(#[trigger] cs[c], i, ns[j].1);
        assert(brings_entry(cs[c], i, ns[j].1));
    }
}

pub proof fn lemma_rows_after(base: Map<Seq<u8>, KeyedV>, moves: Seq<MoveV>, pk: Seq<u8>)
    requires
        forall|a: int, b: int|
            0 <= a < b < moves.len() ==> (#[trigger] moves[a]).pk_key != (#[trigger] moves[b]).pk_key,
    ensures
        forall|c: int|
            0 <= c < moves.len() && (#[trigger] moves[c]).pk_key == pk ==> row_at(
                rows_after(base, moves),
                pk,
            ) == moves[c].new,
        (forall|c: int| 0 <= c < moves.len() ==> (#[trigger] moves[c]).pk_key != pk) ==> row_at(
            rows_after(base, moves),
            pk,
        ) == row_at(base, pk),
    decreases moves.len(),
{
    if moves.len() > 0 {
        let rest = moves.drop_last();
        assert(forall|j: int| 0 <= j < rest.len() ==> #[trigger] rest[j] == moves[j]);
        assert(forall|j: int| 0 <= j < rest.len() ==> #[trigger] moves[j] == rest[j]);
        lemma_rows_after(base, rest, pk);
        assert(moves[moves.len() - 1] == moves.last());
    }
}

/// What the staged rows do to index `i`, by their moves.
proof fn lemma_moved(
    table: Seq<char>,
    t: TableV,
    mode: Mode,
    moves: Seq<MoveV>,
    cs: Seq<ChangeV>,
    i: int,
    c: int,
)
    requires
        staged_as(table, t, mode, moves, cs),
        0 <= i < t.indexes.len(),
        0 <= c < moves.len(),
    ensures
        ({
            let old = key_at(t, i, moves[c].pk_key, moves[c].old);
            let new = key_at(t, i, moves[c].pk_key, moves[c].new);
            &&& forall|k: Seq<u8>| #[trigger]
                takes(cs[c], i as nat, k) <==> (old == Some(k) && old != new)
            &&& forall|k: Seq<u8>| #[trigger]
                brings(cs[c], i as nat, k) <==> (new == Some(k) && old != new)
            &&& forall|e: EntryV| #[trigger]
                brings_entry(cs[c], i as nat, e) ==> e.value == moves[c].pk_key && new == Some(
                    e.key,
                ) && old != new
        }),
{
    assert(staged(table, t, mode, cs.take(c), moves[c]) == Ok::<
        ChangeV,
        super::error::CatalogErrorV,
    >(cs[c]));
    lemma_change(table, t, mode, cs.take(c), moves[c], i);
    assert forall|e: EntryV| #[trigger] brings_entry(cs[c], i as nat, e) implies e.value
        == moves[c].pk_key && key_at(t, i, moves[c].pk_key, moves[c].new) == Some(e.key) && key_at(
        t,
        i,
        moves[c].pk_key,
        moves[c].old,
    ) != key_at(t, i, moves[c].pk_key, moves[c].new) by {
        let d = choose|d: int|
            0 <= d < cs[c].deltas.len() && (#[trigger] cs[c].deltas[d]).index == i
                && cs[c].deltas[d].new == Some(e);
        assert(delta_at(table, t, mode, cs.take(c), moves[c], i) == Ok::<
            Option<DeltaV>,
            super::error::CatalogErrorV,
        >(Some(cs[c].deltas[d])));
    }
}

/// The step itself: where an arriving key that the index holds leaves it too, and
/// no two arriving entries share a key, the index stays in step.
#[verifier::spinoff_prover]
#[verifier::rlimit(40)]
proof fn lemma_stays_in_step(
    table: Seq<char>,
    t: TableV,
    mode: Mode,
    base: Map<Seq<u8>, KeyedV>,
    m: Map<Seq<u8>, Seq<u8>>,
    moves: Seq<MoveV>,
    cs: Seq<ChangeV>,
    i: int,
)
    requires
        0 <= i < t.indexes.len(),
        in_step(t, i, base, m),
        moves_start(base, moves),
        staged_as(table, t, mode, moves, cs),
        forall|k: Seq<u8>| #[trigger]
            arriving(cs, i as nat, k) && m.contains_key(k) ==> leaving(cs, i as nat, k),
        forall|a: int, b: int, k: Seq<u8>|
            0 <= a < b < cs.len() && #[trigger] brings(cs[a], i as nat, k) ==> !#[trigger] brings(
                cs[b],
                i as nat,
                k,
            ),
    ensures
        in_step(t, i, rows_after(base, moves), index_after(m, cs, i as nat)),
{
    let base2 = rows_after(base, moves);
    let m2 = index_after(m, cs, i as nat);
    let n = i as nat;
    assert forall|pk: Seq<u8>| #[trigger] base2.contains_key(pk) implies match key_at(
        t,
        i,
        pk,
        Some(base2[pk]),
    ) {
        Some(k) => m2.contains_key(k) && m2[k] == pk,
        None => true,
    } by {
        if let Some(k) = key_at(t, i, pk, Some(base2[pk])) {
            lemma_rows_after(base, moves, pk);
            lemma_after(m, cs, n, k);
            if exists|c: int| 0 <= c < moves.len() && (#[trigger] moves[c]).pk_key == pk {
                let c = choose|c: int| 0 <= c < moves.len() && (#[trigger] moves[c]).pk_key == pk;
                assert(moves[c].new == Some(base2[pk]));
                lemma_moved(table, t, mode, moves, cs, i, c);
                let old = key_at(t, i, pk, moves[c].old);
                if old != Some(k) {
                    assert(brings(cs[c], n, k));
                    assert(arriving(cs, n, k));
                    let (c2, e) = choose|c2: int, e: EntryV|
                        #![trigger brings_entry(cs[c2], n, e)]
                        0 <= c2 < cs.len() && brings_entry(cs[c2], n, e) && e.key == k && m2[k]
                            == e.value;
                    lemma_moved(table, t, mode, moves, cs, i, c2);
                    assert(brings(cs[c2], n, k));
                    assert(c2 == c);
                } else {
                    assert(base.contains_key(pk));
                    assert(m.contains_key(k) && m[k] == pk);
                    lemma_unmoved(table, t, mode, base, m, moves, cs, i, pk, k);
                }
            } else {
                assert(row_at(base, pk) == Some(base2[pk]));
                assert(base.contains_key(pk) && base[pk] == base2[pk]);
                assert(m.contains_key(k) && m[k] == pk);
                lemma_unmoved(table, t, mode, base, m, moves, cs, i, pk, k);
            }
        }
    }
    assert forall|k: Seq<u8>| #[trigger] m2.contains_key(k) implies base2.contains_key(m2[k])
        && key_at(t, i, m2[k], Some(base2[m2[k]])) == Some(k) by {
        lemma_after(m, cs, n, k);
        if arriving(cs, n, k) {
            let (c, e) = choose|c: int, e: EntryV|
                #![trigger brings_entry(cs[c], n, e)]
                0 <= c < cs.len() && brings_entry(cs[c], n, e) && e.key == k && m2[k] == e.value;
            lemma_moved(table, t, mode, moves, cs, i, c);
            lemma_rows_after(base, moves, moves[c].pk_key);
            assert(row_at(base2, moves[c].pk_key) == moves[c].new);
        } else {
            let pk = m[k];
            assert(base.contains_key(pk));
            lemma_rows_after(base, moves, pk);
            if exists|c: int| 0 <= c < moves.len() && (#[trigger] moves[c]).pk_key == pk {
                let c = choose|c: int| 0 <= c < moves.len() && (#[trigger] moves[c]).pk_key == pk;
                lemma_moved(table, t, mode, moves, cs, i, c);
                assert(moves[c].old == Some(base[pk]));
                let new = key_at(t, i, pk, moves[c].new);
                if new != Some(k) {
                    assert(takes(cs[c], n, k));
                    assert(leaving(cs, n, k));
                }
                assert(row_at(base2, pk) == moves[c].new);
            } else {
                assert(row_at(base2, pk) == row_at(base, pk));
            }
        }
    }
}

/// An entry whose row keeps its key stays.
proof fn lemma_unmoved(
    table: Seq<char>,
    t: TableV,
    mode: Mode,
    base: Map<Seq<u8>, KeyedV>,
    m: Map<Seq<u8>, Seq<u8>>,
    moves: Seq<MoveV>,
    cs: Seq<ChangeV>,
    i: int,
    pk: Seq<u8>,
    k: Seq<u8>,
)
    requires
        0 <= i < t.indexes.len(),
        in_step(t, i, base, m),
        moves_start(base, moves),
        staged_as(table, t, mode, moves, cs),
        forall|x: Seq<u8>| #[trigger]
            arriving(cs, i as nat, x) && m.contains_key(x) ==> leaving(cs, i as nat, x),
        base.contains_key(pk),
        m.contains_key(k),
        m[k] == pk,
        forall|c: int|
            0 <= c < moves.len() && (#[trigger] moves[c]).pk_key == pk ==> key_at(
                t,
                i,
                pk,
                moves[c].new,
            ) == Some(k),
    ensures
        index_after(m, cs, i as nat).contains_key(k),
        index_after(m, cs, i as nat)[k] == pk,
{
    let n = i as nat;
    lemma_after(m, cs, n, k);
    assert(!leaving(cs, n, k)) by {
        if leaving(cs, n, k) {
            let c = choose|c: int| 0 <= c < cs.len() && takes(#[trigger] cs[c], n, k);
            lemma_moved(table, t, mode, moves, cs, i, c);
            let p = moves[c].pk_key;
            assert(moves[c].old == row_at(base, p));
            assert(base.contains_key(p));
            assert(m[k] == p);
        }
    }
    assert(!arriving(cs, n, k));
}

/// The law of index maintenance: where an index is in step with its base table, it
/// is in step after the plan of a batch too. The batch moves distinct rows from
/// what is committed; what was found out about taken keys is true; a batch of many
/// rows has been settled, and an update moves one row. In a plain index, which
/// nothing is probed in, the keys of different rows are apart.
pub proof fn batches_keep_indexes_in_step(
    table: Seq<char>,
    t: TableV,
    mode: Mode,
    base: Map<Seq<u8>, KeyedV>,
    m: Map<Seq<u8>, Seq<u8>>,
    moves: Seq<MoveV>,
    cs: Seq<ChangeV>,
    i: int,
)
    requires
        0 <= i < t.indexes.len(),
        in_step(t, i, base, m),
        moves_start(base, moves),
        staged_as(table, t, mode, moves, cs),
        t.indexes[i].unique ==> taken_is_true(t, i, m, moves),
        mode == Mode::Update ==> moves.len() <= 1,
        mode == Mode::Many ==> clash_error(table, t, cs, 0) is None,
        !t.indexes[i].unique ==> keys_apart(t, i, base, moves),
    ensures
        in_step(t, i, rows_after(base, moves), index_after(m, cs, i as nat)),
{
    let n = i as nat;
    if mode == Mode::Many {
        lemma_no_clash(table, t, cs, 0, i);
    }
    assert forall|k: Seq<u8>| #[trigger] arriving(cs, n, k) && m.contains_key(k) implies leaving(
        cs,
        n,
        k,
    ) by {
        let c = choose|c: int| 0 <= c < cs.len() && brings(#[trigger] cs[c], n, k);
        lemma_moved(table, t, mode, moves, cs, i, c);
        let mv = moves[c];
        assert(staged(table, t, mode, cs.take(c), mv) == Ok::<
            ChangeV,
            super::error::CatalogErrorV,
        >(cs[c]));
        lemma_change(table, t, mode, cs.take(c), mv, i);
        if t.indexes[i].unique {
            assert(mv.taken[i]);
            let d = choose|d: int|
                0 <= d < cs[c].deltas.len() && (#[trigger] cs[c].deltas[d]).index == n
                    && cs[c].deltas[d].new is Some && cs[c].deltas[d].new->Some_0.key == k;
            assert(delta_at(table, t, mode, cs.take(c), mv, i) == Ok::<
                Option<DeltaV>,
                super::error::CatalogErrorV,
            >(Some(cs[c].deltas[d])));
            assert(mode == Mode::Many);
            assert(t.indexes[i].unique && !clashes(cs, n));
            assert(!clashes_at(cs, n, c, d));
        } else {
            let pk = m[k];
            assert(base.contains_key(pk));
            assert(key_at(t, i, pk, Some(base[pk])) == Some(k));
            assert(pk == mv.pk_key);
            assert(mv.old == Some(base[pk]));
        }
    }
    assert forall|a: int, b: int, k: Seq<u8>|
        0 <= a < b < cs.len() && #[trigger] brings(cs[a], n, k) implies !#[trigger] brings(
        cs[b],
        n,
        k,
    ) by {
        if brings(cs[b], n, k) {
            lemma_moved(table, t, mode, moves, cs, i, a);
            lemma_moved(table, t, mode, moves, cs, i, b);
            let mv = moves[b];
            assert(staged(table, t, mode, cs.take(b), mv) == Ok::<
                ChangeV,
                super::error::CatalogErrorV,
            >(cs[b]));
            lemma_change(table, t, mode, cs.take(b), mv, i);
            if t.indexes[i].unique {
                assert(cs.take(b)[a] == cs[a]);
                assert(arriving(cs.take(b), n, k));
                let d = choose|d: int|
                    0 <= d < cs[b].deltas.len() && (#[trigger] cs[b].deltas[d]).index == n
                        && cs[b].deltas[d].new is Some && cs[b].deltas[d].new->Some_0.key == k;
                assert(delta_at(table, t, mode, cs.take(b), mv, i) == Ok::<
                    Option<DeltaV>,
                    super::error::CatalogErrorV,
                >(Some(cs[b].deltas[d])));
                assert(false);
            } else {
                assert(key_at(t, i, moves[a].pk_key, moves[a].new) == Some(k));
                assert(key_at(t, i, moves[b].pk_key, moves[b].new) == Some(k));
            }
        }
    }
    lemma_stays_in_step(table, t, mode, base, m, moves, cs, i);
}

proof fn lemma_no_clash(table: Seq<char>, t: TableV, cs: Seq<ChangeV>, from: int, i: int)
    requires
        0 <= from <= i < t.indexes.len(),
        clash_error(table, t, cs, from) is None,
    ensures
        t.indexes[i].unique ==> !clashes(cs, i as nat),
    decreases i - from,
{
    if from < i {
        lemma_no_clash(table, t, cs, from + 1, i);
    }
}

/// Where no staged row touches an index, no entry of it leaves or arrives.
pub proof fn untouched_indexes_keep_their_entries(cs: Seq<ChangeV>, i: nat)
    requires
        !touches(cs, i),
    ensures
        forall|j: int| 0 <= j < removes_of(cs).len() ==> (#[trigger] removes_of(cs)[j]).0 != i,
        forall|j: int| 0 <= j < inserts_of(cs).len() ==> (#[trigger] inserts_of(cs)[j]).0 != i,
{
    assert forall|j: int| 0 <= j < removes_of(cs).len() implies (#[trigger] removes_of(cs)[j]).0
        != i by {
        let (k, e) = removes_of(cs)[j];
        if k == i {
            lemma_removes(cs, i, e);
            assert(removes_of(cs).contains((i, e)));
            let c = choose|c: int| 0 <= c < cs.len() && takes_entry(#[trigger] cs[c], i, e);
            let d = choose|d: int|
                0 <= d < cs[c].deltas.len() && (#[trigger] cs[c].deltas[d]).index == i
                    && cs[c].deltas[d].old == Some(e);
            assert(touches_at(cs, i, c, d));
        }
    }
    assert forall|j: int| 0 <= j < inserts_of(cs).len() implies (#[trigger] inserts_of(cs)[j]).0
        != i by {
        let (k, e) = inserts_of(cs)[j];
        if k == i {
            lemma_inserts(cs, i, e);
            assert(inserts_of(cs).contains((i, e)));
            let c = choose|c: int| 0 <= c < cs.len() && brings_entry(#[trigger] cs[c], i, e);
            let d = choose|d: int|
                0 <= d < cs[c].deltas.len() && (#[trigger] cs[c].deltas[d]).index == i
                    && cs[c].deltas[d].new == Some(e);
            assert(touches_at(cs, i, c, d));
        }
    }
}

} // verus!
