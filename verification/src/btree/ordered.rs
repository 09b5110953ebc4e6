//! A range of a B+tree is walked in key order, and yields exactly its entries.

use vstd::prelude::*;
use crate::order::{
    before, before_irreflexive, before_not_after, before_transitive, lemma_lower_bound,
    lemma_upper_bound, lower_bound, not_before_transitive, upper_bound,
};
use super::model::{
    above, below, btree, good, kid_hi, kid_lo, lemma_route_within, lemma_within_route, within,
    Bound, Tree,
};
use super::check::{entry_count, kids_entries};
use super::grove::tree_map;
use super::node::lemma_leaf_value;
use super::parts::lemma_leaf_value_at;
use super::range::{
    in_reach, lemma_met_all_push, met, met_all, met_from, met_upto, start_of, stopper, yielded,
    Direction, Met,
};

verus! {

/// The key of what a walk meets.
pub open spec fn met_key(x: Met) -> Seq<u8> {
    match x {
        Met::Entry(k, _) => k,
        Met::Stuck(_) => Seq::empty(),
    }
}

/// Whether what a walk meets is entries only, with keys ascending in `[lo, hi)`.
spec fn sound(m: Seq<Met>, lo: Bound, hi: Bound) -> bool {
    &&& forall|i: int| 0 <= i < m.len() ==> #[trigger] m[i] is Entry
    &&& forall|i: int| 0 <= i < m.len() ==> within(lo, met_key(#[trigger] m[i]), hi)
    &&& forall|i: int, j: int|
        0 <= i < j < m.len() ==> before(met_key(#[trigger] m[i]), met_key(#[trigger] m[j]))
}

proof fn lemma_sound_join(a: Seq<Met>, b: Seq<Met>, lo: Bound, mid: Seq<u8>, hi: Bound)
    requires
        sound(a, lo, Some(mid)),
        sound(b, Some(mid), hi),
        above(lo, mid),
        below(mid, hi),
    ensures
        sound(a + b, lo, hi),
{
    let m = a + b;
    assert forall|i: int| 0 <= i < m.len() implies #[trigger] m[i] is Entry by {
        if i < a.len() {
            assert(m[i] == a[i]);
        } else {
            assert(m[i] == b[i - a.len()]);
        }
    }
    assert forall|i: int| 0 <= i < m.len() implies within(lo, met_key(#[trigger] m[i]), hi) by {
        if i < a.len() {
            assert(m[i] == a[i]);
            let k = met_key(a[i]);
            assert(before(k, mid));
            if let Some(h) = hi {
                before_transitive(k, mid, h);
            }
        } else {
            assert(m[i] == b[i - a.len()]);
            let k = met_key(b[i - a.len()]);
            assert(!before(k, mid));
            if let Some(l) = lo {
                not_before_transitive(k, mid, l);
            }
        }
    }
    assert forall|i: int, j: int| 0 <= i < j < m.len() implies before(
        met_key(#[trigger] m[i]),
        met_key(#[trigger] m[j]),
    ) by {
        if j < a.len() {
            assert(m[i] == a[i] && m[j] == a[j]);
        } else if i >= a.len() {
            assert(m[i] == b[i - a.len()] && m[j] == b[j - a.len()]);
        } else {
            assert(m[i] == a[i] && m[j] == b[j - a.len()]);
            before_not_after(met_key(a[i]), mid, met_key(b[j - a.len()]));
        }
    }
}

proof fn lemma_kid_bounds(t: Tree, h: nat, lo: Bound, hi: Bound, i: int)
    requires
        good(t, h, lo, hi),
        t is Inner,
        0 <= i < t.keys().len(),
    ensures
        above(lo, t.keys()[i]),
        below(t.keys()[i], hi),
        below(t.keys()[i], kid_hi(t.keys(), hi, i + 1)),
{
    let keys = t.keys();
    assert(within(lo, keys[i], hi));
    if i + 1 < keys.len() {
        assert(before(keys[i], keys[i + 1]));
    }
}

/// What a walk over a B+tree meets is its entries, in key order.
proof fn lemma_met_sound(t: Tree, h: nat, lo: Bound, hi: Bound)
    requires
        good(t, h, lo, hi),
    ensures
        sound(met(t), lo, hi),
    decreases t, t.subtrees().len() + 1,
{
    match t {
        Tree::Leaf { keys, vals, .. } => {
            let m = met(t);
            assert forall|i: int| 0 <= i < m.len() implies within(lo, met_key(#[trigger] m[i]), hi) by {
                assert(within(lo, keys[i], hi));
            }
            assert forall|i: int, j: int| 0 <= i < j < m.len() implies before(
                met_key(#[trigger] m[i]),
                met_key(#[trigger] m[j]),
            ) by {
                assert(before(keys[i], keys[j]));
            }
        },
        Tree::Inner { keys, kids, .. } => {
            lemma_front_sound(t, h, lo, hi, kids.len());
            assert(kids.take(kids.len() as int) =~= kids);
        },
        Tree::Bad { .. } => {},
    }
}

/// The first `n` subtrees.
proof fn lemma_front_sound(t: Tree, h: nat, lo: Bound, hi: Bound, n: nat)
    requires
        good(t, h, lo, hi),
        t is Inner,
        1 <= n <= t.subtrees().len(),
    ensures
        sound(met_all(t.subtrees().take(n as int)), lo, kid_hi(t.keys(), hi, n - 1)),
    decreases t, n,
{
    let keys = t.keys();
    let kids = t.subtrees();
    let i = n - 1;
    lemma_met_all_push(kids, i);
    lemma_met_sound(kids[i], (h - 1) as nat, kid_lo(lo, keys, i), kid_hi(keys, hi, i));
    if n == 1 {
        assert(kids.take(0) =~= Seq::empty());
        assert(met_all(kids.take(1)) =~= met(kids[0]));
    } else {
        lemma_front_sound(t, h, lo, hi, (n - 1) as nat);
        lemma_kid_bounds(t, h, lo, hi, i - 1);
        lemma_sound_join(
            met_all(kids.take(i)),
            met(kids[i]),
            lo,
            keys[i - 1],
            kid_hi(keys, hi, i),
        );
    }
}

proof fn lemma_in_all(kids: Seq<Tree>, x: Met)
    ensures
        met_all(kids).contains(x) <==> exists|i: int|
            0 <= i < kids.len() && met(#[trigger] kids[i]).contains(x),
    decreases kids.len(),
{
    if kids.len() > 0 {
        let rest = kids.drop_first();
        lemma_in_all(rest, x);
        let a = met(kids[0]);
        let b = met_all(rest);
        if a.contains(x) {
            assert((a + b)[a.index_of(x)] == x);
        }
        if b.contains(x) {
            assert((a + b)[a.len() + b.index_of(x)] == x);
            let i = choose|i: int| 0 <= i < rest.len() && met(#[trigger] rest[i]).contains(x);
            assert(kids[i + 1] == rest[i]);
        }
        if (a + b).contains(x) {
            let i = (a + b).index_of(x);
            if i < a.len() {
                assert(a[i] == x);
            } else {
                assert(b[i - a.len()] == x);
            }
        }
        if exists|i: int| 0 <= i < kids.len() && met(#[trigger] kids[i]).contains(x) {
            let i = choose|i: int| 0 <= i < kids.len() && met(#[trigger] kids[i]).contains(x);
            if i > 0 {
                assert(rest[i - 1] == kids[i]);
            }
        }
    }
}

/// A walk over a B+tree meets exactly what the tree maps.
proof fn lemma_met_is_get(t: Tree, h: nat, lo: Bound, hi: Bound, k: Seq<u8>, v: Seq<u8>)
    requires
        good(t, h, lo, hi),
    ensures
        met(t).contains(Met::Entry(k, v)) <==> within(lo, k, hi) && t.get(k) == Some(v),
    decreases t,
{
    let x = Met::Entry(k, v);
    match t {
        Tree::Leaf { keys, vals, .. } => {
            let n = t.node();
            lemma_leaf_value(n, k);
            lemma_lower_bound(keys, k);
            if met(t).contains(x) {
                let i = met(t).index_of(x);
                assert(met(t)[i] == Met::Entry(keys[i], vals[i]));
                lemma_leaf_value_at(n, i);
                assert(within(lo, keys[i], hi));
            }
            if within(lo, k, hi) && t.get(k) == Some(v) {
                let i = lower_bound(keys, k);
                assert(met(t)[i] == x);
            }
        },
        Tree::Inner { keys, kids, .. } => {
            lemma_in_all(kids, x);
            if met(t).contains(x) {
                let i = choose|i: int| 0 <= i < kids.len() && met(#[trigger] kids[i]).contains(x);
                lemma_met_is_get(
                    kids[i],
                    (h - 1) as nat,
                    kid_lo(lo, keys, i),
                    kid_hi(keys, hi, i),
                    k,
                    v,
                );
                lemma_within_route(keys, lo, hi, k, i);
                lemma_met_sound(t, h, lo, hi);
                let j = met(t).index_of(x);
                assert(within(lo, met_key(met(t)[j]), hi));
            }
            if within(lo, k, hi) && t.get(k) == Some(v) {
                lemma_route_within(keys, lo, hi, k);
                let i = upper_bound(keys, k);
                lemma_met_is_get(
                    kids[i],
                    (h - 1) as nat,
                    kid_lo(lo, keys, i),
                    kid_hi(keys, hi, i),
                    k,
                    v,
                );
            }
        },
        Tree::Bad { .. } => {},
    }
}

spec fn all_before(m: Seq<Met>, b: Seq<u8>) -> bool {
    forall|i: int| 0 <= i < m.len() ==> before(met_key(#[trigger] m[i]), b)
}

spec fn none_before(m: Seq<Met>, b: Seq<u8>) -> bool {
    forall|i: int| 0 <= i < m.len() ==> !before(met_key(#[trigger] m[i]), b)
}

/// A bound parts what a walk meets: what lies before it, and the rest.
proof fn lemma_parted_by(t: Tree, h: nat, lo: Bound, hi: Bound, b: Seq<u8>)
    requires
        good(t, h, lo, hi),
    ensures
        met(t) == met_upto(t, b) + met_from(t, b),
        all_before(met_upto(t, b), b),
        none_before(met_from(t, b), b),
    decreases t,
{
    match t {
        Tree::Leaf { keys, vals, .. } => {
            lemma_lower_bound(keys, b);
            let n = lower_bound(keys, b);
            let m = met(t);
            assert(m.take(n) + m.skip(n) =~= m);
            assert forall|i: int| 0 <= i < m.take(n).len() implies before(
                met_key(#[trigger] m.take(n)[i]),
                b,
            ) by {
                assert(before(keys[i], b));
            }
            assert forall|i: int| 0 <= i < m.skip(n).len() implies !before(
                met_key(#[trigger] m.skip(n)[i]),
                b,
            ) by {
                assert(!before(keys[i + n], b));
            }
        },
        Tree::Inner { keys, kids, .. } => {
            lemma_upper_bound(keys, b);
            let i = upper_bound(keys, b);
            lemma_parted_by(kids[i], (h - 1) as nat, kid_lo(lo, keys, i), kid_hi(keys, hi, i), b);
            lemma_met_all_push(kids, i);
            lemma_split_at(kids, i);
            let left = met_all(kids.take(i));
            let right = met_all(kids.skip(i + 1));
            let up = met_upto(kids[i], b);
            let from = met_from(kids[i], b);
            assert(left + ((up + from) + right) =~= (left + up) + (from + right));
            assert(all_before(left, b)) by {
                if i > 0 {
                    lemma_front_sound(t, h, lo, hi, i as nat);
                    assert forall|j: int| 0 <= j < left.len() implies before(
                        met_key(#[trigger] left[j]),
                        b,
                    ) by {
                        assert(within(lo, met_key(left[j]), kid_hi(keys, hi, i - 1)));
                        before_not_after(met_key(left[j]), keys[i - 1], b);
                    }
                } else {
                    assert(kids.take(0) =~= Seq::empty());
                }
            }
            assert(none_before(right, b)) by {
                assert forall|j: int| 0 <= j < right.len() implies !before(
                    met_key(#[trigger] right[j]),
                    b,
                ) by {
                    let x = right[j];
                    lemma_in_all(kids.skip(i + 1), x);
                    assert(right.contains(x));
                    let c = choose|c: int|
                        0 <= c < kids.skip(i + 1).len() && met(
                            #[trigger] kids.skip(i + 1)[c],
                        ).contains(x);
                    let g = i + 1 + c;
                    assert(kids.skip(i + 1)[c] == kids[g]);
                    lemma_met_sound(
                        kids[g],
                        (h - 1) as nat,
                        kid_lo(lo, keys, g),
                        kid_hi(keys, hi, g),
                    );
                    let d = met(kids[g]).index_of(x);
                    assert(within(kid_lo(lo, keys, g), met_key(met(kids[g])[d]), kid_hi(keys, hi, g)));
                    assert(!before(met_key(x), keys[g - 1]));
                    assert(before(b, keys[g - 1]));
                    if before(met_key(x), b) {
                        before_transitive(met_key(x), b, keys[g - 1]);
                    }
                }
            }
            lemma_both(left, up, b);
            lemma_neither(from, right, b);
        },
        Tree::Bad { .. } => {},
    }
}

proof fn lemma_split_at(kids: Seq<Tree>, i: int)
    requires
        0 <= i < kids.len(),
    ensures
        met_all(kids) == met_all(kids.take(i)) + met_all(kids.skip(i)),
    decreases i,
{
    if i == 0 {
        assert(kids.take(0) =~= Seq::empty());
        assert(kids.skip(0) =~= kids);
        assert(Seq::empty() + met_all(kids) =~= met_all(kids));
    } else {
        lemma_split_at(kids, i - 1);
        lemma_met_all_push(kids, i - 1);
        assert(met_all(kids.take(i - 1)) + (met(kids[i - 1]) + met_all(kids.skip(i))) =~= (met_all(
            kids.take(i - 1),
        ) + met(kids[i - 1])) + met_all(kids.skip(i)));
    }
}

proof fn lemma_both(x: Seq<Met>, y: Seq<Met>, b: Seq<u8>)
    requires
        all_before(x, b),
        all_before(y, b),
    ensures
        all_before(x + y, b),
{
    assert forall|i: int| 0 <= i < (x + y).len() implies before(met_key(#[trigger] (x + y)[i]), b) by {
        if i < x.len() {
            assert((x + y)[i] == x[i]);
        } else {
            assert((x + y)[i] == y[i - x.len()]);
        }
    }
}

proof fn lemma_neither(x: Seq<Met>, y: Seq<Met>, b: Seq<u8>)
    requires
        none_before(x, b),
        none_before(y, b),
    ensures
        none_before(x + y, b),
{
    assert forall|i: int| 0 <= i < (x + y).len() implies !before(
        met_key(#[trigger] (x + y)[i]),
        b,
    ) by {
        if i < x.len() {
            assert((x + y)[i] == x[i]);
        } else {
            assert((x + y)[i] == y[i - x.len()]);
        }
    }
}

/// Whether keys go up (a forward walk) or down (a backward one).
pub open spec fn in_order(ys: Seq<(Seq<u8>, Seq<u8>)>, dir: Direction) -> bool {
    forall|i: int, j: int|
        0 <= i < j < ys.len() ==> match dir {
            Direction::Forward => before((#[trigger] ys[i]).0, (#[trigger] ys[j]).0),
            Direction::Backward => before(ys[j].0, ys[i].0),
        }
}

/// Whether what a walk meets is entries only, in the order of its direction.
spec fn orderly(m: Seq<Met>, dir: Direction) -> bool {
    &&& forall|i: int| 0 <= i < m.len() ==> #[trigger] m[i] is Entry
    &&& forall|i: int, j: int|
        0 <= i < j < m.len() ==> match dir {
            Direction::Forward => before(met_key(#[trigger] m[i]), met_key(#[trigger] m[j])),
            Direction::Backward => before(met_key(m[j]), met_key(m[i])),
        }
}

/// An orderly walk yields what it meets within reach.
proof fn lemma_yields(m: Seq<Met>, dir: Direction, lo: Bound, hi: Bound)
    requires
        orderly(m, dir),
    ensures
        stopper(m, dir, lo, hi) is None,
        in_order(yielded(m, dir, lo, hi), dir),
        forall|k: Seq<u8>, v: Seq<u8>| #[trigger]
            yielded(m, dir, lo, hi).contains((k, v)) <==> m.contains(Met::Entry(k, v)) && in_reach(
                k,
                dir,
                lo,
                hi,
            ),
    decreases m.len(),
{
    let ys = yielded(m, dir, lo, hi);
    if m.len() > 0 {
        let k0 = met_key(m[0]);
        assert(m[0] is Entry);
        let v0 = m[0]->Entry_1;
        let rest = m.drop_first();
        assert(orderly(rest, dir)) by {
            assert forall|i: int| 0 <= i < rest.len() implies #[trigger] rest[i] is Entry by {
                assert(rest[i] == m[i + 1]);
            }
            assert forall|i: int, j: int| 0 <= i < j < rest.len() implies match dir {
                Direction::Forward => before(met_key(#[trigger] rest[i]), met_key(#[trigger] rest[j])),
                Direction::Backward => before(met_key(rest[j]), met_key(rest[i])),
            } by {
                assert(rest[i] == m[i + 1] && rest[j] == m[j + 1]);
            }
        }
        lemma_yields(rest, dir, lo, hi);
        if in_reach(k0, dir, lo, hi) {
            let tail = yielded(rest, dir, lo, hi);
            assert(ys =~= seq![(k0, v0)] + tail);
            assert forall|k: Seq<u8>, v: Seq<u8>| #[trigger] ys.contains((k, v)) <==> m.contains(
                Met::Entry(k, v),
            ) && in_reach(k, dir, lo, hi) by {
                let x = Met::Entry(k, v);
                if ys.contains((k, v)) {
                    let i = ys.index_of((k, v));
                    if i == 0 {
                        assert(m[0] == x);
                    } else {
                        assert(tail[i - 1] == (k, v));
                        assert(tail.contains((k, v)));
                        let j = rest.index_of(x);
                        assert(m[j + 1] == x);
                    }
                }
                if m.contains(x) && in_reach(k, dir, lo, hi) {
                    let i = m.index_of(x);
                    if i == 0 {
                        assert(ys[0] == (k, v));
                    } else {
                        assert(rest[i - 1] == x);
                        assert(rest.contains(x));
                        assert(tail.contains((k, v)));
                        let j = tail.index_of((k, v));
                        assert(ys[j + 1] == (k, v));
                    }
                }
            }
            assert forall|i: int, j: int| 0 <= i < j < ys.len() implies match dir {
                Direction::Forward => before((#[trigger] ys[i]).0, (#[trigger] ys[j]).0),
                Direction::Backward => before(ys[j].0, ys[i].0),
            } by {
                assert(ys[j] == tail[j - 1]);
                if i > 0 {
                    assert(ys[i] == tail[i - 1]);
                } else {
                    let (k, v) = tail[j - 1];
                    assert(tail.contains((k, v)));
                    let c = rest.index_of(Met::Entry(k, v));
                    assert(m[c + 1] == Met::Entry(k, v));
                }
            }
        } else {
            assert forall|k: Seq<u8>, v: Seq<u8>| #[trigger] ys.contains((k, v)) <==> m.contains(
                Met::Entry(k, v),
            ) && in_reach(k, dir, lo, hi) by {
                let x = Met::Entry(k, v);
                if m.contains(x) && in_reach(k, dir, lo, hi) {
                    let i = m.index_of(x);
                    assert(m[i] == x);
                    if i > 0 {
                        match dir {
                            Direction::Forward => {
                                assert(before(k0, k));
                                before_transitive(k0, k, hi->Some_0);
                            },
                            Direction::Backward => {
                                assert(before(k, k0));
                                before_transitive(k, k0, lo->Some_0);
                            },
                        }
                    }
                }
            }
        }
    } else {
        assert forall|k: Seq<u8>, v: Seq<u8>| #[trigger] ys.contains((k, v)) <==> m.contains(
            Met::Entry(k, v),
        ) && in_reach(k, dir, lo, hi) by {}
    }
}

proof fn lemma_in_parts(a: Seq<Met>, b: Seq<Met>, x: Met)
    ensures
        (a + b).contains(x) <==> a.contains(x) || b.contains(x),
{
    if a.contains(x) {
        assert((a + b)[a.index_of(x)] == x);
    }
    if b.contains(x) {
        assert((a + b)[a.len() + b.index_of(x)] == x);
    }
    if (a + b).contains(x) {
        let i = (a + b).index_of(x);
        if i < a.len() {
            assert(a[i] == x);
        } else {
            assert(b[i - a.len()] == x);
        }
    }
}

proof fn lemma_in_reverse(a: Seq<Met>, x: Met)
    ensures
        a.reverse().contains(x) <==> a.contains(x),
{
    if a.contains(x) {
        let i = a.index_of(x);
        assert(a.reverse()[a.len() - 1 - i] == x);
    }
    if a.reverse().contains(x) {
        let i = a.reverse().index_of(x);
        assert(a[a.len() - 1 - i] == x);
    }
}

/// What a walk starts with is orderly, and holds the entries at and beyond its start
/// bound.
proof fn lemma_start(t: Tree, dir: Direction, lo: Bound, hi: Bound)
    requires
        btree(t),
    ensures
        orderly(start_of(t, dir, lo, hi), dir),
        forall|k: Seq<u8>, v: Seq<u8>| #[trigger]
            start_of(t, dir, lo, hi).contains(Met::Entry(k, v)) <==> t.get(k) == Some(v) && (
            match dir {
                Direction::Forward => above(lo, k),
                Direction::Backward => below(k, hi),
            }),
{
    let m = met(t);
    let h = t.height();
    lemma_met_sound(t, h, None, None);
    let s = start_of(t, dir, lo, hi);
    let b = match dir {
        Direction::Forward => lo,
        Direction::Backward => hi,
    };
    if let Some(x) = b {
        lemma_parted_by(t, h, None, None, x);
    }
    let up = match b {
        Some(x) => met_upto(t, x),
        None => if dir == Direction::Forward {
            Seq::empty()
        } else {
            m
        },
    };
    let from = match b {
        Some(x) => met_from(t, x),
        None => if dir == Direction::Forward {
            m
        } else {
            Seq::empty()
        },
    };
    assert(m =~= up + from);
    assert(s == if dir == Direction::Forward {
        from
    } else {
        up.reverse()
    });
    assert forall|i: int| 0 <= i < s.len() implies #[trigger] s[i] is Entry by {
        if dir == Direction::Forward {
            assert(s[i] == m[i + up.len()]);
        } else {
            assert(s[i] == m[up.len() - 1 - i]);
        }
    }
    assert forall|i: int, j: int| 0 <= i < j < s.len() implies match dir {
        Direction::Forward => before(met_key(#[trigger] s[i]), met_key(#[trigger] s[j])),
        Direction::Backward => before(met_key(s[j]), met_key(s[i])),
    } by {
        if dir == Direction::Forward {
            assert(s[i] == m[i + up.len()] && s[j] == m[j + up.len()]);
        } else {
            assert(s[i] == m[up.len() - 1 - i] && s[j] == m[up.len() - 1 - j]);
        }
    }
    assert forall|k: Seq<u8>, v: Seq<u8>| #[trigger] s.contains(Met::Entry(k, v)) <==> t.get(k)
        == Some(v) && (match dir {
        Direction::Forward => above(lo, k),
        Direction::Backward => below(k, hi),
    }) by {
        let x = Met::Entry(k, v);
        lemma_met_is_get(t, h, None, None, k, v);
        lemma_in_parts(up, from, x);
        lemma_in_reverse(up, x);
        if up.contains(x) {
            assert(up[up.index_of(x)] == x);
        }
        if from.contains(x) {
            assert(from[from.index_of(x)] == x);
        }
    }
}

/// A walk over `[lo, hi)` of a B+tree yields exactly the entries whose keys lie in
/// that range, each once and in the order of its direction, and no page stops it.
pub proof fn ranges_yield_exactly_their_entries(t: Tree, dir: Direction, lo: Bound, hi: Bound)
    requires
        btree(t),
    ensures
        stopper(start_of(t, dir, lo, hi), dir, lo, hi) is None,
        in_order(yielded(start_of(t, dir, lo, hi), dir, lo, hi), dir),
        forall|k: Seq<u8>, v: Seq<u8>| #[trigger]
            yielded(start_of(t, dir, lo, hi), dir, lo, hi).contains((k, v)) <==> within(lo, k, hi)
                && t.get(k) == Some(v),
{
    lemma_start(t, dir, lo, hi);
    lemma_yields(start_of(t, dir, lo, hi), dir, lo, hi);
    assert forall|k: Seq<u8>, v: Seq<u8>| #[trigger]
        yielded(start_of(t, dir, lo, hi), dir, lo, hi).contains((k, v)) <==> within(lo, k, hi)
        && t.get(k) == Some(v) by {
        assert(start_of(t, dir, lo, hi).contains(Met::Entry(k, v)) || !start_of(
            t,
            dir,
            lo,
            hi,
        ).contains(Met::Entry(k, v)));
    }
}

// How many entries there are.

proof fn lemma_met_len(t: Tree, h: nat, lo: Bound, hi: Bound)
    requires
        good(t, h, lo, hi),
    ensures
        met(t).len() == entry_count(t),
    decreases t, t.subtrees().len() + 1,
{
    if let Tree::Inner { kids, .. } = t {
        lemma_front_len(t, h, lo, hi, kids.len());
        assert(kids.take(kids.len() as int) =~= kids);
    }
}

proof fn lemma_front_len(t: Tree, h: nat, lo: Bound, hi: Bound, n: nat)
    requires
        good(t, h, lo, hi),
        t is Inner,
        n <= t.subtrees().len(),
    ensures
        met_all(t.subtrees().take(n as int)).len() == kids_entries(t.subtrees(), n),
    decreases t, n,
{
    let kids = t.subtrees();
    if n == 0 {
        assert(kids.take(0) =~= Seq::empty());
    } else {
        let i = n - 1;
        lemma_front_len(t, h, lo, hi, i as nat);
        lemma_met_all_push(kids, i);
        lemma_met_len(kids[i], (h - 1) as nat, kid_lo(lo, t.keys(), i), kid_hi(t.keys(), hi, i));
    }
}

/// A B+tree has as many entries as it maps keys.
pub proof fn entries_are_the_keys(t: Tree)
    requires
        btree(t),
    ensures
        tree_map(t).dom().finite(),
        entry_count(t) == tree_map(t).dom().len(),
{
    let h = t.height();
    let m = met(t);
    let keys = Seq::new(m.len(), |i: int| met_key(m[i]));
    lemma_met_sound(t, h, None, None);
    lemma_met_len(t, h, None, None);
    assert forall|i: int, j: int| 0 <= i < j < keys.len() implies keys[i] != keys[j] by {
        assert(before(met_key(m[i]), met_key(m[j])));
        before_irreflexive(keys[i]);
    }
    assert forall|k: Seq<u8>| keys.to_set().contains(k) <==> tree_map(t).dom().contains(k) by {
        if keys.contains(k) {
            let i = keys.index_of(k);
            assert(m[i] is Entry);
            assert(m.contains(m[i]));
            lemma_met_is_get(t, h, None, None, k, m[i]->Entry_1);
        }
        if t.get(k) is Some {
            let v = t.get(k)->Some_0;
            lemma_met_is_get(t, h, None, None, k, v);
            let i = m.index_of(Met::Entry(k, v));
            assert(m[i] == Met::Entry(k, v));
            assert(keys[i] == k);
        }
    }
    assert(keys.to_set() =~= tree_map(t).dom());
    keys.unique_seq_to_set();
}

/// The number of entries grows by one with a key that was not there, falls by one with
/// the removal of one that was, and is otherwise the same. `t2` is what putting `value`
/// at `key`, or removing it, makes of `t`.
pub proof fn edits_count_entries(t: Tree, t2: Tree, key: Seq<u8>, value: Option<Seq<u8>>)
    requires
        btree(t),
        btree(t2),
        forall|k: Seq<u8>| #[trigger]
            t2.get(k) == if k == key {
                value
            } else {
                t.get(k)
            },
    ensures
        entry_count(t2) == entry_count(t) + (if value is Some && t.get(key) is None {
            1int
        } else if value is None && t.get(key) is Some {
            -1int
        } else {
            0int
        }),
{
    entries_are_the_keys(t);
    entries_are_the_keys(t2);
    let (a, b) = (tree_map(t).dom(), tree_map(t2).dom());
    if value is Some {
        assert(b =~= a.insert(key));
    } else {
        assert(b =~= a.remove(key));
    }
}

} // verus!
