//! Carrying out a plan: the base tree and the index trees of a table changed together.

use vstd::prelude::*;
use super::error::{CatalogError, CatalogErrorV, Result};
use super::plan::{
    base_views, del_all, entry_views, inserts_of, put_all, removes_of, touches,
    untouched_indexes_keep_their_entries, Plan,
};
use super::write::ChangeV;
use crate::btree::grove::{
    after_ops, balanced, lemma_refused_kept, lemma_tallest, op_fails, pages_for, planted, run,
    spares, tallest, tree_map, trees_at, Op, OpV,
};
use crate::btree::grow::some_owns;
use crate::btree::insert::{has_btree, lemma_one_owns, lists, roomy};
use crate::btree::model::{apart, rooted, tree_at};
use crate::btree::store::{
    evolves, evolves_transitive, lemma_evolves_bounds, refused, taken, usable,
};
use crate::btree::tree::{ready, BTree, Edit};
use crate::bytes::to_vec;
use crate::common::io::IoBackend;
use crate::index::{Entry, EntryV};
use crate::pager::{PageId, Pager};
use crate::views::{opt, views};

verus! {

/// The trees of one table.
#[derive(Debug, PartialEq, Eq)]
pub struct Roots {
    /// The root of the base tree.
    pub data: PageId,
    /// The roots of the index trees, in schema order.
    pub indexes: Vec<PageId>,
}

impl Roots {
    /// All roots, the base tree's first.
    pub open spec fn all(self) -> Seq<PageId> {
        seq![self.data] + self.indexes@
    }
}

/// The trees of a table after a plan, and the pages they no longer need.
#[derive(Debug, PartialEq, Eq)]
pub struct Applied {
    /// The new roots.
    pub roots: Roots,
    /// The pages that no tree needs any more.
    pub freed: Vec<PageId>,
}

/// The base tree after operations on base rows.
pub open spec fn base_after(
    m: Map<Seq<u8>, Seq<u8>>,
    bs: Seq<(Seq<u8>, Option<Seq<u8>>)>,
) -> Map<Seq<u8>, Seq<u8>>
    decreases bs.len(),
{
    if bs.len() == 0 {
        m
    } else {
        let rest = base_after(m, bs.drop_last());
        match bs.last().1 {
            Some(b) => rest.insert(bs.last().0, b),
            None => rest.remove(bs.last().0),
        }
    }
}

/// How many tree operations a plan comes to.
pub open spec fn steps(plan: Plan) -> nat {
    plan.base@.len() + plan.removes@.len() + plan.inserts@.len()
}

/// Whether a plan is one for a table with `n` indexes.
pub open spec fn plan_fits(plan: Plan, n: nat) -> bool {
    &&& forall|j: int| 0 <= j < plan.removes@.len() ==> (#[trigger] plan.removes@[j]).0 < n
    &&& forall|j: int| 0 <= j < plan.inserts@.len() ==> (#[trigger] plan.inserts@[j]).0 < n
}

/// Whether a plan moves no entry of index `i`.
pub open spec fn unmoved(plan: Plan, i: nat) -> bool {
    &&& forall|j: int| 0 <= j < plan.removes@.len() ==> (#[trigger] plan.removes@[j]).0 != i
    &&& forall|j: int| 0 <= j < plan.inserts@.len() ==> (#[trigger] plan.inserts@[j]).0 != i
}

/// The changes of base rows.
pub open spec fn base_ops(bs: Seq<(Seq<u8>, Option<Seq<u8>>)>) -> Seq<OpV> {
    Seq::new(bs.len(), |i: int| OpV { tree: 0, key: bs[i].0, value: bs[i].1 })
}

/// The changes of entries that leave.
pub open spec fn remove_ops(es: Seq<(nat, EntryV)>) -> Seq<OpV> {
    Seq::new(es.len(), |i: int| OpV { tree: es[i].0 + 1, key: es[i].1.key, value: None })
}

/// The changes of entries that arrive.
pub open spec fn insert_ops(es: Seq<(nat, EntryV)>) -> Seq<OpV> {
    Seq::new(
        es.len(),
        |i: int| OpV { tree: es[i].0 + 1, key: es[i].1.key, value: Some(es[i].1.value) },
    )
}

/// All changes of a plan, in order.
pub open spec fn plan_ops(plan: Plan) -> Seq<OpV> {
    base_ops(base_views(plan.base@)) + remove_ops(entry_views(plan.removes@)) + insert_ops(
        entry_views(plan.inserts@),
    )
}

fn copied(b: &Option<Vec<u8>>) -> (r: Option<Vec<u8>>)
    ensures
        opt(r) == opt(*b),
{
    match b {
        Some(b) => Some(to_vec(b.as_slice())),
        None => None,
    }
}

pub(crate) fn base_list(base: &Vec<(Vec<u8>, Option<Vec<u8>>)>) -> (r: Vec<Op>)
    ensures
        views(r@) == base_ops(base_views(base@)),
        forall|j: int| 0 <= j < r@.len() ==> (#[trigger] r@[j]).tree == 0,
{
    let mut out: Vec<Op> = Vec::new();
    let mut i: usize = 0;
    while i < base.len()
        invariant
            i <= base@.len(),
            out@.len() == i,
            forall|j: int|
                0 <= j < i ==> #[trigger] out@[j]@ == base_ops(base_views(base@))[j],
            forall|j: int| 0 <= j < i ==> (#[trigger] out@[j]).tree == 0,
        decreases base@.len() - i,
    {
        out.push(
            Op { tree: 0, key: to_vec(base[i].0.as_slice()), value: copied(&base[i].1) },
        );
        i = i + 1;
    }
    assert(views(out@) =~= base_ops(base_views(base@)));
    out
}

/// The changes of entries that arrive or leave.
pub open spec fn entry_ops(es: Seq<(nat, EntryV)>, arrive: bool) -> Seq<OpV> {
    if arrive {
        insert_ops(es)
    } else {
        remove_ops(es)
    }
}

fn push_entries(out: &mut Vec<Op>, es: &Vec<(usize, Entry)>, arrive: bool, n: usize)
    requires
        forall|j: int| 0 <= j < es@.len() ==> (#[trigger] es@[j]).0 < n,
        forall|j: int| 0 <= j < old(out)@.len() ==> (#[trigger] old(out)@[j]).tree <= n,
    ensures
        views(final(out)@) == views(old(out)@) + entry_ops(entry_views(es@), arrive),
        forall|j: int| 0 <= j < final(out)@.len() ==> (#[trigger] final(out)@[j]).tree <= n,
{
    let ghost want = entry_ops(entry_views(es@), arrive);
    let ghost v0 = views(out@);
    let mut i: usize = 0;
    assert(v0 + want.take(0) =~= v0);
    while i < es.len()
        invariant
            i <= es@.len(),
            want == entry_ops(entry_views(es@), arrive),
            want.len() == es@.len(),
            views(out@) == v0 + want.take(i as int),
            forall|j: int| 0 <= j < es@.len() ==> (#[trigger] es@[j]).0 < n,
            forall|j: int| 0 <= j < out@.len() ==> (#[trigger] out@[j]).tree <= n,
        decreases es@.len() - i,
    {
        let ghost before = out@;
        let value = if arrive {
            Some(to_vec(es[i].1.value.as_slice()))
        } else {
            None
        };
        let op = Op { tree: es[i].0 + 1, key: to_vec(es[i].1.key.as_slice()), value };
        assert(op@ == want[i as int]) by {
            assert(entry_views(es@)[i as int] == (es@[i as int].0 as nat, es@[i as int].1@));
        }
        out.push(op);
        proof {
            crate::views::lemma_views_push(before, op);
            assert(want.take(i + 1) =~= want.take(i as int).push(want[i as int]));
            assert(views(out@) =~= v0 + want.take(i + 1));
        }
        i = i + 1;
    }
    assert(want.take(i as int) =~= want);
}

proof fn lemma_after_concat(m: Map<Seq<u8>, Seq<u8>>, a: Seq<OpV>, b: Seq<OpV>, i: nat)
    ensures
        after_ops(m, a + b, i) == after_ops(after_ops(m, a, i), b, i),
    decreases b.len(),
{
    if b.len() == 0 {
        assert(a + b =~= a);
    } else {
        assert((a + b).drop_last() =~= a + b.drop_last());
        assert((a + b).last() == b.last());
        lemma_after_concat(m, a, b.drop_last(), i);
    }
}

pub proof fn lemma_base_ops(m: Map<Seq<u8>, Seq<u8>>, bs: Seq<(Seq<u8>, Option<Seq<u8>>)>, i: nat)
    ensures
        after_ops(m, base_ops(bs), i) == if i == 0 {
            base_after(m, bs)
        } else {
            m
        },
    decreases bs.len(),
{
    if bs.len() > 0 {
        assert(base_ops(bs).drop_last() =~= base_ops(bs.drop_last()));
        lemma_base_ops(m, bs.drop_last(), i);
    }
}

proof fn lemma_remove_ops(m: Map<Seq<u8>, Seq<u8>>, es: Seq<(nat, EntryV)>, i: nat)
    ensures
        after_ops(m, remove_ops(es), 0) == m,
        after_ops(m, remove_ops(es), i + 1) == del_all(m, es, i),
    decreases es.len(),
{
    if es.len() > 0 {
        assert(remove_ops(es).drop_last() =~= remove_ops(es.drop_last()));
        lemma_remove_ops(m, es.drop_last(), i);
    }
}

proof fn lemma_insert_ops(m: Map<Seq<u8>, Seq<u8>>, es: Seq<(nat, EntryV)>, i: nat)
    ensures
        after_ops(m, insert_ops(es), 0) == m,
        after_ops(m, insert_ops(es), i + 1) == put_all(m, es, i),
    decreases es.len(),
{
    if es.len() > 0 {
        assert(insert_ops(es).drop_last() =~= insert_ops(es.drop_last()));
        lemma_insert_ops(m, es.drop_last(), i);
    }
}

proof fn lemma_plan_ops(m: Map<Seq<u8>, Seq<u8>>, plan: Plan, i: nat)
    ensures
        after_ops(m, plan_ops(plan), 0) == base_after(m, base_views(plan.base@)),
        after_ops(m, plan_ops(plan), i + 1) == put_all(
            del_all(m, entry_views(plan.removes@), i),
            entry_views(plan.inserts@),
            i,
        ),
{
    let b = base_ops(base_views(plan.base@));
    let r = remove_ops(entry_views(plan.removes@));
    let n = insert_ops(entry_views(plan.inserts@));
    lemma_after_concat(m, b + r, n, 0);
    lemma_after_concat(m, b, r, 0);
    lemma_after_concat(m, b + r, n, i + 1);
    lemma_after_concat(m, b, r, i + 1);
    lemma_base_ops(m, base_views(plan.base@), 0);
    lemma_base_ops(m, base_views(plan.base@), i + 1);
    let m0 = base_after(m, base_views(plan.base@));
    lemma_remove_ops(m0, entry_views(plan.removes@), i);
    lemma_remove_ops(m, entry_views(plan.removes@), i);
    lemma_insert_ops(m0, entry_views(plan.inserts@), i);
    lemma_insert_ops(del_all(m, entry_views(plan.removes@), i), entry_views(plan.inserts@), i);
}

/// The plan of staged rows moves no entry of an index that they do not touch.
pub proof fn untouched_indexes_are_unmoved(cs: Seq<ChangeV>, plan: Plan, i: nat)
    requires
        entry_views(plan.removes@) == removes_of(cs),
        entry_views(plan.inserts@) == inserts_of(cs),
        !touches(cs, i),
    ensures
        unmoved(plan, i),
{
    untouched_indexes_keep_their_entries(cs, i);
    assert forall|j: int| 0 <= j < plan.removes@.len() implies (#[trigger] plan.removes@[j]).0
        != i by {
        assert(entry_views(plan.removes@)[j] == removes_of(cs)[j]);
    }
    assert forall|j: int| 0 <= j < plan.inserts@.len() implies (#[trigger] plan.inserts@[j]).0
        != i by {
        assert(entry_views(plan.inserts@)[j] == inserts_of(cs)[j]);
    }
}

proof fn lemma_unmoved(plan: Plan, i: nat)
    requires
        unmoved(plan, i),
    ensures
        spares(plan_ops(plan), i + 1),
{
    let b = base_views(plan.base@);
    let r = entry_views(plan.removes@);
    let n = entry_views(plan.inserts@);
    assert forall|j: int| 0 <= j < plan_ops(plan).len() implies (#[trigger] plan_ops(plan)[j]).tree
        != i + 1 by {
        if j < b.len() {
        } else if j < b.len() + r.len() {
            assert(plan_ops(plan)[j] == remove_ops(r)[j - b.len()]);
            assert(plan.removes@[j - b.len()].0 != i);
        } else {
            assert(plan_ops(plan)[j] == insert_ops(n)[j - b.len() - r.len()]);
            assert(plan.inserts@[j - b.len() - r.len()].0 != i);
        }
    }
}

/// Carry out a plan on the trees of a table. The trees that were there stay readable
/// at their old roots, so a reader that pinned them is not disturbed. A removal can
/// fail where rebalancing would make a node too large for a page.
pub fn apply<B: IoBackend>(pager: &mut Pager<B>, roots: &Roots, plan: &Plan) -> (r: Result<Applied>)
    requires
        ready(*old(pager)),
        usable(old(pager).state()),
        planted(old(pager).state(), roots.all()),
        plan_fits(*plan, roots.indexes@.len()),
        steps(*plan) <= usize::MAX,
        roomy(
            old(pager).state(),
            pages_for(
                steps(*plan) as int,
                tallest(trees_at(old(pager).state(), roots.all())) as int,
            ),
        ),
    ensures
        final(pager).wf(),
        old(pager).fault_free() ==> final(pager).fault_free(),
        usable(final(pager).state()),
        evolves(
            old(pager).state(),
            final(pager).state(),
            pages_for(
                steps(*plan) as int,
                tallest(trees_at(old(pager).state(), roots.all())) as int,
            ),
        ),
        match r {
            Ok(a) => {
                &&& a.roots.indexes@.len() == roots.indexes@.len()
                &&& forall|i: int|
                    0 <= i < roots.indexes@.len() && unmoved(*plan, i as nat)
                        ==> #[trigger] a.roots.indexes@[i] == roots.indexes@[i]
                &&& planted(final(pager).state(), a.roots.all())
                &&& tallest(trees_at(final(pager).state(), a.roots.all())) <= tallest(
                    trees_at(old(pager).state(), roots.all()),
                ) + steps(*plan)
                &&& balanced(
                    old(pager).state(),
                    final(pager).state(),
                    trees_at(old(pager).state(), roots.all()),
                    a.freed@,
                    trees_at(final(pager).state(), a.roots.all()),
                )
                &&& tree_map(tree_at(final(pager).state(), a.roots.data.0)) == base_after(
                    tree_map(tree_at(old(pager).state(), roots.data.0)),
                    base_views(plan.base@),
                )
                &&& forall|i: int|
                    0 <= i < roots.indexes@.len() ==> tree_map(
                        tree_at(final(pager).state(), (#[trigger] a.roots.indexes@[i]).0),
                    ) == put_all(
                        del_all(
                            tree_map(tree_at(old(pager).state(), roots.indexes@[i].0)),
                            entry_views(plan.removes@),
                            i as nat,
                        ),
                        entry_views(plan.inserts@),
                        i as nat,
                    )
            },
            Err(e) => e@ matches CatalogErrorV::BTree(b) && exists|j: int|
                0 <= j < steps(*plan) && op_fails(
                    old(pager).state().free_list(),
                    old(pager).fault_free(),
                    #[trigger] plan_ops(*plan)[j],
                    b,
                ),
        },
{
    let ghost s = pager.state();
    let n: usize = roots.indexes.len();
    let mut all: Vec<PageId> = Vec::new();
    all.push(roots.data);
    let mut i: usize = 0;
    while i < n
        invariant
            i <= n,
            n == roots.indexes@.len(),
            all@ == seq![roots.data] + roots.indexes@.take(i as int),
        decreases n - i,
    {
        all.push(roots.indexes[i]);
        i = i + 1;
        assert(all@ =~= seq![roots.data] + roots.indexes@.take(i as int));
    }
    assert(roots.indexes@.take(i as int) =~= roots.indexes@);
    assert(all@ == roots.all());
    let mut ops = base_list(&plan.base);
    push_entries(&mut ops, &plan.removes, false, n);
    push_entries(&mut ops, &plan.inserts, true, n);
    assert(views(ops@) == plan_ops(*plan));
    assert(ops@.len() == views(ops@).len());
    let g = match run(pager, &all, &ops) {
        Ok(g) => g,
        Err(e) => {
            proof {
                let j = choose|j: int|
                    0 <= j < ops@.len() && op_fails(
                        s.free_list(),
                        old(pager).fault_free(),
                        #[trigger] ops@[j]@,
                        e,
                    );
                assert(plan_ops(*plan)[j] == ops@[j]@);
            }
            return Err(CatalogError::BTree(e));
        },
    };
    let ghost s2 = pager.state();
    let data = g.roots[0];
    let mut indexes: Vec<PageId> = Vec::new();
    let mut i: usize = 0;
    while i < n
        invariant
            i <= n,
            g.roots@.len() == n + 1,
            indexes@ == g.roots@.subrange(1, i + 1),
        decreases n - i,
    {
        indexes.push(g.roots[i + 1]);
        i = i + 1;
        assert(indexes@ =~= g.roots@.subrange(1, i + 1));
    }
    let out = Applied { roots: Roots { data, indexes }, freed: g.freed };
    proof {
        assert(out.roots.all() =~= g.roots@);
        lemma_plan_ops(tree_map(tree_at(s, roots.data.0)), *plan, 0);
        assert(all@[0] == roots.data && g.roots@[0] == data);
        assert forall|i: int| 0 <= i < roots.indexes@.len() implies tree_map(
            tree_at(s2, (#[trigger] out.roots.indexes@[i]).0),
        ) == put_all(
            del_all(
                tree_map(tree_at(s, roots.indexes@[i].0)),
                entry_views(plan.removes@),
                i as nat,
            ),
            entry_views(plan.inserts@),
            i as nat,
        ) by {
            lemma_plan_ops(tree_map(tree_at(s, roots.indexes@[i].0)), *plan, i as nat);
            assert(all@[i + 1] == roots.indexes@[i]);
            assert(g.roots@[i + 1] == out.roots.indexes@[i]);
        }
        assert forall|i: int|
            0 <= i < roots.indexes@.len() && unmoved(*plan, i as nat) implies #[trigger] out.roots.indexes@[i]
            == roots.indexes@[i] by {
            lemma_unmoved(*plan, i as nat);
            assert(all@[i + 1] == roots.indexes@[i]);
            assert(g.roots@[i + 1] == out.roots.indexes@[i]);
        }
    }
    Ok(out)
}

// --- building an index -----------------------------------------------------------

/// What a tree holds that was filled with these entries, one after the other.
pub open spec fn filled(es: Seq<EntryV>) -> Map<Seq<u8>, Seq<u8>>
    decreases es.len(),
{
    if es.len() == 0 {
        Map::empty()
    } else {
        filled(es.drop_last()).insert(es.last().key, es.last().value)
    }
}

/// The changes that fill one tree with entries.
pub open spec fn fill_ops(es: Seq<EntryV>) -> Seq<OpV> {
    Seq::new(es.len(), |i: int| OpV { tree: 0, key: es[i].key, value: Some(es[i].value) })
}

proof fn lemma_fill_ops(es: Seq<EntryV>)
    ensures
        after_ops(Map::empty(), fill_ops(es), 0) == filled(es),
    decreases es.len(),
{
    if es.len() > 0 {
        assert(fill_ops(es).drop_last() =~= fill_ops(es.drop_last()));
        lemma_fill_ops(es.drop_last());
    }
}

fn fill_list(entries: &Vec<Entry>) -> (r: Vec<Op>)
    ensures
        views(r@) == fill_ops(views(entries@)),
        forall|j: int| 0 <= j < r@.len() ==> (#[trigger] r@[j]).tree == 0,
{
    let mut out: Vec<Op> = Vec::new();
    let mut i: usize = 0;
    while i < entries.len()
        invariant
            i <= entries@.len(),
            out@.len() == i,
            forall|j: int|
                0 <= j < i ==> #[trigger] out@[j]@ == fill_ops(views(entries@))[j],
            forall|j: int| 0 <= j < i ==> (#[trigger] out@[j]).tree == 0,
        decreases entries@.len() - i,
    {
        let e = &entries[i];
        assert(views(entries@)[i as int] == e@);
        out.push(
            Op {
                tree: 0,
                key: to_vec(e.key.as_slice()),
                value: Some(to_vec(e.value.as_slice())),
            },
        );
        i = i + 1;
    }
    assert(views(out@) =~= fill_ops(views(entries@)));
    out
}

/// Build an index tree from its entries, returning its root and the pages that were
/// needed only on the way.
pub fn build_index<B: IoBackend>(pager: &mut Pager<B>, entries: &Vec<Entry>) -> (r: Result<Edit>)
    requires
        ready(*old(pager)),
        usable(old(pager).state()),
        roomy(old(pager).state(), 1 + pages_for(entries@.len() as int, 1)),
    ensures
        final(pager).wf(),
        old(pager).fault_free() ==> final(pager).fault_free(),
        usable(final(pager).state()),
        evolves(
            old(pager).state(),
            final(pager).state(),
            1 + pages_for(entries@.len() as int, 1),
        ),
        match r {
            Ok(edit) => {
                &&& has_btree(final(pager).state(), edit.new_root.0)
                &&& tree_map(tree_at(final(pager).state(), edit.new_root.0)) == filled(
                    views(entries@),
                )
                &&& tree_at(final(pager).state(), edit.new_root.0).height() <= 1 + entries@.len()
                &&& balanced(
                    old(pager).state(),
                    final(pager).state(),
                    Seq::empty(),
                    edit.freed@,
                    seq![tree_at(final(pager).state(), edit.new_root.0)],
                )
            },
            Err(e) => e@ matches CatalogErrorV::BTree(b) && (refused(
                old(pager).state().free_list(),
                old(pager).fault_free(),
                b,
            ) || exists|j: int|
                0 <= j < entries@.len() && op_fails(
                    old(pager).state().free_list(),
                    old(pager).fault_free(),
                    #[trigger] fill_ops(views(entries@))[j],
                    b,
                )),
        },
{
    let ghost s = pager.state();
    let ghost ff = pager.fault_free();
    let ghost n = entries@.len() as int;
    let created = {
        let mut tree = BTree::new(&mut *pager);
        tree.create()
    };
    let ghost s1 = pager.state();
    let ghost ff1 = pager.fault_free();
    proof {
        lemma_evolves_bounds(s, s1, 1);
        assert(pages_for(n, 1) >= 0) by (nonlinear_arith)
            requires
                n >= 0,
                pages_for(n, 1) == n * (4 * (1 + n) + 1),
        ;
    }
    let root = match created {
        Ok(root) => root,
        Err(e) => {
            proof {
                assert(evolves(s, s1, 1 + pages_for(n, 1))) by {
                    reveal(evolves);
                }
            }
            return Err(CatalogError::BTree(e));
        },
    };
    let mut roots: Vec<PageId> = Vec::new();
    roots.push(root);
    let ops = fill_list(entries);
    let ghost olds = trees_at(s1, roots@);
    proof {
        assert(ops@.len() == views(ops@).len());
        assert(olds =~= seq![tree_at(s1, root.0)]);
        assert(apart(olds)) by {
            reveal(apart);
        }
        assert(tallest(olds) == 1) by {
            reveal_with_fuel(tallest, 2);
            assert(olds.drop_last() =~= Seq::empty());
        }
    }
    let done = run(pager, &roots, &ops);
    let ghost s2 = pager.state();
    proof {
        evolves_transitive(s, s1, s2, 1, pages_for(n, 1));
    }
    let g = match done {
        Ok(g) => g,
        Err(e) => {
            proof {
                let j = choose|j: int|
                    0 <= j < ops@.len() && op_fails(s1.free_list(), ff1, #[trigger] ops@[j]@, e);
                assert(fill_ops(views(entries@))[j] == ops@[j]@);
                if refused(s1.free_list(), ff1, e) {
                    lemma_refused_kept(s, s1, 1, ff, ff1, e);
                }
            }
            return Err(CatalogError::BTree(e));
        },
    };
    let new_root = g.roots[0];
    proof {
        let t = tree_at(s1, root.0);
        let t2 = tree_at(s2, new_root.0);
        let news = trees_at(s2, g.roots@);
        assert(news =~= seq![t2]);
        assert(roots@[0] == root && g.roots@[0] == new_root);
        assert(has_btree(s2, g.roots@[0].0));
        assert(tree_map(t) =~= Map::empty());
        lemma_fill_ops(views(entries@));
        assert(t.id() == root.0) by {
            assert(rooted(s1, root.0, t));
        }
        lemma_tallest(news, 0);
        assert forall|p: u64|
            #![trigger lists(g.freed@, p)]
            #![trigger some_owns(news, p)]
            lists(g.freed@, p) || some_owns(news, p) <==> some_owns(Seq::empty(), p) || taken(
                s,
                s2,
                p,
            ) by {
            reveal(some_owns);
            lemma_one_owns(t, p);
            assert(lists(g.freed@, p) || some_owns(news, p) <==> some_owns(olds, p) || taken(
                s1,
                s2,
                p,
            ));
            assert(taken(s, s2, p) <==> taken(s, s1, p) || taken(s1, s2, p));
            assert(t.owns(p) <==> p == root.0);
        }
    }
    Ok(Edit { new_root, freed: g.freed })
}

} // verus!
