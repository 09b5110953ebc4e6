//! The catalog tree and the trees it names: what each kind of statement does to them.
//!
//! The catalog tree maps the encoded key of an entry to its bytes; a root entry names
//! the tree of a table or of an index. Keys come in encoded.

use vstd::prelude::*;
use super::apply::{
    apply, base_after, base_list, base_ops, lemma_base_ops, plan_fits, plan_ops, steps, unmoved,
    Roots,
};
use super::error::{CatalogError, CatalogErrorV, Result};
use super::plan::{base_views, del_all, entry_views, put_all, Plan};
use super::store::{encode_root, encode_seq};
use crate::btree::grove::{
    append, balanced, lemma_planted, lemma_refused_kept, lemma_tallest, lemma_tallest_most,
    op_fails, pages_for, planted, run, tallest, tree_map, trees_at, Grown, OpV,
};
use crate::btree::insert::roomy;
use crate::btree::model::tree_at;
use crate::btree::plant::{lemma_balance_beside, lemma_balance_joined, lemma_planted_part};
use crate::btree::store::{evolves, evolves_transitive, lemma_evolves_bounds, refused, usable};
use crate::btree::tree::ready;
use crate::btree::BTreeError;
use crate::bytes::{le_bytes, to_vec};
use crate::common::io::IoBackend;
use crate::pager::state::PagerState;
use crate::pager::{PageId, Pager};
use crate::views::views;

verus! {

/// The trees of a table, beside the catalog tree.
#[derive(Debug, PartialEq, Eq)]
pub struct Site {
    /// The root of the catalog tree.
    pub catalog: PageId,
    /// The roots of the table's trees.
    pub roots: Roots,
}

impl Site {
    /// All roots, the catalog tree's first.
    pub open spec fn all(self) -> Seq<PageId> {
        seq![self.catalog] + self.roots.all()
    }

    pub(crate) fn list(&self) -> (r: Vec<PageId>)
        ensures
            r@ == self.all(),
    {
        let mut out: Vec<PageId> = Vec::new();
        out.push(self.catalog);
        out.push(self.roots.data);
        append(&mut out, &self.roots.indexes);
        assert(out@ =~= self.all());
        out
    }
}

/// Trees after a statement, and the pages they no longer need.
#[derive(Debug, PartialEq, Eq)]
pub struct Settled {
    /// The new roots.
    pub site: Site,
    /// The pages that no tree needs any more.
    pub freed: Vec<PageId>,
}

/// The encoded keys of a table's catalog entries.
#[derive(Debug, PartialEq, Eq)]
pub struct TableKeys {
    /// That of its definition.
    pub table: Vec<u8>,
    /// That of its data root.
    pub root: Vec<u8>,
    /// That of its sequence.
    pub seq: Vec<u8>,
    /// Those of its index roots, in schema order.
    pub indexes: Vec<Vec<u8>>,
}

/// A catalog entry to store, or to delete where there are no bytes.
pub type EntryEdit = (Vec<u8>, Option<Vec<u8>>);

/// What root entries for indexes say, for those indexes that are to be recorded.
pub open spec fn index_entries(
    keys: Seq<Seq<u8>>,
    roots: Seq<PageId>,
    record: Seq<bool>,
) -> Seq<(Seq<u8>, Option<Seq<u8>>)>
    decreases keys.len(),
{
    if keys.len() == 0 {
        Seq::empty()
    } else {
        let rest = index_entries(keys.drop_last(), roots, record);
        let i = keys.len() - 1;
        if record[i] {
            rest.push((keys[i], Some(le_bytes(roots[i].0 as nat, 8))))
        } else {
            rest
        }
    }
}

/// The catalog entries that a write to a table's rows stores: the new roots, and the
/// sequence where it moved.
pub open spec fn row_entries(
    keys: TableKeys,
    data: PageId,
    indexes: Seq<PageId>,
    record: Seq<bool>,
    seq: Option<i64>,
) -> Seq<(Seq<u8>, Option<Seq<u8>>)> {
    let roots = seq![(keys.root@, Some(le_bytes(data.0 as nat, 8)))] + index_entries(
        views(keys.indexes@),
        indexes,
        record,
    );
    match seq {
        Some(n) => roots.push((keys.seq@, Some(le_bytes((n as u64) as nat, 8)))),
        None => roots,
    }
}

pub(crate) fn push_index_entries(
    out: &mut Vec<EntryEdit>,
    keys: &Vec<Vec<u8>>,
    roots: &Vec<PageId>,
    record: &Vec<bool>,
)
    requires
        keys@.len() == roots@.len(),
        keys@.len() == record@.len(),
    ensures
        base_views(final(out)@) == base_views(old(out)@) + index_entries(
            views(keys@),
            roots@,
            record@,
        ),
{
    let ghost vs = views(keys@);
    let ghost b0 = base_views(out@);
    let mut i: usize = 0;
    assert(vs.take(0) =~= Seq::empty());
    assert(b0 + Seq::empty() =~= b0);
    while i < keys.len()
        invariant
            i <= keys@.len(),
            keys@.len() == roots@.len(),
            keys@.len() == record@.len(),
            vs == views(keys@),
            base_views(out@) == b0 + index_entries(vs.take(i as int), roots@, record@),
        decreases keys@.len() - i,
    {
        let ghost before = base_views(out@);
        proof {
            assert(vs.take(i + 1).drop_last() =~= vs.take(i as int));
            assert(vs.take(i + 1)[i as int] == keys@[i as int]@);
        }
        if record[i] {
            out.push((to_vec(keys[i].as_slice()), Some(encode_root(roots[i]))));
            assert(base_views(out@) =~= before.push(
                (vs[i as int], Some(le_bytes(roots@[i as int].0 as nat, 8))),
            ));
        }
        i = i + 1;
        assert(base_views(out@) =~= b0 + index_entries(vs.take(i as int), roots@, record@));
    }
    assert(vs.take(i as int) =~= vs);
}

fn row_list(
    keys: &TableKeys,
    data: PageId,
    indexes: &Vec<PageId>,
    record: &Vec<bool>,
    seq: Option<i64>,
) -> (r: Vec<EntryEdit>)
    requires
        keys.indexes@.len() == indexes@.len(),
        keys.indexes@.len() == record@.len(),
    ensures
        base_views(r@) == row_entries(*keys, data, indexes@, record@, seq),
{
    let mut out: Vec<EntryEdit> = Vec::new();
    out.push((to_vec(keys.root.as_slice()), Some(encode_root(data))));
    assert(base_views(out@) =~= seq![(keys.root@, Some(le_bytes(data.0 as nat, 8)))]);
    push_index_entries(&mut out, &keys.indexes, indexes, record);
    if let Some(n) = seq {
        let ghost before = base_views(out@);
        out.push((to_vec(keys.seq.as_slice()), Some(encode_seq(n))));
        assert(base_views(out@) =~= before.push(
            (keys.seq@, Some(le_bytes((n as u64) as nat, 8))),
        ));
    }
    out
}

pub proof fn lemma_index_entries_len(keys: Seq<Seq<u8>>, roots: Seq<PageId>, record: Seq<bool>)
    ensures
        index_entries(keys, roots, record).len() <= keys.len(),
    decreases keys.len(),
{
    if keys.len() > 0 {
        lemma_index_entries_len(keys.drop_last(), roots, record);
    }
}

proof fn lemma_row_entries_len(
    keys: TableKeys,
    data: PageId,
    indexes: Seq<PageId>,
    record: Seq<bool>,
    seq: Option<i64>,
)
    ensures
        row_entries(keys, data, indexes, record, seq).len() <= most_entries(keys),
{
    lemma_index_entries_len(views(keys.indexes@), indexes, record);
}

/// Fewer changes to lower trees take fewer pages.
pub proof fn lemma_pages(n: int, h: int, n2: int, h2: int)
    requires
        0 <= n <= n2,
        0 <= h <= h2,
    ensures
        0 <= pages_for(n, h) <= pages_for(n2, h2),
{
    assert(0 <= n * (4 * (h + n) + 1) <= n2 * (4 * (h2 + n2) + 1)) by (nonlinear_arith)
        requires
            0 <= n <= n2,
            0 <= h <= h2,
    ;
}

pub proof fn lemma_evolves_more(s: PagerState, s2: PagerState, n: int, m: int)
    requires
        evolves(s, s2, n),
        n <= m,
    ensures
        evolves(s, s2, m),
{
    reveal(evolves);
}

/// Some of trees are no taller than all of them.
pub proof fn lemma_tallest_part(s: PagerState, some: Seq<PageId>, rest: Seq<PageId>)
    ensures
        tallest(trees_at(s, some)) <= tallest(trees_at(s, some + rest)),
        tallest(trees_at(s, rest)) <= tallest(trees_at(s, some + rest)),
{
    let all = trees_at(s, some + rest);
    let m = some.len() as int;
    assert forall|i: int| 0 <= i < some.len() implies (#[trigger] trees_at(s, some)[i]).height()
        <= tallest(all) by {
        assert(trees_at(s, some)[i] == all[i]);
        lemma_tallest(all, i);
    }
    assert forall|i: int| 0 <= i < rest.len() implies (#[trigger] trees_at(s, rest)[i]).height()
        <= tallest(all) by {
        assert(trees_at(s, rest)[i] == all[m + i]);
        lemma_tallest(all, m + i);
    }
    lemma_tallest_most(trees_at(s, some), tallest(all));
    lemma_tallest_most(trees_at(s, rest), tallest(all));
}

/// Trees together are no taller than each part of them.
pub proof fn lemma_tallest_joined(s: PagerState, some: Seq<PageId>, rest: Seq<PageId>)
    ensures
        tallest(trees_at(s, some + rest)) <= tallest(trees_at(s, some)) || tallest(
            trees_at(s, some + rest),
        ) <= tallest(trees_at(s, rest)),
{
    let all = trees_at(s, some + rest);
    let a = tallest(trees_at(s, some));
    let b = tallest(trees_at(s, rest));
    let m = some.len() as int;
    let top = if a >= b {
        a
    } else {
        b
    };
    assert forall|i: int| 0 <= i < all.len() implies (#[trigger] all[i]).height() <= top by {
        if i < m {
            assert(trees_at(s, some)[i] == all[i]);
            lemma_tallest(trees_at(s, some), i);
        } else {
            assert(trees_at(s, rest)[i - m] == all[i]);
            lemma_tallest(trees_at(s, rest), i - m);
        }
    }
    lemma_tallest_most(all, top);
}

/// A change that fails later on could have failed at the start.
pub proof fn lemma_fails_kept(
    s: PagerState,
    s1: PagerState,
    n: int,
    ff: bool,
    ff1: bool,
    op: OpV,
    e: BTreeError,
)
    requires
        evolves(s, s1, n),
        ff ==> ff1,
        op_fails(s1.free_list(), ff1, op, e),
    ensures
        op_fails(s.free_list(), ff, op, e),
{
    if refused(s1.free_list(), ff1, e) {
        lemma_refused_kept(s, s1, n, ff, ff1, e);
    }
}

/// Change entries of the first of several trees, the catalog tree.
pub(crate) fn edit_entries<B: IoBackend>(
    pager: &mut Pager<B>,
    all: &Vec<PageId>,
    entries: &Vec<EntryEdit>,
) -> (r: core::result::Result<Grown, BTreeError>)
    requires
        ready(*old(pager)),
        usable(old(pager).state()),
        all@.len() > 0,
        planted(old(pager).state(), all@),
        roomy(
            old(pager).state(),
            pages_for(
                entries@.len() as int,
                tallest(trees_at(old(pager).state(), all@)) as int,
            ),
        ),
    ensures
        final(pager).wf(),
        old(pager).fault_free() ==> final(pager).fault_free(),
        usable(final(pager).state()),
        evolves(
            old(pager).state(),
            final(pager).state(),
            pages_for(
                entries@.len() as int,
                tallest(trees_at(old(pager).state(), all@)) as int,
            ),
        ),
        match r {
            Ok(g) => {
                &&& g.roots@.len() == all@.len()
                &&& forall|i: int| 1 <= i < all@.len() ==> #[trigger] g.roots@[i] == all@[i]
                &&& planted(final(pager).state(), g.roots@)
                &&& balanced(
                    old(pager).state(),
                    final(pager).state(),
                    trees_at(old(pager).state(), all@),
                    g.freed@,
                    trees_at(final(pager).state(), g.roots@),
                )
                &&& tree_map(tree_at(final(pager).state(), g.roots@[0].0)) == base_after(
                    tree_map(tree_at(old(pager).state(), all@[0].0)),
                    base_views(entries@),
                )
                &&& forall|i: int|
                    1 <= i < all@.len() ==> tree_map(
                        tree_at(final(pager).state(), (#[trigger] g.roots@[i]).0),
                    ) == tree_map(tree_at(old(pager).state(), all@[i].0))
            },
            Err(e) => exists|j: int|
                0 <= j < entries@.len() && op_fails(
                    old(pager).state().free_list(),
                    old(pager).fault_free(),
                    #[trigger] base_ops(base_views(entries@))[j],
                    e,
                ),
        },
{
    let ghost s = pager.state();
    let ops = base_list(entries);
    let ghost vs = base_ops(base_views(entries@));
    assert(ops@.len() == views(ops@).len());
    let done = run(pager, all, &ops);
    proof {
        if done is Ok {
            let g = done->Ok_0;
            assert forall|i: int| 1 <= i < all@.len() implies #[trigger] g.roots@[i] == all@[i]
                && tree_map(tree_at(pager.state(), g.roots@[i].0)) == tree_map(
                tree_at(s, all@[i].0),
            ) by {
                lemma_base_ops(tree_map(tree_at(s, all@[i].0)), base_views(entries@), i as nat);
            }
            lemma_base_ops(tree_map(tree_at(s, all@[0].0)), base_views(entries@), 0);
            assert(g.roots@[0] == g.roots[0]);
        } else {
            let e = done->Err_0;
            let j = choose|j: int|
                0 <= j < ops@.len() && op_fails(
                    s.free_list(),
                    old(pager).fault_free(),
                    #[trigger] ops@[j]@,
                    e,
                );
            assert(vs[j] == ops@[j]@);
        }
    }
    done
}

/// The trees of a table among all roots.
pub(crate) fn split(roots: &Vec<PageId>) -> (r: Site)
    requires
        roots@.len() >= 2,
    ensures
        r.all() == roots@,
{
    let mut indexes: Vec<PageId> = Vec::new();
    let mut i: usize = 2;
    while i < roots.len()
        invariant
            2 <= i <= roots@.len(),
            indexes@ == roots@.subrange(2, i as int),
        decreases roots@.len() - i,
    {
        indexes.push(roots[i]);
        i = i + 1;
        assert(indexes@ =~= roots@.subrange(2, i as int));
    }
    let site = Site { catalog: roots[0], roots: Roots { data: roots[1], indexes } };
    assert(site.all() =~= roots@);
    site
}

// --- rows ------------------------------------------------------------------------

/// How many pages a write to a table's rows may take.
pub open spec fn row_pages(plan: Plan, entries: nat, height: nat) -> int {
    pages_for(steps(plan) as int, height as int) + pages_for(
        entries as int,
        (height + steps(plan)) as int,
    )
}

/// How many entries a write to a table's rows may store.
pub open spec fn most_entries(keys: TableKeys) -> nat {
    keys.indexes@.len() + 2
}

/// Carry out a plan on a table's trees, and record their new roots in the catalog
/// tree: that of the base tree, and those of the indexes that are to be recorded. A
/// sequence value that moved is stored too.
#[verifier::rlimit(30)]
pub fn write_rows<B: IoBackend>(
    pager: &mut Pager<B>,
    site: &Site,
    plan: &Plan,
    keys: &TableKeys,
    record: &Vec<bool>,
    seq: Option<i64>,
) -> (r: Result<Settled>)
    requires
        ready(*old(pager)),
        usable(old(pager).state()),
        planted(old(pager).state(), site.all()),
        plan_fits(*plan, site.roots.indexes@.len()),
        steps(*plan) <= usize::MAX,
        keys.indexes@.len() == site.roots.indexes@.len(),
        record@.len() == site.roots.indexes@.len(),
        roomy(
            old(pager).state(),
            row_pages(
                *plan,
                most_entries(*keys),
                tallest(trees_at(old(pager).state(), site.all())),
            ),
        ),
    ensures
        final(pager).wf(),
        old(pager).fault_free() ==> final(pager).fault_free(),
        usable(final(pager).state()),
        evolves(
            old(pager).state(),
            final(pager).state(),
            row_pages(
                *plan,
                most_entries(*keys),
                tallest(trees_at(old(pager).state(), site.all())),
            ),
        ),
        match r {
            Ok(done) => {
                let s = old(pager).state();
                let s2 = final(pager).state();
                let new = done.site.roots;
                &&& new.indexes@.len() == site.roots.indexes@.len()
                &&& planted(s2, done.site.all())
                &&& balanced(
                    s,
                    s2,
                    trees_at(s, site.all()),
                    done.freed@,
                    trees_at(s2, done.site.all()),
                )
                &&& tree_map(tree_at(s2, new.data.0)) == base_after(
                    tree_map(tree_at(s, site.roots.data.0)),
                    base_views(plan.base@),
                )
                &&& forall|i: int|
                    0 <= i < new.indexes@.len() ==> tree_map(
                        tree_at(s2, (#[trigger] new.indexes@[i]).0),
                    ) == put_all(
                        del_all(
                            tree_map(tree_at(s, site.roots.indexes@[i].0)),
                            entry_views(plan.removes@),
                            i as nat,
                        ),
                        entry_views(plan.inserts@),
                        i as nat,
                    )
                &&& forall|i: int|
                    0 <= i < new.indexes@.len() && unmoved(*plan, i as nat)
                        ==> #[trigger] new.indexes@[i] == site.roots.indexes@[i]
                &&& tree_map(tree_at(s2, done.site.catalog.0)) == base_after(
                    tree_map(tree_at(s, site.catalog.0)),
                    row_entries(*keys, new.data, new.indexes@, record@, seq),
                )
            },
            Err(e) => e@ matches CatalogErrorV::BTree(b) && ((exists|j: int|
                0 <= j < steps(*plan) && op_fails(
                    old(pager).state().free_list(),
                    old(pager).fault_free(),
                    #[trigger] plan_ops(*plan)[j],
                    b,
                )) || exists|data: PageId, indexes: Seq<PageId>, j: int|
                indexes.len() == keys.indexes@.len() && 0 <= j < row_entries(
                    *keys,
                    data,
                    indexes,
                    record@,
                    seq,
                ).len() && op_fails(
                    old(pager).state().free_list(),
                    old(pager).fault_free(),
                    #[trigger] base_ops(row_entries(*keys, data, indexes, record@, seq))[j],
                    b,
                )),
        },
{
    let ghost s = pager.state();
    let ghost ff = pager.fault_free();
    let ghost h = tallest(trees_at(s, site.all()));
    let ghost here = seq![site.catalog];
    let ghost n1 = pages_for(steps(*plan) as int, tallest(trees_at(s, site.roots.all())) as int);
    let ghost most = row_pages(*plan, most_entries(*keys), h);
    proof {
        lemma_planted_part(s, here, site.roots.all());
        lemma_tallest_part(s, here, site.roots.all());
        lemma_pages(
            steps(*plan) as int,
            tallest(trees_at(s, site.roots.all())) as int,
            steps(*plan) as int,
            h as int,
        );
        lemma_pages(0, 0, most_entries(*keys) as int, (h + steps(*plan)) as int);
    }
    let a = match apply(pager, &site.roots, plan) {
        Ok(a) => a,
        Err(e) => {
            proof {
                lemma_evolves_more(s, pager.state(), n1, most);
            }
            return Err(e);
        },
    };
    let ghost s1 = pager.state();
    let ghost ff1 = pager.fault_free();
    let mid = Site { catalog: site.catalog, roots: a.roots };
    proof {
        lemma_balance_beside(s, s1, n1, here, site.roots.all(), a.roots.all(), a.freed@);
        lemma_evolves_bounds(s, s1, n1);
    }
    let entries = row_list(keys, mid.roots.data, &mid.roots.indexes, record, seq);
    let all = mid.list();
    let ghost want = row_entries(*keys, mid.roots.data, mid.roots.indexes@, record@, seq);
    let ghost h1 = tallest(trees_at(s1, mid.all()));
    let ghost n2 = pages_for(entries@.len() as int, h1 as int);
    proof {
        assert(base_views(entries@).len() == entries@.len());
        lemma_row_entries_len(*keys, mid.roots.data, mid.roots.indexes@, record@, seq);
        lemma_tallest_joined(s1, here, a.roots.all());
        assert(trees_at(s1, here) == trees_at(s, here));
        lemma_pages(
            entries@.len() as int,
            h1 as int,
            most_entries(*keys) as int,
            (h + steps(*plan)) as int,
        );
    }
    let done = edit_entries(pager, &all, &entries);
    let ghost s2 = pager.state();
    proof {
        evolves_transitive(s, s1, s2, n1, n2);
        lemma_evolves_more(s, s2, n1 + n2, most);
    }
    let g = match done {
        Ok(g) => g,
        Err(e) => {
            proof {
                let j = choose|j: int|
                    0 <= j < entries@.len() && op_fails(
                        s1.free_list(),
                        ff1,
                        #[trigger] base_ops(base_views(entries@))[j],
                        e,
                    );
                lemma_fails_kept(s, s1, n1, ff, ff1, base_ops(want)[j], e);
            }
            return Err(CatalogError::BTree(e));
        },
    };
    let mut freed = a.freed;
    append(&mut freed, &g.freed);
    let out = split(&g.roots);
    proof {
        lemma_planted(s, site.all());
        lemma_balance_joined(
            s,
            s1,
            s2,
            n1,
            n2,
            trees_at(s, site.all()),
            a.freed@,
            trees_at(s1, mid.all()),
            g.freed@,
            trees_at(s2, out.all()),
        );
        assert(mid.all()[0] == mid.catalog && out.all()[0] == out.catalog);
        assert(mid.all()[1] == mid.roots.data && out.all()[1] == out.roots.data);
        assert(tree_at(s1, site.catalog.0) == tree_at(s, site.catalog.0)) by {
            assert(trees_at(s1, here)[0] == trees_at(s, here)[0]);
        }
        assert(out.roots.indexes@ =~= mid.roots.indexes@) by {
            assert forall|i: int| 0 <= i < mid.roots.indexes@.len() implies out.roots.indexes@[i]
                == mid.roots.indexes@[i] by {
                assert(out.all()[i + 2] == out.roots.indexes@[i]);
                assert(mid.all()[i + 2] == mid.roots.indexes@[i]);
                assert(g.roots@[i + 2] == all@[i + 2]);
            }
        }
        assert(g.roots@[1] == all@[1]);
        assert forall|i: int| 0 <= i < out.roots.indexes@.len() implies tree_map(
            tree_at(s2, (#[trigger] out.roots.indexes@[i]).0),
        ) == tree_map(tree_at(s1, mid.roots.indexes@[i].0)) by {
            assert(out.all()[i + 2] == out.roots.indexes@[i]);
            assert(mid.all()[i + 2] == mid.roots.indexes@[i]);
            assert(g.roots@[i + 2] == all@[i + 2]);
        }
    }
    Ok(Settled { site: out, freed })
}

} // verus!
