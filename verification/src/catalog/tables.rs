//! Table trees created, extended and dropped, with their catalog entries.

use vstd::prelude::*;
use super::apply::{base_after, base_ops, build_index, fill_ops, filled};
use super::error::{CatalogError, CatalogErrorV, Result};
use super::plan::base_views;
use super::store::{encode_root, encode_seq};
use super::trees::{
    edit_entries, index_entries, lemma_evolves_more, lemma_fails_kept, lemma_index_entries_len,
    lemma_pages, lemma_tallest_joined, push_index_entries, split, EntryEdit, Settled, Site,
    TableKeys,
};
use crate::btree::grove::{
    append, balanced, copy_roots, lemma_planted, lemma_refused_kept, lemma_tallest,
    lemma_tallest_most, op_fails, pages_for, planted, tallest, tree_map, trees_at, Grown,
};
use crate::btree::grow::{forest, lemma_owner, lemma_some_owns, some_owns};
use crate::btree::insert::{has_btree, lists, roomy};
use crate::btree::model::{apart, lemma_apart, tree_at, Tree};
use crate::btree::plant::{
    fell, lemma_balance_beside, lemma_balance_joined, lemma_balance_still, lemma_roots_kept, sow,
};
use crate::btree::store::{
    evolves, evolves_reflexive, evolves_transitive, lemma_evolves_bounds, refused, taken, usable,
};
use crate::btree::tree::{ready, Edit};
use crate::btree::BTreeError;
use crate::bytes::{le_bytes, to_vec};
use crate::common::io::IoBackend;
use crate::index::Entry;
use crate::pager::state::{PagerState, Walked};
use crate::pager::{PageId, Pager};
use crate::views::views;

verus! {

/// The catalog entries of a new table: its definition, its data root, its sequence
/// where it has one, and its index roots.
pub open spec fn table_entries(
    keys: TableKeys,
    bytes: Seq<u8>,
    sequence: bool,
    data: PageId,
    indexes: Seq<PageId>,
) -> Seq<(Seq<u8>, Option<Seq<u8>>)> {
    let first = seq![
        (keys.table@, Some(bytes)),
        (keys.root@, Some(le_bytes(data.0 as nat, 8))),
    ];
    let head = if sequence {
        first.push((keys.seq@, Some(le_bytes(1, 8))))
    } else {
        first
    };
    head + index_entries(
        views(keys.indexes@),
        indexes,
        Seq::new(keys.indexes@.len(), |i: int| true),
    )
}

fn all_true(n: usize) -> (r: Vec<bool>)
    ensures
        r@ == Seq::new(n as nat, |i: int| true),
{
    let mut out: Vec<bool> = Vec::new();
    let mut i: usize = 0;
    while i < n
        invariant
            i <= n,
            out@ == Seq::new(i as nat, |i: int| true),
        decreases n - i,
    {
        out.push(true);
        i = i + 1;
        assert(out@ =~= Seq::new(i as nat, |i: int| true));
    }
    out
}

fn table_list(
    keys: &TableKeys,
    bytes: &Vec<u8>,
    sequence: bool,
    data: PageId,
    indexes: &Vec<PageId>,
) -> (r: Vec<EntryEdit>)
    requires
        keys.indexes@.len() == indexes@.len(),
    ensures
        base_views(r@) == table_entries(*keys, bytes@, sequence, data, indexes@),
{
    let mut out: Vec<EntryEdit> = Vec::new();
    out.push((to_vec(keys.table.as_slice()), Some(to_vec(bytes.as_slice()))));
    out.push((to_vec(keys.root.as_slice()), Some(encode_root(data))));
    let ghost first = seq![
        (keys.table@, Some(bytes@)),
        (keys.root@, Some(le_bytes(data.0 as nat, 8))),
    ];
    assert(base_views(out@) =~= first);
    if sequence {
        out.push((to_vec(keys.seq.as_slice()), Some(encode_seq(1))));
        assert(base_views(out@) =~= first.push((keys.seq@, Some(le_bytes(1, 8)))));
    }
    let record = all_true(keys.indexes.len());
    push_index_entries(&mut out, &keys.indexes, indexes, &record);
    out
}

/// How many pages a new table may take, beside a catalog tree of this height.
pub open spec fn table_pages(indexes: nat, height: nat) -> int {
    1 + indexes + pages_for((indexes + 3) as int, (height + 1) as int)
}

/// Plant the trees of a new table, all of them empty, and store its catalog entries.
#[verifier::rlimit(30)]
pub fn plant_table<B: IoBackend>(
    pager: &mut Pager<B>,
    catalog: PageId,
    keys: &TableKeys,
    bytes: &Vec<u8>,
    sequence: bool,
) -> (r: Result<Settled>)
    requires
        ready(*old(pager)),
        usable(old(pager).state()),
        has_btree(old(pager).state(), catalog.0),
        keys.indexes@.len() + 2 <= usize::MAX,
        roomy(
            old(pager).state(),
            table_pages(
                keys.indexes@.len(),
                tallest(seq![tree_at(old(pager).state(), catalog.0)]),
            ),
        ),
    ensures
        final(pager).wf(),
        old(pager).fault_free() ==> final(pager).fault_free(),
        usable(final(pager).state()),
        evolves(
            old(pager).state(),
            final(pager).state(),
            table_pages(
                keys.indexes@.len(),
                tallest(seq![tree_at(old(pager).state(), catalog.0)]),
            ),
        ),
        match r {
            Ok(done) => {
                let s = old(pager).state();
                let s2 = final(pager).state();
                let new = done.site.roots;
                &&& new.indexes@.len() == keys.indexes@.len()
                &&& planted(s2, done.site.all())
                &&& balanced(
                    s,
                    s2,
                    seq![tree_at(s, catalog.0)],
                    done.freed@,
                    trees_at(s2, done.site.all()),
                )
                &&& tree_map(tree_at(s2, new.data.0)) == Map::<Seq<u8>, Seq<u8>>::empty()
                &&& forall|i: int|
                    0 <= i < new.indexes@.len() ==> tree_map(
                        tree_at(s2, (#[trigger] new.indexes@[i]).0),
                    ) == Map::<Seq<u8>, Seq<u8>>::empty()
                &&& tree_map(tree_at(s2, done.site.catalog.0)) == base_after(
                    tree_map(tree_at(s, catalog.0)),
                    table_entries(*keys, bytes@, sequence, new.data, new.indexes@),
                )
            },
            Err(e) => e@ matches CatalogErrorV::BTree(b) && (refused(
                old(pager).state().free_list(),
                old(pager).fault_free(),
                b,
            ) || exists|data: PageId, indexes: Seq<PageId>, j: int|
                indexes.len() == keys.indexes@.len() && 0 <= j < table_entries(
                    *keys,
                    bytes@,
                    sequence,
                    data,
                    indexes,
                ).len() && op_fails(
                    old(pager).state().free_list(),
                    old(pager).fault_free(),
                    #[trigger] base_ops(
                        table_entries(*keys, bytes@, sequence, data, indexes),
                    )[j],
                    b,
                )),
        },
{
    let ghost s = pager.state();
    let ghost ff = pager.fault_free();
    let ghost olds = seq![tree_at(s, catalog.0)];
    let ghost h = tallest(olds);
    let n: usize = keys.indexes.len();
    let ghost most = table_pages(n as nat, h);
    let mut here: Vec<PageId> = Vec::new();
    here.push(catalog);
    proof {
        assert(trees_at(s, here@) =~= olds);
        assert(apart(olds)) by {
            reveal(apart);
        }
        lemma_pages(0, 0, n + 3, h as int + 1);
    }
    let all = match sow(pager, &here, n + 1) {
        Ok(all) => all,
        Err(e) => {
            proof {
                lemma_evolves_more(s, pager.state(), n + 1, most);
            }
            return Err(CatalogError::BTree(e));
        },
    };
    let ghost s1 = pager.state();
    let ghost ff1 = pager.fault_free();
    let mid = split(&all);
    let entries = table_list(keys, bytes, sequence, mid.roots.data, &mid.roots.indexes);
    let ghost want = table_entries(
        *keys,
        bytes@,
        sequence,
        mid.roots.data,
        mid.roots.indexes@,
    );
    let ghost h1 = tallest(trees_at(s1, all@));
    let ghost n2 = pages_for(entries@.len() as int, h1 as int);
    proof {
        assert(base_views(entries@).len() == entries@.len());
        lemma_index_entries_len(
            views(keys.indexes@),
            mid.roots.indexes@,
            Seq::new(keys.indexes@.len(), |i: int| true),
        );
        lemma_evolves_bounds(s, s1, n + 1);
        lemma_pages(entries@.len() as int, h1 as int, n + 3, h as int + 1);
        assert(all@[0] == catalog) by {
            assert(all@.take(1)[0] == here@[0]);
        }
    }
    let done = edit_entries(pager, &all, &entries);
    let ghost s2 = pager.state();
    proof {
        evolves_transitive(s, s1, s2, n + 1, n2);
        lemma_evolves_more(s, s2, n + 1 + n2, most);
    }
    let g = match done {
        Ok(g) => g,
        Err(e) => {
            proof {
                let j = choose|j: int|
                    0 <= j < entries@.len() && op_fails(
                        s1.free_list(),
                        ff1,
                        #[trigger] base_ops(base_views(entries@))[j],
                        e,
                    );
                lemma_fails_kept(s, s1, n + 1, ff, ff1, base_ops(want)[j], e);
            }
            return Err(CatalogError::BTree(e));
        },
    };
    let out = split(&g.roots);
    proof {
        let none = Seq::<PageId>::empty();
        lemma_planted(s, here@);
        lemma_balance_joined(
            s,
            s1,
            s2,
            n + 1,
            n2,
            olds,
            none,
            trees_at(s1, all@),
            g.freed@,
            trees_at(s2, g.roots@),
        );
        assert(none + g.freed@ =~= g.freed@);
        assert(out.all()[0] == out.catalog);
        assert(mid.all()[1] == mid.roots.data && out.all()[1] == out.roots.data);
        assert(g.roots@[1] == all@[1]);
        assert(tree_at(s1, here@[0].0) == tree_at(s, here@[0].0));
        assert forall|i: int| 0 <= i < out.roots.indexes@.len() implies out.roots.indexes@[i]
            == mid.roots.indexes@[i] && tree_map(
            tree_at(s2, (#[trigger] out.roots.indexes@[i]).0),
        ) == Map::<Seq<u8>, Seq<u8>>::empty() by {
            assert(out.all()[i + 2] == out.roots.indexes@[i]);
            assert(mid.all()[i + 2] == mid.roots.indexes@[i]);
            assert(g.roots@[i + 2] == all@[i + 2]);
        }
        assert(out.roots.indexes@ =~= mid.roots.indexes@);
    }
    Ok(Settled { site: out, freed: g.freed })
}

// --- new indexes -----------------------------------------------------------------

/// A new index: the encoded key of its root entry, and the entries it starts with.
#[derive(Debug, PartialEq, Eq)]
pub struct IndexFill {
    /// The key of its root entry.
    pub key: Vec<u8>,
    /// Its entries.
    pub entries: Vec<Entry>,
}

/// How many pages new indexes may take.
pub open spec fn fill_pages(fills: Seq<IndexFill>) -> int
    decreases fills.len(),
{
    if fills.len() == 0 {
        0
    } else {
        fill_pages(fills.drop_last()) + 1 + pages_for(fills.last().entries@.len() as int, 1)
    }
}

/// How many entries new indexes start with.
pub open spec fn fill_total(fills: Seq<IndexFill>) -> nat
    decreases fills.len(),
{
    if fills.len() == 0 {
        0
    } else {
        fill_total(fills.drop_last()) + fills.last().entries@.len()
    }
}

/// The catalog entries of new indexes: the definition of their table, and their roots.
pub open spec fn fill_entries(
    table: Seq<u8>,
    bytes: Seq<u8>,
    fills: Seq<IndexFill>,
    roots: Seq<PageId>,
) -> Seq<(Seq<u8>, Option<Seq<u8>>)> {
    seq![(table, Some(bytes))] + Seq::new(
        fills.len(),
        |i: int| (fills[i].key@, Some(le_bytes(roots[i].0 as nat, 8))),
    )
}

/// How many pages new indexes and their entries may take, beside trees of at most
/// this height.
pub open spec fn index_pages(fills: Seq<IndexFill>, height: nat) -> int {
    fill_pages(fills) + pages_for(
        (fills.len() + 1) as int,
        (height + 1 + fill_total(fills)) as int,
    )
}

fn index_list(
    table: &Vec<u8>,
    bytes: &Vec<u8>,
    fills: &Vec<IndexFill>,
    all: &Vec<PageId>,
    known: usize,
) -> (r: Vec<EntryEdit>)
    requires
        all@.len() == known + fills@.len(),
    ensures
        base_views(r@) == fill_entries(table@, bytes@, fills@, all@.skip(known as int)),
{
    let mut out: Vec<EntryEdit> = Vec::new();
    out.push((to_vec(table.as_slice()), Some(to_vec(bytes.as_slice()))));
    let ghost want = fill_entries(table@, bytes@, fills@, all@.skip(known as int));
    let total: usize = all.len();
    let mut i: usize = 0;
    while i < fills.len()
        invariant
            i <= fills@.len(),
            all@.len() == known + fills@.len(),
            total == all@.len(),
            want == fill_entries(table@, bytes@, fills@, all@.skip(known as int)),
            out@.len() == i + 1,
            forall|j: int| 0 <= j < out@.len() ==> #[trigger] base_views(out@)[j] == want[j],
        decreases fills@.len() - i,
    {
        let ghost before = base_views(out@);
        out.push((to_vec(fills[i].key.as_slice()), Some(encode_root(all[known + i]))));
        proof {
            assert(base_views(out@) =~= before.push(want[i + 1]));
        }
        i = i + 1;
    }
    assert(base_views(out@) =~= want);
    out
}

proof fn lemma_fill_pages(fills: Seq<IndexFill>, i: int)
    requires
        0 <= i <= fills.len(),
    ensures
        0 <= fill_pages(fills.take(i)) <= fill_pages(fills),
        fill_total(fills.take(i)) <= fill_total(fills),
        i < fills.len() ==> fill_pages(fills.take(i + 1)) == fill_pages(fills.take(i)) + 1
            + pages_for(fills[i].entries@.len() as int, 1),
        i < fills.len() ==> fill_total(fills.take(i + 1)) == fill_total(fills.take(i))
            + fills[i].entries@.len(),
    decreases fills.len(), fills.len() - i,
{
    if i == fills.len() {
        assert(fills.take(i) =~= fills);
        if i > 0 {
            lemma_fill_pages(fills.drop_last(), i - 1);
            assert(fills.drop_last().take(i - 1) =~= fills.drop_last());
            lemma_pages(0, 0, fills.last().entries@.len() as int, 1);
        }
    } else {
        assert(fills.take(i + 1).drop_last() =~= fills.take(i));
        assert(fills.take(i + 1).last() == fills[i]);
        lemma_pages(0, 0, fills[i].entries@.len() as int, 1);
        lemma_fill_pages(fills, i + 1);
        lemma_fill_pages(fills.drop_last(), i);
        assert(fills.drop_last().take(i) =~= fills.take(i));
    }
}

/// Why planting new indexes fails.
pub open spec fn fill_fails(
    w: Walked,
    fault_free: bool,
    table: Seq<u8>,
    bytes: Seq<u8>,
    fills: Seq<IndexFill>,
    e: BTreeError,
) -> bool {
    ||| refused(w, fault_free, e)
    ||| exists|i: int, j: int|
        0 <= i < fills.len() && 0 <= j < fills[i].entries@.len() && op_fails(
            w,
            fault_free,
            #[trigger] fill_ops(views(fills[i].entries@))[j],
            e,
        )
    ||| exists|roots: Seq<PageId>, j: int|
        0 <= j <= fills.len() && op_fails(
            w,
            fault_free,
            #[trigger] base_ops(fill_entries(table, bytes, fills, roots))[j],
            e,
        )
}

/// Build the trees of new indexes beside others. All roots come back, the new ones
/// last, with the pages that were needed only on the way.
#[verifier::rlimit(30)]
fn build_all<B: IoBackend>(pager: &mut Pager<B>, known: &Vec<PageId>, fills: &Vec<IndexFill>) -> (r:
    Result<Grown>)
    requires
        ready(*old(pager)),
        usable(old(pager).state()),
        planted(old(pager).state(), known@),
        known@.len() + fills@.len() <= usize::MAX,
        roomy(old(pager).state(), fill_pages(fills@)),
    ensures
        final(pager).wf(),
        old(pager).fault_free() ==> final(pager).fault_free(),
        usable(final(pager).state()),
        evolves(old(pager).state(), final(pager).state(), fill_pages(fills@)),
        match r {
            Ok(g) => {
                let s = old(pager).state();
                let s2 = final(pager).state();
                &&& g.roots@.len() == known@.len() + fills@.len()
                &&& g.roots@.take(known@.len() as int) == known@
                &&& planted(s2, g.roots@)
                &&& balanced(s, s2, trees_at(s, known@), g.freed@, trees_at(s2, g.roots@))
                &&& tallest(trees_at(s2, g.roots@)) <= tallest(trees_at(s, known@)) + 1
                    + fill_total(fills@)
                &&& forall|j: int|
                    0 <= j < fills@.len() ==> tree_map(
                        tree_at(s2, (#[trigger] g.roots@[known@.len() + j]).0),
                    ) == filled(views(fills@[j].entries@))
            },
            Err(e) => e@ matches CatalogErrorV::BTree(b) && (refused(
                old(pager).state().free_list(),
                old(pager).fault_free(),
                b,
            ) || exists|i: int, j: int|
                0 <= i < fills@.len() && 0 <= j < fills@[i].entries@.len() && op_fails(
                    old(pager).state().free_list(),
                    old(pager).fault_free(),
                    #[trigger] fill_ops(views(fills@[i].entries@))[j],
                    b,
                )),
        },
{
    let ghost s = pager.state();
    let ghost ff = pager.fault_free();
    let ghost olds = trees_at(s, known@);
    let ghost h = tallest(olds);
    let ghost m = known@.len() as int;
    let ghost most = fill_pages(fills@);
    let mut all = copy_roots(known);
    let mut freed: Vec<PageId> = Vec::new();
    proof {
        evolves_reflexive(s);
        lemma_planted(s, known@);
        lemma_balance_still(s, olds);
        assert(fills@.take(0) =~= Seq::empty());
        assert(all@.take(m) =~= known@);
    }
    let mut i: usize = 0;
    while i < fills.len()
        invariant
            i <= fills@.len(),
            s == old(pager).state(),
            ff == old(pager).fault_free(),
            olds == trees_at(s, known@),
            h == tallest(olds),
            most == fill_pages(fills@),
            m == known@.len(),
            usable(s),
            planted(s, known@),
            forest(s, olds),
            roomy(s, most),
            pager.wf(),
            ff ==> pager.fault_free(),
            usable(pager.state()),
            evolves(s, pager.state(), fill_pages(fills@.take(i as int))),
            all@.len() == m + i,
            all@.take(m) == known@,
            planted(pager.state(), all@),
            balanced(s, pager.state(), olds, freed@, trees_at(pager.state(), all@)),
            tallest(trees_at(pager.state(), all@)) <= h + 1 + fill_total(fills@.take(i as int)),
            forall|j: int|
                0 <= j < i ==> tree_map(
                    tree_at(pager.state(), (#[trigger] all@[m + j]).0),
                ) == filled(views(fills@[j].entries@)),
        decreases fills@.len() - i,
    {
        let ghost s1 = pager.state();
        let ghost ff1 = pager.fault_free();
        let ghost before = all@;
        let ghost n0 = fill_pages(fills@.take(i as int));
        let ghost len = fills@[i as int].entries@.len() as int;
        let ghost n1 = 1 + pages_for(len, 1);
        proof {
            lemma_fill_pages(fills@, i as int);
            lemma_fill_pages(fills@, i + 1);
            lemma_evolves_bounds(s, s1, n0);
        }
        let built = build_index(pager, &fills[i].entries);
        let ghost s2 = pager.state();
        proof {
            evolves_transitive(s, s1, s2, n0, n1);
        }
        let edit = match built {
            Ok(edit) => edit,
            Err(e) => {
                proof {
                    lemma_evolves_more(s, s2, n0 + n1, most);
                    let b = e@->BTree_0;
                    if refused(s1.free_list(), ff1, b) {
                        lemma_refused_kept(s, s1, n0, ff, ff1, b);
                    } else {
                        let j = choose|j: int|
                            0 <= j < len && op_fails(
                                s1.free_list(),
                                ff1,
                                #[trigger] fill_ops(views(fills@[i as int].entries@))[j],
                                b,
                            );
                        let op = fill_ops(views(fills@[i as int].entries@))[j];
                        lemma_fails_kept(s, s1, n0, ff, ff1, op, b);
                    }
                }
                return Err(e);
            },
        };
        all.push(edit.new_root);
        proof {
            let one = seq![edit.new_root];
            let none = Seq::<PageId>::empty();
            assert(before + none =~= before);
            assert(before + one =~= all@);
            assert(trees_at(s1, none) =~= Seq::empty());
            assert(trees_at(s2, one) =~= seq![tree_at(s2, edit.new_root.0)]);
            assert(planted(s2, one)) by {
                reveal(apart);
            }
            lemma_balance_beside(s1, s2, n1, before, none, one, edit.freed@);
            lemma_balance_joined(
                s,
                s1,
                s2,
                n0,
                n1,
                olds,
                freed@,
                trees_at(s1, before),
                edit.freed@,
                trees_at(s2, all@),
            );
            lemma_tallest_joined(s2, before, one);
            lemma_tallest_most(trees_at(s2, one), (1 + len) as nat);
            assert(all@.take(m) =~= known@);
            assert forall|j: int| 0 <= j < i + 1 implies tree_map(
                tree_at(s2, (#[trigger] all@[m + j]).0),
            ) == filled(views(fills@[j].entries@)) by {
                if j < i {
                    assert(all@[m + j] == before[m + j]);
                    assert(trees_at(s2, before)[m + j] == trees_at(s1, before)[m + j]);
                }
            }
        }
        append(&mut freed, &edit.freed);
        i = i + 1;
    }
    assert(fills@.take(i as int) =~= fills@);
    Ok(Grown { roots: all, freed })
}

/// The trees of a table with new indexes, the catalog entries being stored.
proof fn lemma_indexes_added(
    s: PagerState,
    s1: PagerState,
    s2: PagerState,
    site: Site,
    all: Seq<PageId>,
    out: Site,
    fills: Seq<IndexFill>,
)
    requires
        all.len() == site.all().len() + fills.len(),
        all.take(site.all().len() as int) == site.all(),
        trees_at(s1, site.all()) == trees_at(s, site.all()),
        forall|j: int|
            0 <= j < fills.len() ==> tree_map(
                tree_at(s1, (#[trigger] all[site.all().len() + j]).0),
            ) == filled(views(fills[j].entries@)),
        out.all().len() == all.len(),
        forall|i: int| 1 <= i < all.len() ==> #[trigger] out.all()[i] == all[i],
        forall|i: int|
            1 <= i < all.len() ==> tree_map(tree_at(s2, (#[trigger] out.all()[i]).0)) == tree_map(
                tree_at(s1, all[i].0),
            ),
    ensures
        ({
            let known = site.roots.indexes@.len() as int;
            let new = out.roots;
            &&& tree_at(s1, all[0].0) == tree_at(s, site.catalog.0)
            &&& new.data == site.roots.data
            &&& new.indexes@.len() == known + fills.len()
            &&& new.indexes@.take(known) == site.roots.indexes@
            &&& new.indexes@.skip(known) == all.skip(site.all().len() as int)
            &&& tree_map(tree_at(s2, new.data.0)) == tree_map(tree_at(s, new.data.0))
            &&& forall|i: int|
                0 <= i < known ==> tree_map(tree_at(s2, (#[trigger] new.indexes@[i]).0))
                    == tree_map(tree_at(s, site.roots.indexes@[i].0))
            &&& forall|i: int|
                known <= i < new.indexes@.len() ==> tree_map(
                    tree_at(s2, (#[trigger] new.indexes@[i]).0),
                ) == filled(views(fills[i - known].entries@))
        }),
{
    let m = site.roots.indexes@.len() as int;
    let known = site.all().len() as int;
    let olds = trees_at(s, site.all());
    assert(all[0] == all.take(known)[0] && all[1] == all.take(known)[1]);
    assert(site.all()[0] == site.catalog && site.all()[1] == site.roots.data);
    assert(out.all()[1] == out.roots.data);
    assert(trees_at(s1, site.all())[0] == olds[0] && trees_at(s1, site.all())[1] == olds[1]);
    assert forall|i: int| 0 <= i < out.roots.indexes@.len() implies out.roots.indexes@[i] == all[i
        + 2] && tree_map(tree_at(s2, (#[trigger] out.roots.indexes@[i]).0)) == tree_map(
        tree_at(s1, all[i + 2].0),
    ) by {
        assert(out.all()[i + 2] == out.roots.indexes@[i]);
    }
    assert forall|i: int| 0 <= i < m implies all[i + 2] == site.roots.indexes@[i] && tree_at(
        s1,
        all[i + 2].0,
    ) == tree_at(s, (#[trigger] site.roots.indexes@[i]).0) by {
        assert(all[i + 2] == all.take(known)[i + 2]);
        assert(site.all()[i + 2] == site.roots.indexes@[i]);
        assert(trees_at(s1, site.all())[i + 2] == olds[i + 2]);
    }
    assert(out.roots.indexes@.take(m) =~= site.roots.indexes@);
    assert(out.roots.indexes@.skip(m) =~= all.skip(known));
    assert forall|i: int| 0 <= i < m implies tree_map(
        tree_at(s2, (#[trigger] out.roots.indexes@[i]).0),
    ) == tree_map(tree_at(s, site.roots.indexes@[i].0)) by {
        assert(tree_at(s1, all[i + 2].0) == tree_at(s, site.roots.indexes@[i].0));
    }
    assert forall|i: int| m <= i < out.roots.indexes@.len() implies tree_map(
        tree_at(s2, (#[trigger] out.roots.indexes@[i]).0),
    ) == filled(views(fills[i - m].entries@)) by {
        assert(all[known + (i - m)] == out.roots.indexes@[i]);
    }
}

/// Plant new indexes of a table from their entries, and store the table's definition
/// and their roots in the catalog.
#[verifier::rlimit(30)]
pub fn plant_indexes<B: IoBackend>(
    pager: &mut Pager<B>,
    site: &Site,
    table: &Vec<u8>,
    bytes: &Vec<u8>,
    fills: &Vec<IndexFill>,
) -> (r: Result<Settled>)
    requires
        ready(*old(pager)),
        usable(old(pager).state()),
        planted(old(pager).state(), site.all()),
        site.roots.indexes@.len() + fills@.len() + 2 <= usize::MAX,
        roomy(
            old(pager).state(),
            index_pages(fills@, tallest(trees_at(old(pager).state(), site.all()))),
        ),
    ensures
        final(pager).wf(),
        old(pager).fault_free() ==> final(pager).fault_free(),
        usable(final(pager).state()),
        evolves(
            old(pager).state(),
            final(pager).state(),
            index_pages(fills@, tallest(trees_at(old(pager).state(), site.all()))),
        ),
        match r {
            Ok(done) => {
                let s = old(pager).state();
                let s2 = final(pager).state();
                let known = site.roots.indexes@.len() as int;
                let new = done.site.roots;
                &&& new.data == site.roots.data
                &&& new.indexes@.len() == known + fills@.len()
                &&& new.indexes@.take(known) == site.roots.indexes@
                &&& planted(s2, done.site.all())
                &&& balanced(
                    s,
                    s2,
                    trees_at(s, site.all()),
                    done.freed@,
                    trees_at(s2, done.site.all()),
                )
                &&& tree_map(tree_at(s2, new.data.0)) == tree_map(tree_at(s, new.data.0))
                &&& forall|i: int|
                    0 <= i < known ==> tree_map(tree_at(s2, (#[trigger] new.indexes@[i]).0))
                        == tree_map(tree_at(s, site.roots.indexes@[i].0))
                &&& forall|i: int|
                    known <= i < new.indexes@.len() ==> tree_map(
                        tree_at(s2, (#[trigger] new.indexes@[i]).0),
                    ) == filled(views(fills@[i - known].entries@))
                &&& tree_map(tree_at(s2, done.site.catalog.0)) == base_after(
                    tree_map(tree_at(s, site.catalog.0)),
                    fill_entries(table@, bytes@, fills@, new.indexes@.skip(known)),
                )
            },
            Err(e) => e@ matches CatalogErrorV::BTree(b) && fill_fails(
                old(pager).state().free_list(),
                old(pager).fault_free(),
                table@,
                bytes@,
                fills@,
                b,
            ),
        },
{
    let ghost s = pager.state();
    let ghost ff = pager.fault_free();
    let ghost olds = trees_at(s, site.all());
    let ghost h = tallest(olds);
    let ghost most = index_pages(fills@, h);
    let here = site.list();
    let known: usize = here.len();
    proof {
        lemma_planted(s, site.all());
        lemma_fill_pages(fills@, 0);
        lemma_pages(
            0,
            0,
            (fills@.len() + 1) as int,
            (h + 1 + fill_total(fills@)) as int,
        );
    }
    let ghost n0 = fill_pages(fills@);
    let built = match build_all(pager, &here, fills) {
        Ok(built) => built,
        Err(e) => {
            proof {
                lemma_evolves_more(s, pager.state(), n0, most);
            }
            return Err(e);
        },
    };
    let all = built.roots;
    let ghost s1 = pager.state();
    let ghost ff1 = pager.fault_free();
    let entries = index_list(table, bytes, fills, &all, known);
    let ghost fresh = all@.skip(known as int);
    let ghost want = fill_entries(table@, bytes@, fills@, fresh);
    let ghost h1 = tallest(trees_at(s1, all@));
    let ghost n2 = pages_for(entries@.len() as int, h1 as int);
    proof {
        assert(base_views(entries@).len() == entries@.len());
        lemma_evolves_bounds(s, s1, n0);
        lemma_pages(
            entries@.len() as int,
            h1 as int,
            (fills@.len() + 1) as int,
            (h + 1 + fill_total(fills@)) as int,
        );
    }
    let done = edit_entries(pager, &all, &entries);
    let ghost s2 = pager.state();
    proof {
        evolves_transitive(s, s1, s2, n0, n2);
        lemma_evolves_more(s, s2, n0 + n2, most);
    }
    let g = match done {
        Ok(g) => g,
        Err(e) => {
            proof {
                let j = choose|j: int|
                    0 <= j < entries@.len() && op_fails(
                        s1.free_list(),
                        ff1,
                        #[trigger] base_ops(base_views(entries@))[j],
                        e,
                    );
                lemma_fails_kept(s, s1, n0, ff, ff1, base_ops(want)[j], e);
            }
            return Err(CatalogError::BTree(e));
        },
    };
    let out = split(&g.roots);
    proof {
        lemma_balance_joined(
            s,
            s1,
            s2,
            n0,
            n2,
            olds,
            built.freed@,
            trees_at(s1, all@),
            g.freed@,
            trees_at(s2, g.roots@),
        );
        lemma_roots_kept(s, s1, n0, site.all());
        lemma_indexes_added(s, s1, s2, *site, all@, out, fills@);
    }
    let mut freed = built.freed;
    append(&mut freed, &g.freed);
    Ok(Settled { site: out, freed })
}

// --- dropping --------------------------------------------------------------------

/// The catalog entries that go with a table.
pub open spec fn gone_entries(keys: TableKeys) -> Seq<(Seq<u8>, Option<Seq<u8>>)> {
    Seq::new(keys.indexes@.len(), |i: int| (keys.indexes@[i]@, None::<Seq<u8>>)) + seq![
        (keys.table@, None),
        (keys.root@, None),
        (keys.seq@, None),
    ]
}

fn gone_list(keys: &TableKeys) -> (r: Vec<EntryEdit>)
    ensures
        base_views(r@) == gone_entries(*keys),
{
    let mut out: Vec<EntryEdit> = Vec::new();
    let mut i: usize = 0;
    while i < keys.indexes.len()
        invariant
            i <= keys.indexes@.len(),
            out@.len() == i,
            forall|j: int|
                0 <= j < i ==> #[trigger] base_views(out@)[j] == gone_entries(*keys)[j],
        decreases keys.indexes@.len() - i,
    {
        let ghost before = base_views(out@);
        out.push((to_vec(keys.indexes[i].as_slice()), None));
        assert(base_views(out@) =~= before.push(gone_entries(*keys)[i as int]));
        i = i + 1;
    }
    let ghost roots = Seq::new(keys.indexes@.len(), |i: int| (keys.indexes@[i]@, None::<Seq<u8>>));
    assert(base_views(out@) =~= roots) by {
        assert forall|j: int| 0 <= j < roots.len() implies #[trigger] base_views(out@)[j]
            == roots[j] by {
            assert(gone_entries(*keys)[j] == roots[j]);
        }
    }
    out.push((to_vec(keys.table.as_slice()), None));
    assert(base_views(out@) =~= roots.push((keys.table@, None)));
    out.push((to_vec(keys.root.as_slice()), None));
    assert(base_views(out@) =~= roots.push((keys.table@, None)).push((keys.root@, None)));
    out.push((to_vec(keys.seq.as_slice()), None));
    assert(base_views(out@) =~= gone_entries(*keys));
    out
}

/// Drop a table's trees and its catalog entries. What comes back is the new root of
/// the catalog tree, and the pages that are no longer needed.
pub fn fell_table<B: IoBackend>(pager: &mut Pager<B>, site: &Site, keys: &TableKeys) -> (r: Result<
    Edit,
>)
    requires
        ready(*old(pager)),
        usable(old(pager).state()),
        planted(old(pager).state(), site.all()),
        roomy(
            old(pager).state(),
            pages_for(
                keys.indexes@.len() as int + 3,
                tallest(seq![tree_at(old(pager).state(), site.catalog.0)]) as int,
            ),
        ),
    ensures
        final(pager).wf(),
        old(pager).fault_free() ==> final(pager).fault_free(),
        usable(final(pager).state()),
        evolves(
            old(pager).state(),
            final(pager).state(),
            pages_for(
                keys.indexes@.len() as int + 3,
                tallest(seq![tree_at(old(pager).state(), site.catalog.0)]) as int,
            ),
        ),
        match r {
            Ok(edit) => {
                let s = old(pager).state();
                let s2 = final(pager).state();
                &&& has_btree(s2, edit.new_root.0)
                &&& balanced(
                    s,
                    s2,
                    trees_at(s, site.all()),
                    edit.freed@,
                    seq![tree_at(s2, edit.new_root.0)],
                )
                &&& tree_map(tree_at(s2, edit.new_root.0)) == base_after(
                    tree_map(tree_at(s, site.catalog.0)),
                    gone_entries(*keys),
                )
            },
            Err(e) => e@ matches CatalogErrorV::BTree(b) && (refused(
                old(pager).state().free_list(),
                old(pager).fault_free(),
                b,
            ) || exists|j: int|
                0 <= j < keys.indexes@.len() + 3 && op_fails(
                    old(pager).state().free_list(),
                    old(pager).fault_free(),
                    #[trigger] base_ops(gone_entries(*keys))[j],
                    b,
                )),
        },
{
    let ghost s = pager.state();
    let mut here: Vec<PageId> = Vec::new();
    here.push(site.catalog);
    let mut gone: Vec<PageId> = Vec::new();
    gone.push(site.roots.data);
    append(&mut gone, &site.roots.indexes);
    let ghost h = tallest(trees_at(s, here@));
    let ghost n = pages_for(keys.indexes@.len() as int + 3, h as int);
    proof {
        evolves_reflexive(s);
        assert(here@ + gone@ =~= site.all());
        assert(trees_at(s, here@) =~= seq![tree_at(s, site.catalog.0)]);
        lemma_pages(0, 0, keys.indexes@.len() as int + 3, h as int);
    }
    let ids = match fell(pager, &here, &gone) {
        Ok(ids) => ids,
        Err(e) => {
            proof {
                lemma_evolves_more(s, s, 0, n);
            }
            return Err(CatalogError::BTree(e));
        },
    };
    let entries = gone_list(keys);
    assert(base_views(entries@).len() == entries@.len());
    let ghost ff1 = pager.fault_free();
    let g = match edit_entries(pager, &here, &entries) {
        Ok(g) => g,
        Err(e) => {
            proof {
                let j = choose|j: int|
                    0 <= j < entries@.len() && op_fails(
                        s.free_list(),
                        ff1,
                        #[trigger] base_ops(base_views(entries@))[j],
                        e,
                    );
                lemma_fails_kept(
                    s,
                    s,
                    0,
                    old(pager).fault_free(),
                    ff1,
                    base_ops(gone_entries(*keys))[j],
                    e,
                );
            }
            return Err(CatalogError::BTree(e));
        },
    };
    let ghost s2 = pager.state();
    let new_root = g.roots[0];
    let mut freed = ids;
    append(&mut freed, &g.freed);
    proof {
        lemma_planted(s, site.all());
        lemma_balance_joined(
            s,
            s,
            s2,
            0,
            n,
            trees_at(s, site.all()),
            ids@,
            trees_at(s, here@),
            g.freed@,
            trees_at(s2, g.roots@),
        );
        assert(trees_at(s2, g.roots@) =~= seq![tree_at(s2, new_root.0)]);
        assert(has_btree(s2, g.roots@[0].0));
    }
    Ok(Edit { new_root, freed })
}

/// Where place `i` was, before the one at `at` of `n + 1` things became the last.
spec fn came_from(at: int, n: int, i: int) -> int {
    if i == n {
        at
    } else if i < at {
        i
    } else {
        i + 1
    }
}

proof fn lemma_came_from<T>(a: Seq<T>, at: int, i: int)
    requires
        0 <= at < a.len(),
        0 <= i < a.len(),
    ensures
        (a.remove(at) + seq![a[at]]).len() == a.len(),
        0 <= came_from(at, a.len() - 1, i) < a.len(),
        (a.remove(at) + seq![a[at]])[i] == a[came_from(at, a.len() - 1, i)],
{
}

proof fn lemma_order_apart(a: Seq<Tree>, at: int)
    requires
        apart(a),
        0 <= at < a.len(),
    ensures
        apart(a.remove(at) + seq![a[at]]),
{
    let b = a.remove(at) + seq![a[at]];
    let n = a.len() - 1;
    assert forall|i: int, j: int, p: u64|
        0 <= i < b.len() && 0 <= j < b.len() && i != j && #[trigger] b[i].owns(
            p,
        ) implies !#[trigger] b[j].owns(p) by {
        lemma_came_from(a, at, i);
        lemma_came_from(a, at, j);
        lemma_apart(a, came_from(at, n, i), came_from(at, n, j), p);
    }
    reveal(apart);
}

proof fn lemma_order_owns(a: Seq<Tree>, at: int, p: u64)
    requires
        0 <= at < a.len(),
    ensures
        some_owns(a.remove(at) + seq![a[at]], p) <==> some_owns(a, p),
{
    let b = a.remove(at) + seq![a[at]];
    let n = a.len() - 1;
    lemma_came_from(a, at, 0);
    if some_owns(b, p) {
        let i = lemma_owner(b, p);
        lemma_came_from(a, at, i);
        lemma_some_owns(a, came_from(at, n, i), p);
    }
    if some_owns(a, p) {
        let x = lemma_owner(a, p);
        let i = if x == at {
            n
        } else if x < at {
            x
        } else {
            x - 1
        };
        lemma_came_from(a, at, i);
        lemma_some_owns(b, i, p);
    }
}

/// Trees are apart in any order.
proof fn lemma_moved_last(s: PagerState, roots: Seq<PageId>, at: int)
    requires
        planted(s, roots),
        0 <= at < roots.len(),
    ensures
        planted(s, roots.remove(at) + seq![roots[at]]),
        forall|p: u64| #[trigger]
            some_owns(trees_at(s, roots.remove(at) + seq![roots[at]]), p) <==> some_owns(
                trees_at(s, roots),
                p,
            ),
{
    let other = roots.remove(at) + seq![roots[at]];
    let a = trees_at(s, roots);
    let n = roots.len() - 1;
    lemma_came_from(roots, at, 0);
    lemma_came_from(a, at, 0);
    assert(trees_at(s, other) =~= a.remove(at) + seq![a[at]]) by {
        assert forall|i: int| 0 <= i < other.len() implies trees_at(s, other)[i] == (a.remove(at)
            + seq![a[at]])[i] by {
            lemma_came_from(roots, at, i);
            lemma_came_from(a, at, i);
        }
    }
    assert forall|i: int| 0 <= i < other.len() implies has_btree(s, (#[trigger] other[i]).0) by {
        lemma_came_from(roots, at, i);
        assert(has_btree(s, roots[came_from(at, n, i)].0));
    }
    lemma_order_apart(a, at);
    assert forall|p: u64| #[trigger] some_owns(trees_at(s, other), p) <==> some_owns(a, p) by {
        lemma_order_owns(a, at, p);
    }
}

/// The catalog entries of a dropped index: its root goes, and the definition of its
/// table changes.
pub open spec fn unindexed_entries(key: Seq<u8>, table: Seq<u8>, bytes: Seq<u8>) -> Seq<
    (Seq<u8>, Option<Seq<u8>>),
> {
    seq![(key, None), (table, Some(bytes))]
}

/// All roots but the one at `at`.
fn without(all: &Vec<PageId>, at: usize) -> (r: Vec<PageId>)
    requires
        at < all@.len(),
    ensures
        r@ == all@.remove(at as int),
{
    let mut out: Vec<PageId> = Vec::new();
    let mut i: usize = 0;
    while i < all.len()
        invariant
            i <= all@.len(),
            at < all@.len(),
            out@ == if i <= at {
                all@.take(i as int)
            } else {
                all@.take(i as int).remove(at as int)
            },
        decreases all@.len() - i,
    {
        if i != at {
            out.push(all[i]);
        }
        i = i + 1;
        assert(out@ =~= if i <= at {
            all@.take(i as int)
        } else {
            all@.take(i as int).remove(at as int)
        });
    }
    assert(all@.take(i as int) =~= all@);
    out
}

/// Drop the tree of index `at` of a table and its root entry, and store the table's
/// new definition.
#[verifier::rlimit(30)]
pub fn fell_index<B: IoBackend>(
    pager: &mut Pager<B>,
    site: &Site,
    at: usize,
    key: &Vec<u8>,
    table: &Vec<u8>,
    bytes: &Vec<u8>,
) -> (r: Result<Settled>)
    requires
        ready(*old(pager)),
        usable(old(pager).state()),
        planted(old(pager).state(), site.all()),
        at < site.roots.indexes@.len(),
        roomy(
            old(pager).state(),
            pages_for(2, tallest(trees_at(old(pager).state(), site.all())) as int),
        ),
    ensures
        final(pager).wf(),
        old(pager).fault_free() ==> final(pager).fault_free(),
        usable(final(pager).state()),
        evolves(
            old(pager).state(),
            final(pager).state(),
            pages_for(2, tallest(trees_at(old(pager).state(), site.all())) as int),
        ),
        match r {
            Ok(done) => {
                let s = old(pager).state();
                let s2 = final(pager).state();
                let new = done.site.roots;
                &&& new.data == site.roots.data
                &&& new.indexes@ == site.roots.indexes@.remove(at as int)
                &&& planted(s2, done.site.all())
                &&& balanced(
                    s,
                    s2,
                    trees_at(s, site.all()),
                    done.freed@,
                    trees_at(s2, done.site.all()),
                )
                &&& tree_map(tree_at(s2, new.data.0)) == tree_map(tree_at(s, new.data.0))
                &&& forall|i: int|
                    0 <= i < new.indexes@.len() ==> tree_map(
                        tree_at(s2, (#[trigger] new.indexes@[i]).0),
                    ) == tree_map(tree_at(s, new.indexes@[i].0))
                &&& tree_map(tree_at(s2, done.site.catalog.0)) == base_after(
                    tree_map(tree_at(s, site.catalog.0)),
                    unindexed_entries(key@, table@, bytes@),
                )
            },
            Err(e) => e@ matches CatalogErrorV::BTree(b) && (refused(
                old(pager).state().free_list(),
                old(pager).fault_free(),
                b,
            ) || exists|j: int|
                0 <= j < 2 && op_fails(
                    old(pager).state().free_list(),
                    old(pager).fault_free(),
                    #[trigger] base_ops(unindexed_entries(key@, table@, bytes@))[j],
                    b,
                )),
        },
{
    let ghost s = pager.state();
    let all = site.list();
    assert(all@.len() == site.roots.indexes@.len() + 2);
    let total: usize = all.len();
    let here = without(&all, at + 2);
    let mut gone: Vec<PageId> = Vec::new();
    gone.push(site.roots.indexes[at]);
    let ghost h = tallest(trees_at(s, site.all()));
    let ghost h1 = tallest(trees_at(s, here@));
    let ghost n = pages_for(2, h as int);
    let ghost n1 = pages_for(2, h1 as int);
    proof {
        evolves_reflexive(s);
        lemma_moved_last(s, site.all(), at + 2);
        assert(gone@ =~= seq![site.all()[at + 2]]);
        lemma_fewer(s, site.all(), at + 2);
        lemma_pages(2, h1 as int, 2, h as int);
    }
    let ids = match fell(pager, &here, &gone) {
        Ok(ids) => ids,
        Err(e) => {
            proof {
                lemma_evolves_more(s, s, 0, n);
            }
            return Err(CatalogError::BTree(e));
        },
    };
    let mut entries: Vec<EntryEdit> = Vec::new();
    entries.push((to_vec(key.as_slice()), None));
    entries.push((to_vec(table.as_slice()), Some(to_vec(bytes.as_slice()))));
    assert(base_views(entries@) =~= unindexed_entries(key@, table@, bytes@));
    let ghost ff1 = pager.fault_free();
    let done = edit_entries(pager, &here, &entries);
    let ghost s2 = pager.state();
    proof {
        lemma_evolves_more(s, s2, n1, n);
    }
    let g = match done {
        Ok(g) => g,
        Err(e) => {
            proof {
                let j = choose|j: int|
                    0 <= j < entries@.len() && op_fails(
                        s.free_list(),
                        ff1,
                        #[trigger] base_ops(base_views(entries@))[j],
                        e,
                    );
                lemma_fails_kept(
                    s,
                    s,
                    0,
                    old(pager).fault_free(),
                    ff1,
                    base_ops(unindexed_entries(key@, table@, bytes@))[j],
                    e,
                );
            }
            return Err(CatalogError::BTree(e));
        },
    };
    let mut freed = ids;
    append(&mut freed, &g.freed);
    let out = split(&g.roots);
    proof {
        let both = here@ + gone@;
        lemma_planted(s, both);
        lemma_balance_joined(
            s,
            s,
            s2,
            0,
            n1,
            trees_at(s, both),
            ids@,
            trees_at(s, here@),
            g.freed@,
            trees_at(s2, g.roots@),
        );
        lemma_same_owners(
            s,
            s2,
            trees_at(s, both),
            trees_at(s, site.all()),
            freed@,
            trees_at(s2, g.roots@),
        );
        lemma_index_gone(s, s2, *site, at as int, out);
    }
    Ok(Settled { site: out, freed })
}

/// Fewer trees are no taller.
proof fn lemma_fewer(s: PagerState, roots: Seq<PageId>, at: int)
    requires
        0 <= at < roots.len(),
    ensures
        tallest(trees_at(s, roots.remove(at))) <= tallest(trees_at(s, roots)),
{
    let fewer = roots.remove(at);
    assert forall|j: int| 0 <= j < fewer.len() implies (#[trigger] trees_at(s, fewer)[j]).height()
        <= tallest(trees_at(s, roots)) by {
        let x = came_from(at, roots.len() - 1, j);
        assert(fewer[j] == roots[x]);
        lemma_tallest(trees_at(s, roots), x);
    }
    lemma_tallest_most(trees_at(s, fewer), tallest(trees_at(s, roots)));
}

/// The trees of a table without one of its indexes.
proof fn lemma_index_gone(s: PagerState, s2: PagerState, site: Site, at: int, out: Site)
    requires
        0 <= at < site.roots.indexes@.len(),
        out.all().len() + 1 == site.all().len(),
        forall|i: int|
            1 <= i < out.all().len() ==> #[trigger] out.all()[i] == site.all().remove(at + 2)[i],
        forall|i: int|
            1 <= i < out.all().len() ==> tree_map(tree_at(s2, (#[trigger] out.all()[i]).0))
                == tree_map(tree_at(s, site.all().remove(at + 2)[i].0)),
    ensures
        out.roots.data == site.roots.data,
        out.roots.indexes@ == site.roots.indexes@.remove(at),
        tree_map(tree_at(s2, out.roots.data.0)) == tree_map(tree_at(s, out.roots.data.0)),
        forall|i: int|
            0 <= i < out.roots.indexes@.len() ==> tree_map(
                tree_at(s2, (#[trigger] out.roots.indexes@[i]).0),
            ) == tree_map(tree_at(s, out.roots.indexes@[i].0)),
{
    assert(out.all()[1] == out.roots.data);
    assert(site.all().remove(at + 2)[1] == site.all()[1]);
    assert(site.all()[1] == site.roots.data);
    assert forall|i: int| 0 <= i < out.roots.indexes@.len() implies out.roots.indexes@[i]
        == site.roots.indexes@.remove(at)[i] && tree_map(
        tree_at(s2, (#[trigger] out.roots.indexes@[i]).0),
    ) == tree_map(tree_at(s, out.roots.indexes@[i].0)) by {
        let x = came_from(at, site.roots.indexes@.len() - 1, i);
        assert(out.all()[i + 2] == out.roots.indexes@[i]);
        assert(site.all().remove(at + 2)[i + 2] == site.all()[x + 2]);
        assert(site.all()[x + 2] == site.roots.indexes@[x]);
        assert(site.roots.indexes@.remove(at)[i] == site.roots.indexes@[x]);
    }
    assert(out.roots.indexes@ =~= site.roots.indexes@.remove(at));
}

proof fn lemma_same_owners(
    s: PagerState,
    s2: PagerState,
    olds: Seq<Tree>,
    other: Seq<Tree>,
    freed: Seq<PageId>,
    news: Seq<Tree>,
)
    requires
        balanced(s, s2, olds, freed, news),
        forall|p: u64| #[trigger] some_owns(olds, p) <==> some_owns(other, p),
    ensures
        balanced(s, s2, other, freed, news),
{
    assert forall|p: u64|
        #![trigger lists(freed, p)]
        #![trigger some_owns(news, p)]
        lists(freed, p) || some_owns(news, p) <==> some_owns(other, p) || taken(s, s2, p) by {
        assert(some_owns(olds, p) <==> some_owns(other, p));
    }
}

} // verus!
