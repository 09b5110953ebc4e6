//! New trees beside others, trees that are given up, and the balance of pages over
//! several changes.

use vstd::prelude::*;
use crate::common::io::IoBackend;
use crate::pager::state::PagerState;
use crate::pager::{PageId, Pager, PagerError};
use super::api::snapshots_are_stable;
use super::error::{BTreeError, Result};
use super::grove::{
    append, balanced, copy_roots, lemma_lists_concat, lemma_lists_disjoint, lemma_planted,
    lemma_refused_kept, lemma_tallest, lemma_tallest_most, pages_of, planted, tallest, tree_map,
    trees_at,
};
use super::grow::{forest, lemma_concat_own, lemma_forest_kept, lemma_owner, some_owns};
use super::insert::{has_btree, lemma_one_owns, lists, roomy};
use super::model::{apart, lemma_apart, rooted, tree_at, Tree};
use super::store::{
    evolves, evolves_reflexive, evolves_transitive, lemma_evolves_bounds, refused, taken, usable,
};
use super::tree::{ready, BTree};

verus! {

/// One change after another: their pages are in balance too.
pub proof fn lemma_balance_joined(
    s0: PagerState,
    s1: PagerState,
    s2: PagerState,
    n1: int,
    n2: int,
    olds: Seq<Tree>,
    f1: Seq<PageId>,
    mids: Seq<Tree>,
    f2: Seq<PageId>,
    news: Seq<Tree>,
)
    requires
        usable(s0),
        evolves(s0, s1, n1),
        evolves(s1, s2, n2),
        forest(s0, olds),
        balanced(s0, s1, olds, f1, mids),
        balanced(s1, s2, mids, f2, news),
    ensures
        balanced(s0, s2, olds, f1 + f2, news),
{
    let all = f1 + f2;
    evolves_transitive(s0, s1, s2, n1, n2);
    lemma_forest_kept(s0, s2, n1 + n2, olds);
    assert forall|p: u64| #[trigger] lists(f1, p) implies !lists(f2, p) && !taken(s1, s2, p) by {
        assert(some_owns(olds, p) || taken(s0, s1, p));
        assert(taken(s0, s2, p) <==> taken(s0, s1, p) || taken(s1, s2, p));
        assert(some_owns(mids, p) ==> !lists(f1, p));
        assert(lists(f2, p) || some_owns(news, p) <==> some_owns(mids, p) || taken(s1, s2, p));
    }
    lemma_lists_disjoint(f1, f2);
    assert forall|p: u64|
        #![trigger lists(all, p)]
        #![trigger some_owns(news, p)]
        (lists(all, p) || some_owns(news, p) <==> some_owns(olds, p) || taken(s0, s2, p)) && (
        some_owns(news, p) ==> !lists(all, p)) by {
        lemma_lists_concat(f1, f2, p);
        assert(taken(s0, s2, p) <==> taken(s0, s1, p) || taken(s1, s2, p));
        assert(lists(f1, p) || some_owns(mids, p) <==> some_owns(olds, p) || taken(s0, s1, p));
        assert(lists(f2, p) || some_owns(news, p) <==> some_owns(mids, p) || taken(s1, s2, p));
    }
}

/// Trees that stay as they are while nothing is listed are in balance.
pub proof fn lemma_balance_still(s: PagerState, trees: Seq<Tree>)
    requires
        usable(s),
    ensures
        balanced(s, s, trees, Seq::empty(), trees),
{
    evolves_reflexive(s);
    assert forall|p: u64| !lists(Seq::empty(), p) && !taken(s, s, p) by {
        reveal(taken);
    }
}

/// Trees beside which pages were taken are where they were.
pub proof fn lemma_roots_kept(s: PagerState, s2: PagerState, n: int, roots: Seq<PageId>)
    requires
        usable(s),
        evolves(s, s2, n),
        planted(s, roots),
    ensures
        planted(s2, roots),
        trees_at(s2, roots) == trees_at(s, roots),
{
    assert forall|i: int| 0 <= i < roots.len() implies has_btree(s2, (#[trigger] roots[i]).0)
        && tree_at(s2, roots[i].0) == tree_at(s, roots[i].0) by {
        assert(has_btree(s, roots[i].0));
        snapshots_are_stable(s, s2, n, roots[i].0);
    }
    assert(trees_at(s2, roots) =~= trees_at(s, roots));
}

/// Changes to some trees leave those beside them as they were, and the pages of all
/// of them are in balance.
pub proof fn lemma_balance_beside(
    s: PagerState,
    s2: PagerState,
    n: int,
    still: Seq<PageId>,
    olds: Seq<PageId>,
    news: Seq<PageId>,
    freed: Seq<PageId>,
)
    requires
        usable(s),
        evolves(s, s2, n),
        planted(s, still + olds),
        planted(s2, news),
        balanced(s, s2, trees_at(s, olds), freed, trees_at(s2, news)),
    ensures
        planted(s2, still + news),
        trees_at(s2, still) == trees_at(s, still),
        trees_at(s2, still + news) == trees_at(s, still) + trees_at(s2, news),
        balanced(s, s2, trees_at(s, still + olds), freed, trees_at(s2, still + news)),
{
    let a = trees_at(s, still);
    let b = trees_at(s, olds);
    let c = trees_at(s2, news);
    let before = trees_at(s, still + olds);
    let after = trees_at(s2, still + news);
    let m = still.len() as int;
    assert(before =~= a + b);
    assert(planted(s, still)) by {
        lemma_planted_part(s, still, olds);
    }
    lemma_roots_kept(s, s2, n, still);
    assert(after =~= a + c) by {
        assert forall|i: int| 0 <= i < m implies after[i] == a[i] by {
            assert(trees_at(s2, still)[i] == a[i]);
        }
    }
    lemma_planted(s, still);
    lemma_forest_kept(s, s2, n, a);
    assert forall|p: u64| #[trigger] some_owns(a, p) implies !some_owns(c, p) && !lists(freed, p) by {
        let i = lemma_owner(a, p);
        assert(before[i] == a[i]);
        if some_owns(b, p) {
            let j = lemma_owner(b, p);
            assert(before[m + j] == b[j]);
            lemma_apart(before, i, m + j, p);
        }
        assert(lists(freed, p) || some_owns(c, p) <==> some_owns(b, p) || taken(s, s2, p));
    }
    assert forall|i: int| 0 <= i < (still + news).len() implies has_btree(
        s2,
        (#[trigger] (still + news)[i]).0,
    ) by {
        if i < m {
            assert((still + news)[i] == still[i]);
        } else {
            assert((still + news)[i] == news[i - m]);
        }
    }
    assert(apart(after)) by {
        reveal(apart);
        assert forall|i: int, j: int, p: u64|
            0 <= i < after.len() && 0 <= j < after.len() && i != j && #[trigger] after[i].owns(
                p,
            ) implies !#[trigger] after[j].owns(p) by {
            if after[j].owns(p) {
                if i < m && j < m {
                    lemma_apart(a, i, j, p);
                } else if i >= m && j >= m {
                    lemma_apart(c, i - m, j - m, p);
                } else if i < m {
                    super::grow::lemma_some_owns(a, i, p);
                    super::grow::lemma_some_owns(c, j - m, p);
                } else {
                    super::grow::lemma_some_owns(a, j, p);
                    super::grow::lemma_some_owns(c, i - m, p);
                }
            }
        }
    }
    assert forall|p: u64|
        #![trigger lists(freed, p)]
        #![trigger some_owns(after, p)]
        (lists(freed, p) || some_owns(after, p) <==> some_owns(before, p) || taken(s, s2, p)) && (
        some_owns(after, p) ==> !lists(freed, p)) by {
        lemma_concat_own(a, b, p);
        lemma_concat_own(a, c, p);
        assert(lists(freed, p) || some_owns(c, p) <==> some_owns(b, p) || taken(s, s2, p));
        assert(some_owns(c, p) ==> !lists(freed, p));
    }
}

/// Some of trees that are apart are apart.
pub proof fn lemma_planted_part(s: PagerState, some: Seq<PageId>, rest: Seq<PageId>)
    requires
        planted(s, some + rest),
    ensures
        planted(s, some),
        planted(s, rest),
{
    let all = some + rest;
    let m = some.len() as int;
    assert forall|i: int| 0 <= i < some.len() implies has_btree(s, (#[trigger] some[i]).0) by {
        assert(all[i] == some[i]);
    }
    assert forall|i: int| 0 <= i < rest.len() implies has_btree(s, (#[trigger] rest[i]).0) by {
        assert(all[m + i] == rest[i]);
    }
    assert(trees_at(s, some) =~= trees_at(s, all).take(m));
    assert(trees_at(s, rest) =~= trees_at(s, all).skip(m));
    reveal(apart);
    let trees = trees_at(s, all);
    assert forall|i: int, j: int, p: u64|
        0 <= i < some.len() && 0 <= j < some.len() && i != j && #[trigger] trees_at(
            s,
            some,
        )[i].owns(p) implies !#[trigger] trees_at(s, some)[j].owns(p) by {
        assert(trees[i].owns(p));
        assert(!trees[j].owns(p));
    }
    assert forall|i: int, j: int, p: u64|
        0 <= i < rest.len() && 0 <= j < rest.len() && i != j && #[trigger] trees_at(
            s,
            rest,
        )[i].owns(p) implies !#[trigger] trees_at(s, rest)[j].owns(p) by {
        assert(trees[m + i].owns(p));
        assert(!trees[m + j].owns(p));
    }
}

/// One more tree beside others, on a page that was taken for it.
proof fn lemma_one_more(
    s0: PagerState,
    s: PagerState,
    s2: PagerState,
    n0: int,
    olds: Seq<Tree>,
    roots: Seq<PageId>,
    root: PageId,
)
    requires
        usable(s0),
        evolves(s0, s, n0),
        usable(s),
        evolves(s, s2, 1),
        forest(s0, olds),
        planted(s, roots),
        balanced(s0, s, olds, Seq::empty(), trees_at(s, roots)),
        has_btree(s2, root.0),
        tree_at(s2, root.0) is Leaf,
        forall|p: u64| #[trigger] taken(s, s2, p) <==> p == root.0,
    ensures
        planted(s2, roots.push(root)),
        trees_at(s2, roots.push(root)) == trees_at(s, roots).push(tree_at(s2, root.0)),
        balanced(s0, s2, olds, Seq::empty(), trees_at(s2, roots.push(root))),
{
    let t = tree_at(s2, root.0);
    let trees = trees_at(s, roots);
    let more = roots.push(root);
    let news = trees_at(s2, more);
    let none = Seq::<PageId>::empty();
    lemma_roots_kept(s, s2, 1, roots);
    lemma_planted(s, roots);
    lemma_forest_kept(s, s2, 1, trees);
    assert(news =~= trees.push(t)) by {
        assert forall|i: int| 0 <= i < roots.len() implies news[i] == trees[i] by {
            assert(trees_at(s2, roots)[i] == trees[i]);
        }
    }
    assert(rooted(s2, root.0, t));
    assert(t.id() == root.0);
    assert forall|i: int| 0 <= i < more.len() implies has_btree(s2, (#[trigger] more[i]).0) by {
        if i < roots.len() {
            assert(more[i] == roots[i]);
        }
    }
    assert forall|p: u64| #[trigger]
        some_owns(news, p) <==> some_owns(trees, p) || taken(s, s2, p) by {
        assert(news =~= trees + seq![t]);
        lemma_concat_own(trees, seq![t], p);
        lemma_one_owns(t, p);
        assert(t.owns(p) <==> p == root.0);
    }
    assert(apart(news)) by {
        reveal(apart);
        assert forall|i: int, j: int, p: u64|
            0 <= i < news.len() && 0 <= j < news.len() && i != j && #[trigger] news[i].owns(
                p,
            ) implies !#[trigger] news[j].owns(p) by {
            assert(t.owns(p) <==> p == root.0);
            if i < trees.len() {
                super::grow::lemma_some_owns(trees, i, p);
            }
            if j < trees.len() && news[j].owns(p) {
                super::grow::lemma_some_owns(trees, j, p);
            }
            if i < trees.len() && j < trees.len() {
                assert(trees[i].owns(p));
                lemma_apart(trees, i, j, p);
            }
        }
    }
    assert(balanced(s, s2, trees, none, news)) by {
        assert forall|p: u64| !lists(none, p) by {}
    }
    lemma_balance_joined(s0, s, s2, n0, 1, olds, none, trees, none, news);
    assert(none + none =~= none);
}

/// Create `k` empty trees beside those at `roots`. All roots come back, the new
/// ones last.
pub fn sow<B: IoBackend>(pager: &mut Pager<B>, roots: &Vec<PageId>, k: usize) -> (r: Result<
    Vec<PageId>,
>)
    requires
        ready(*old(pager)),
        usable(old(pager).state()),
        planted(old(pager).state(), roots@),
        roots@.len() + k <= usize::MAX,
        roomy(old(pager).state(), k as int),
    ensures
        final(pager).wf(),
        old(pager).fault_free() ==> final(pager).fault_free(),
        usable(final(pager).state()),
        evolves(old(pager).state(), final(pager).state(), k as int),
        match r {
            Ok(all) => {
                &&& all@.len() == roots@.len() + k
                &&& all@.take(roots@.len() as int) == roots@
                &&& planted(final(pager).state(), all@)
                &&& tallest(trees_at(final(pager).state(), all@)) <= tallest(
                    trees_at(old(pager).state(), roots@),
                ) + 1
                &&& balanced(
                    old(pager).state(),
                    final(pager).state(),
                    trees_at(old(pager).state(), roots@),
                    Seq::empty(),
                    trees_at(final(pager).state(), all@),
                )
                &&& forall|i: int|
                    0 <= i < roots@.len() ==> tree_at(
                        final(pager).state(),
                        (#[trigger] roots@[i]).0,
                    ) == tree_at(old(pager).state(), roots@[i].0)
                &&& forall|i: int|
                    roots@.len() <= i < all@.len() ==> tree_map(
                        tree_at(final(pager).state(), (#[trigger] all@[i]).0),
                    ) == Map::<Seq<u8>, Seq<u8>>::empty()
            },
            Err(e) => refused(old(pager).state().free_list(), old(pager).fault_free(), e),
        },
{
    let ghost s0 = pager.state();
    let ghost ff0 = pager.fault_free();
    let ghost olds = trees_at(s0, roots@);
    let ghost m = roots@.len() as int;
    let mut all = copy_roots(roots);
    proof {
        evolves_reflexive(s0);
        lemma_planted(s0, roots@);
        lemma_balance_still(s0, olds);
        assert(all@.take(m) =~= roots@);
        assert forall|i: int| 0 <= i < all@.len() implies tree_at(
            s0,
            (#[trigger] all@[i]).0,
        ).height() <= tallest(olds) + 1 by {
            lemma_tallest(olds, i);
        }
    }
    let mut i: usize = 0;
    while i < k
        invariant
            i <= k,
            s0 == old(pager).state(),
            ff0 == old(pager).fault_free(),
            olds == trees_at(s0, roots@),
            m == roots@.len(),
            m + k <= usize::MAX,
            usable(s0),
            planted(s0, roots@),
            forest(s0, olds),
            roomy(s0, k as int),
            pager.wf(),
            ff0 ==> pager.fault_free(),
            usable(pager.state()),
            evolves(s0, pager.state(), i as int),
            all@.len() == m + i,
            all@.take(m) == roots@,
            planted(pager.state(), all@),
            balanced(s0, pager.state(), olds, Seq::empty(), trees_at(pager.state(), all@)),
            forall|j: int|
                0 <= j < all@.len() ==> tree_at(
                    pager.state(),
                    (#[trigger] all@[j]).0,
                ).height() <= tallest(olds) + 1,
            forall|j: int|
                m <= j < all@.len() ==> tree_map(
                    tree_at(pager.state(), (#[trigger] all@[j]).0),
                ) == Map::<Seq<u8>, Seq<u8>>::empty(),
        decreases k - i,
    {
        let ghost s = pager.state();
        let ghost ff = pager.fault_free();
        let ghost before = all@;
        proof {
            lemma_evolves_bounds(s0, s, i as int);
        }
        let created = {
            let mut tree = BTree::new(&mut *pager);
            tree.create()
        };
        let ghost s2 = pager.state();
        proof {
            evolves_transitive(s0, s, s2, i as int, 1);
        }
        let root = match created {
            Ok(root) => root,
            Err(e) => {
                proof {
                    lemma_refused_kept(s0, s, i as int, ff0, ff, e);
                    assert(evolves(s0, s2, k as int)) by {
                        reveal(evolves);
                    }
                }
                return Err(e);
            },
        };
        all.push(root);
        proof {
            let t = tree_at(s2, root.0);
            lemma_one_more(s0, s, s2, i as int, olds, before, root);
            assert(all@.take(m) =~= roots@);
            let trees = trees_at(s, before);
            let news = trees_at(s2, all@);
            assert(news == trees.push(t));
            assert(tree_map(t) =~= Map::<Seq<u8>, Seq<u8>>::empty());
            assert forall|j: int| 0 <= j < all@.len() implies tree_at(
                s2,
                (#[trigger] all@[j]).0,
            ).height() <= tallest(olds) + 1 by {
                assert(news[j] == tree_at(s2, all@[j].0));
                if j < before.len() {
                    assert(news[j] == trees[j]);
                    assert(tree_at(s, before[j].0).height() <= tallest(olds) + 1);
                }
            }
            assert forall|j: int| m <= j < all@.len() implies tree_map(
                tree_at(s2, (#[trigger] all@[j]).0),
            ) == Map::<Seq<u8>, Seq<u8>>::empty() by {
                assert(news[j] == tree_at(s2, all@[j].0));
                if j < before.len() {
                    assert(news[j] == trees[j]);
                    assert(tree_map(tree_at(s, before[j].0)) == Map::<Seq<u8>, Seq<u8>>::empty());
                }
            }
        }
        i = i + 1;
    }
    proof {
        lemma_roots_kept(s0, pager.state(), k as int, roots@);
        assert forall|j: int| 0 <= j < roots@.len() implies tree_at(
            pager.state(),
            (#[trigger] roots@[j]).0,
        ) == tree_at(s0, roots@[j].0) by {
            assert(trees_at(pager.state(), roots@)[j] == olds[j]);
        }
        lemma_tallest_most(trees_at(pager.state(), all@), tallest(olds) + 1);
    }
    Ok(all)
}

/// Give up the trees at `gone`, which stand beside those at `kept`: their pages, each
/// once.
pub fn fell<B: IoBackend>(pager: &mut Pager<B>, kept: &Vec<PageId>, gone: &Vec<PageId>) -> (r:
    Result<Vec<PageId>>)
    requires
        ready(*old(pager)),
        usable(old(pager).state()),
        planted(old(pager).state(), kept@ + gone@),
    ensures
        final(pager).wf(),
        final(pager).state() == old(pager).state(),
        old(pager).fault_free() ==> final(pager).fault_free(),
        planted(old(pager).state(), kept@),
        match r {
            Ok(ids) => balanced(
                old(pager).state(),
                old(pager).state(),
                trees_at(old(pager).state(), kept@ + gone@),
                ids@,
                trees_at(old(pager).state(), kept@),
            ),
            Err(e) => !old(pager).fault_free() && e matches BTreeError::Pager(PagerError::Io(_)),
        },
{
    let ghost s = pager.state();
    let ghost trees = trees_at(s, gone@);
    let mut ids: Vec<PageId> = Vec::new();
    proof {
        lemma_planted_part(s, kept@, gone@);
        assert forall|p: u64| !lists(ids@, p) by {}
        assert(trees.take(0) =~= Seq::empty());
        assert forall|p: u64| !some_owns(Seq::empty(), p) by {
            reveal(some_owns);
        }
    }
    let mut i: usize = 0;
    while i < gone.len()
        invariant
            i <= gone@.len(),
            s == old(pager).state(),
            pager.wf(),
            ready(*pager),
            pager.state() == s,
            old(pager).fault_free() ==> pager.fault_free(),
            planted(s, kept@),
            planted(s, gone@),
            trees == trees_at(s, gone@),
            ids@.no_duplicates(),
            forall|p: u64| #[trigger] lists(ids@, p) <==> some_owns(trees.take(i as int), p),
        decreases gone@.len() - i,
    {
        let ghost before = ids@;
        let ghost done = trees.take(i as int);
        let ghost t = trees[i as int];
        assert(has_btree(s, gone@[i as int].0));
        let more = match pages_of(pager, gone[i]) {
            Ok(more) => more,
            Err(e) => {
                return Err(e);
            },
        };
        append(&mut ids, &more);
        proof {
            let now = trees.take(i + 1);
            assert(now =~= done + seq![t]);
            assert forall|p: u64| #[trigger] lists(before, p) implies !lists(more@, p) by {
                let j = lemma_owner(done, p);
                assert(done[j] == trees[j]);
                lemma_apart(trees, j, i as int, p);
            }
            lemma_lists_disjoint(before, more@);
            assert forall|p: u64| #[trigger] lists(ids@, p) <==> some_owns(now, p) by {
                lemma_lists_concat(before, more@, p);
                lemma_concat_own(done, seq![t], p);
                lemma_one_owns(t, p);
            }
        }
        i = i + 1;
    }
    proof {
        let all = trees_at(s, kept@ + gone@);
        let here = trees_at(s, kept@);
        assert(trees.take(i as int) =~= trees);
        assert(all =~= here + trees);
        assert forall|p: u64|
            #![trigger lists(ids@, p)]
            #![trigger some_owns(here, p)]
            (lists(ids@, p) || some_owns(here, p) <==> some_owns(all, p) || taken(s, s, p)) && (
            some_owns(here, p) ==> !lists(ids@, p)) by {
            reveal(taken);
            lemma_concat_own(here, trees, p);
            if some_owns(here, p) && some_owns(trees, p) {
                let a = lemma_owner(here, p);
                let b = lemma_owner(trees, p);
                assert(all[a] == here[a] && all[here.len() + b] == trees[b]);
                lemma_apart(all, a, here.len() + b, p);
            }
        }
    }
    Ok(ids)
}

} // verus!
