//! A series of writes as one transaction: each sees what those before it did, and the
//! first that fails rejects them all.

use vstd::prelude::*;
use crate::pager::PageId;
use crate::value::Value;

verus! {

/// What a write reports.
pub enum Written {
    /// The inserted rows, generated values included.
    Rows(Vec<Vec<Value>>),
    /// The number of rows changed by a conditional update or delete.
    Affected(u64),
}

impl Written {
    /// How many rows were written.
    pub open spec fn count_spec(&self) -> u64 {
        match self {
            Written::Rows(rows) => rows@.len() as u64,
            Written::Affected(n) => *n,
        }
    }

    /// How many rows were written.
    pub fn count(&self) -> (n: u64)
        ensures
            n == self.count_spec(),
    {
        match self {
            Written::Rows(rows) => rows.len() as u64,
            Written::Affected(n) => *n,
        }
    }
}

/// A write that was carried out: the catalog tree that it left, the pages that it
/// superseded, and what it reports.
pub struct Done {
    /// The catalog tree.
    pub catalog: PageId,
    /// The superseded pages.
    pub freed: Vec<PageId>,
    /// The report.
    pub out: Written,
}

/// A series of writes underway.
pub struct Series<E> {
    /// The catalog tree that the series started from.
    pub start: PageId,
    /// The catalog tree that the next write works on.
    pub catalog: PageId,
    /// The pages superseded so far.
    pub freed: Vec<PageId>,
    /// How many rows each write has written, in order.
    pub counts: Vec<u64>,
    /// What the first write that failed failed with.
    pub failed: Option<E>,
}

/// Whether a series has only begun, at the catalog tree `start`.
pub open spec fn begun<E>(a: Series<E>, start: PageId) -> bool {
    &&& a.start == start
    &&& a.catalog == start
    &&& a.freed@.len() == 0
    &&& a.counts@.len() == 0
    &&& a.failed is None
}

/// Whether the outcome of one write makes `b` of the series `a`. A failure puts the series
/// back to where it started; whatever comes after a failure is not looked at.
pub open spec fn moved<E>(a: Series<E>, outcome: Result<Done, E>, b: Series<E>) -> bool {
    &&& b.start == a.start
    &&& if a.failed is Some {
        b.catalog == a.catalog && b.freed@ == a.freed@ && b.counts@ == a.counts@ && b.failed
            == a.failed
    } else {
        match outcome {
            Ok(done) => {
                &&& b.catalog == done.catalog
                &&& b.freed@ == a.freed@ + done.freed@
                &&& b.counts@ == a.counts@.push(done.out.count_spec())
                &&& b.failed is None
            },
            Err(e) => {
                &&& b.catalog == a.start
                &&& b.freed@.len() == 0
                &&& b.counts@ == a.counts@
                &&& b.failed == Some(e)
            },
        }
    }
}

/// What a series comes to: its first failure, or the catalog tree to publish, the pages
/// that it supersedes, and the count of each write.
pub open spec fn settled<E>(a: Series<E>, r: Result<(PageId, Vec<PageId>, Vec<u64>), E>) -> bool {
    match a.failed {
        Some(e) => r == Err::<(PageId, Vec<PageId>, Vec<u64>), E>(e),
        None => r == Ok::<(PageId, Vec<PageId>, Vec<u64>), E>((a.catalog, a.freed, a.counts)),
    }
}

impl<E> Series<E> {
    /// A series of writes on the catalog tree `start`.
    pub fn new(start: PageId) -> (a: Self)
        ensures
            begun(a, start),
    {
        Series { start, catalog: start, freed: Vec::new(), counts: Vec::new(), failed: None }
    }

    /// Take in what came of the next write.
    pub fn step(&mut self, outcome: Result<Done, E>)
        ensures
            moved(*old(self), outcome, *final(self)),
    {
        if self.failed.is_some() {
            return;
        }
        match outcome {
            Ok(done) => {
                let count: u64 = done.out.count();
                let mut freed = done.freed;
                self.catalog = done.catalog;
                self.freed.append(&mut freed);
                self.counts.push(count);
            },
            Err(e) => {
                self.catalog = self.start;
                self.freed = Vec::new();
                self.failed = Some(e);
            },
        }
    }

    /// What the series comes to.
    pub fn finish(self) -> (r: Result<(PageId, Vec<PageId>, Vec<u64>), E>)
        ensures
            settled(self, r),
    {
        match self.failed {
            Some(e) => Err(e),
            None => Ok((self.catalog, self.freed, self.counts)),
        }
    }
}

/// A series is all or nothing. Without a failure it ends with the tree that its last write
/// left, each write having worked on the tree that the one before it left, and reports the
/// count of each write in order. With one it ends where it started, superseding nothing,
/// and the first failure is what it comes to.
pub proof fn series_are_all_or_nothing<E>(
    states: Seq<Series<E>>,
    outcomes: Seq<Result<Done, E>>,
    start: PageId,
    n: nat,
)
    requires
        n <= outcomes.len(),
        states.len() == outcomes.len() + 1,
        begun(states[0], start),
        forall|i: int|
            0 <= i < outcomes.len() ==> #[trigger] moved(states[i], outcomes[i], states[i + 1]),
    ensures
        states[n as int].start == start,
        states[n as int].failed is None ==> {
            &&& forall|i: int| 0 <= i < n ==> (#[trigger] outcomes[i]) is Ok
            &&& states[n as int].catalog == (if n == 0 {
                start
            } else {
                outcomes[n - 1]->Ok_0.catalog
            })
            &&& states[n as int].counts@ == Seq::new(
                n,
                |i: int| outcomes[i]->Ok_0.out.count_spec(),
            )
        },
        states[n as int].failed matches Some(e) ==> {
            &&& states[n as int].catalog == start
            &&& states[n as int].freed@.len() == 0
            &&& exists|i: int|
                0 <= i < n && #[trigger] outcomes[i] == Err::<Done, E>(e) && forall|j: int|
                    0 <= j < i ==> (#[trigger] outcomes[j]) is Ok
        },
    decreases n,
{
    if n > 0 {
        let k = (n - 1) as nat;
        series_are_all_or_nothing(states, outcomes, start, k);
        assert(moved(states[k as int], outcomes[k as int], states[k as int + 1]));
        let (a, b) = (states[k as int], states[n as int]);
        if b.failed is None {
            assert(b.counts@ =~= Seq::new(n, |i: int| outcomes[i]->Ok_0.out.count_spec()));
        } else if a.failed is None {
            assert(outcomes[k as int] == Err::<Done, E>(b.failed->0));
        } else {
            let e = a.failed->0;
            let i = choose|i: int|
                0 <= i < k && #[trigger] outcomes[i] == Err::<Done, E>(e) && forall|j: int|
                    0 <= j < i ==> (#[trigger] outcomes[j]) is Ok;
            assert(0 <= i < n && outcomes[i] == Err::<Done, E>(e));
        }
    }
}

/// A series without a failure supersedes what its writes superseded, each page of each of
/// them, one write after the other; a write counts the rows that it gave back, or says how
/// many it changed.
pub proof fn series_supersede_what_their_writes_did<E>(
    states: Seq<Series<E>>,
    outcomes: Seq<Result<Done, E>>,
    start: PageId,
    n: nat,
)
    requires
        n <= outcomes.len(),
        states.len() == outcomes.len() + 1,
        begun(states[0], start),
        forall|i: int|
            0 <= i < outcomes.len() ==> #[trigger] moved(states[i], outcomes[i], states[i + 1]),
        states[n as int].failed is None,
    ensures
        forall|i: int, k: int|
            0 <= i < n && 0 <= k < outcomes[i]->Ok_0.freed@.len() ==> states[n as int].freed@.contains(
                #[trigger] outcomes[i]->Ok_0.freed@[k],
            ),
        forall|k: int|
            0 <= k < states[n as int].freed@.len() ==> is_freed(
                outcomes,
                n,
                #[trigger] states[n as int].freed@[k],
            ),
        forall|i: int|
            0 <= i < n ==> match (#[trigger] outcomes[i])->Ok_0.out {
                Written::Rows(rows) => rows@.len() <= u64::MAX ==> states[n as int].counts@[i]
                    == rows@.len(),
                Written::Affected(m) => states[n as int].counts@[i] == m,
            },
    decreases n,
{
    series_are_all_or_nothing(states, outcomes, start, n);
    if n > 0 {
        let l = n - 1;
        assert(moved(states[l], outcomes[l], states[l + 1]));
        let (a, b) = (states[l], states[n as int]);
        series_supersede_what_their_writes_did(states, outcomes, start, l as nat);
        let own = outcomes[l]->Ok_0.freed@;
        assert(b.freed@ == a.freed@ + own);
        assert forall|i: int, k: int|
            0 <= i < n && 0 <= k < outcomes[i]->Ok_0.freed@.len() implies b.freed@.contains(
            #[trigger] outcomes[i]->Ok_0.freed@[k],
        ) by {
            let page = outcomes[i]->Ok_0.freed@[k];
            if i < l {
                assert(a.freed@.contains(page));
                let j = a.freed@.index_of(page);
                assert(b.freed@[j] == page);
            } else {
                assert(b.freed@[a.freed@.len() + k] == page);
            }
        }
        assert forall|k: int| 0 <= k < b.freed@.len() implies is_freed(
            outcomes,
            n,
            #[trigger] b.freed@[k],
        ) by {
            if k < a.freed@.len() {
                assert(is_freed(outcomes, l as nat, a.freed@[k]));
            } else {
                assert(own.contains(own[k - a.freed@.len()]));
                assert(0 <= l < n && outcomes[l]->Ok_0.freed@.contains(b.freed@[k]));
            }
        }
    }
}

/// Whether one of the first `n` writes superseded this page.
pub open spec fn is_freed<E>(outcomes: Seq<Result<Done, E>>, n: nat, page: PageId) -> bool {
    exists|i: int| 0 <= i < n && (#[trigger] outcomes[i])->Ok_0.freed@.contains(page)
}

} // verus!
