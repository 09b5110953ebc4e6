//! The paging cursor: how a walk over a pinned snapshot is cut into pages.
//!
//! A cursor asks for one page after the other. Each request is the planned select,
//! resumed from the last continuation token and limited to the page size; the page
//! that comes back tells whether the walk goes on.

use vstd::prelude::*;
use crate::bytes::to_vec;
use crate::proto::ir::Plan;
use crate::proto::result::QueryResult;
use crate::value::Value;
use crate::views::{opt, views};
use super::error::{Error, Result};
use super::result::Response;

verus! {

/// A page as the executor gives it.
#[derive(Debug, PartialEq, Eq)]
pub struct Page {
    /// The output column names.
    pub columns: Vec<String>,
    /// The rows.
    pub rows: Vec<Vec<Value>>,
    /// A continuation token when more pages remain.
    pub cursor: Option<Vec<u8>>,
}

/// A forward-only pager over a pinned snapshot. Fetch pages until there is no
/// continuation token.
#[derive(Debug, PartialEq, Eq)]
pub struct Cursor {
    /// Rows per page.
    pub page_size: u64,
    /// The continuation token for the next page, if any.
    pub token: Option<Vec<u8>>,
    /// The output column labels.
    pub columns: Vec<String>,
    /// Whether the walk has reached the end.
    pub done: bool,
}

/// Whether a plan is `base`, resumed from a token if there is one, and limited to a
/// page.
pub open spec fn is_page_plan(plan: Plan, base: Plan, token: Option<Seq<u8>>, page_size: u64) -> bool {
    match plan {
        Plan::Limit { input, limit, offset } => {
            &&& limit == Some(page_size)
            &&& offset == 0
            &&& match token {
                None => *input == base,
                Some(t) => match *input {
                    Plan::Cursor { input, token } => *input == base && token@ == t,
                    _ => false,
                },
            }
        },
        _ => false,
    }
}

/// Whether a response is the page after the last of `c`: empty, with no continuation token.
pub open spec fn is_past_the_end(c: Cursor, r: Response) -> bool {
    &&& views(r.inner.columns@) == views(c.columns@)
    &&& r.inner.rows@.len() == 0
    &&& r.inner.cursor is None
    &&& r.inner.applied is None
    &&& r.inner.affected is None
}

/// Whether taking in `page` makes `d` of `c`, answered by `r`.
pub open spec fn took_in(c: Cursor, page: Page, d: Cursor, r: Response) -> bool {
    &&& d.page_size == c.page_size
    &&& d.columns == c.columns
    &&& page.cursor is Some ==> opt(d.token) == opt(page.cursor) && d.done == c.done
    &&& page.cursor is None ==> d.token == c.token && d.done
    &&& r.inner.columns == page.columns
    &&& r.inner.rows == page.rows
    &&& r.inner.cursor == page.cursor
    &&& r.inner.applied is None
    &&& r.inner.affected is None
}

/// Whether a fetch makes `d` of `c`, answered by `r`, `page` being what the executor gives
/// for the plan of the next page. Once the walk is done no page is asked for.
pub open spec fn fetched(c: Cursor, page: Page, d: Cursor, r: Response) -> bool {
    if c.done {
        d == c && is_past_the_end(c, r)
    } else {
        took_in(c, page, d, r)
    }
}

/// The row that a page resumes at, `at` telling what row a token stands for.
pub open spec fn resume_at(token: Option<Seq<u8>>, at: spec_fn(Seq<u8>) -> int) -> int {
    match token {
        None => 0,
        Some(t) => at(t),
    }
}

/// Whether `page` holds the rows of `all` from the `from`th on, as many as a page takes,
/// with a token for the row after them, which may be missing only where there is none.
pub open spec fn is_page_of(
    page: Page,
    all: Seq<Vec<Value>>,
    from: int,
    page_size: u64,
    at: spec_fn(Seq<u8>) -> int,
) -> bool {
    let to = if from + page_size < all.len() {
        from + page_size
    } else {
        all.len() as int
    };
    &&& page.rows@ == all.subrange(from, to)
    &&& match page.cursor {
        Some(t) => at(t@) == to,
        None => to == all.len(),
    }
}

/// The rows of the first `n` responses, one after the other.
pub open spec fn rows_of(responses: Seq<Response>, n: nat) -> Seq<Vec<Value>>
    decreases n,
{
    if n == 0 {
        Seq::empty()
    } else {
        rows_of(responses, (n - 1) as nat) + responses[n - 1].inner.rows@
    }
}

/// Fetching over and over gives the rows of a snapshot in their order, none left out and
/// none twice: after `n` fetches, the first `n` pages of them. The walk is done as soon as
/// a page carries no token, and only then; all the rows have been given by then, and what
/// is fetched after that is empty.
///
/// `pages` are what the executor gives for the plans that the cursor asks with, `all` the
/// rows of the select over the snapshot.
pub proof fn paging_gives_each_row_once(
    cursors: Seq<Cursor>,
    pages: Seq<Page>,
    responses: Seq<Response>,
    all: Seq<Vec<Value>>,
    at: spec_fn(Seq<u8>) -> int,
    n: nat,
)
    requires
        n <= pages.len(),
        cursors.len() == pages.len() + 1,
        responses.len() == pages.len(),
        cursors[0].page_size > 0,
        cursors[0].token is None,
        !cursors[0].done,
        forall|i: int|
            0 <= i < pages.len() ==> #[trigger] fetched(
                cursors[i],
                pages[i],
                cursors[i + 1],
                responses[i],
            ) && (!cursors[i].done ==> is_page_of(
                pages[i],
                all,
                resume_at(opt(cursors[i].token), at),
                cursors[0].page_size,
                at,
            )),
    ensures
        cursors[n as int].page_size == cursors[0].page_size,
        rows_of(responses, n) == if n * cursors[0].page_size < all.len() {
            all.take(n * cursors[0].page_size)
        } else {
            all
        },
        cursors[n as int].done ==> rows_of(responses, n) == all,
        cursors[n as int].done <==> exists|i: int|
            0 <= i < n && (#[trigger] responses[i]).inner.cursor is None,
        !cursors[n as int].done ==> (forall|i: int|
            0 <= i < n ==> (#[trigger] pages[i]).cursor is Some && responses[i].inner.rows
                == pages[i].rows),
        n < pages.len() && cursors[n as int].done ==> responses[n as int].inner.rows@.len() == 0
            && cursors[n as int + 1].done,
        !cursors[n as int].done ==> resume_at(opt(cursors[n as int].token), at) == (if n
            * cursors[0].page_size < all.len() {
            n * cursors[0].page_size
        } else {
            all.len() as int
        }),
    decreases n,
{
    let size = cursors[0].page_size as int;
    if n == 0 {
        assert(all.take(0) =~= Seq::empty());
        if all.len() == 0 {
            assert(all =~= Seq::empty());
        }
    } else {
        let k = (n - 1) as nat;
        paging_gives_each_row_once(cursors, pages, responses, all, at, k);
        assert(fetched(cursors[k as int], pages[k as int], cursors[k as int + 1], responses[k as int]));
        assert(n * size == k * size + size) by (nonlinear_arith)
            requires
                n == k + 1,
        ;
        assert(k * size >= 0) by (nonlinear_arith)
            requires
                size > 0,
                k >= 0,
        ;
        let before = rows_of(responses, k);
        let here = responses[k as int].inner.rows@;
        if cursors[k as int].done {
            assert(before + here =~= before);
            let i = choose|i: int| 0 <= i < k && (#[trigger] responses[i]).inner.cursor is None;
            assert(0 <= i < n);
        } else {
            let from = if k * size < all.len() {
                k * size
            } else {
                all.len() as int
            };
            let to = if from + size < all.len() {
                from + size
            } else {
                all.len() as int
            };
            assert(before =~= all.take(from));
            assert(all.take(from) + all.subrange(from, to) =~= all.take(to));
            if to == all.len() {
                assert(all.take(to) =~= all);
            }
            assert(responses[k as int].inner.cursor == pages[k as int].cursor);
        }
    }
    if n < pages.len() {
        assert(fetched(cursors[n as int], pages[n as int], cursors[n as int + 1], responses[n as int]));
    }
}

/// The rows that a plan gives, `source` telling what those plans give that do not cut
/// rows off: a limit drops as many rows as its offset says and takes as many of the rest
/// as it allows, and a resumed plan goes on at the row that its token stands for.
pub open spec fn given(
    plan: Plan,
    source: spec_fn(Plan) -> Seq<Vec<Value>>,
    at: spec_fn(Seq<u8>) -> int,
) -> Seq<Vec<Value>>
    decreases plan,
{
    match plan {
        Plan::Limit { input, limit, offset } => {
            let rows = given(*input, source, at);
            let rest = if offset < rows.len() {
                rows.skip(offset as int)
            } else {
                Seq::empty()
            };
            match limit {
                Some(n) => if n < rest.len() {
                    rest.take(n as int)
                } else {
                    rest
                },
                None => rest,
            }
        },
        Plan::Cursor { input, token } => {
            let rows = given(*input, source, at);
            if 0 <= at(token@) <= rows.len() {
                rows.skip(at(token@))
            } else {
                Seq::empty()
            }
        },
        _ => source(plan),
    }
}

/// The plan of a page gives the rows of the select from where the page resumes, as many
/// as a page takes, or all that are left.
pub proof fn page_plans_give_the_next_rows(
    plan: Plan,
    base: Plan,
    token: Option<Seq<u8>>,
    page_size: u64,
    source: spec_fn(Plan) -> Seq<Vec<Value>>,
    at: spec_fn(Seq<u8>) -> int,
)
    requires
        is_page_plan(plan, base, token, page_size),
        token matches Some(t) ==> 0 <= at(t) <= given(base, source, at).len(),
    ensures
        ({
            let all = given(base, source, at);
            let from = match token {
                None => 0,
                Some(t) => at(t),
            };
            let got = given(plan, source, at);
            &&& got.len() == if from + page_size < all.len() {
                page_size as int
            } else {
                all.len() - from
            }
            &&& forall|i: int| 0 <= i < got.len() ==> #[trigger] got[i] == all[from + i]
        }),
{
    reveal_with_fuel(given, 3);
    if let Plan::Limit { input, limit, offset } = plan {
        let all = given(base, source, at);
        assert(all.skip(0) =~= all);
        let rest = given(*input, source, at);
        assert(rest.skip(0) =~= rest);
    }
}

/// Whether page `i` is what the executor gives for the plan that the cursor asks with: its
/// rows are those of the plan, and its token stands for the row after them, and may be
/// missing only where there is none.
pub open spec fn is_answer(
    c: Cursor,
    plan: Plan,
    page: Page,
    base: Plan,
    source: spec_fn(Plan) -> Seq<Vec<Value>>,
    at: spec_fn(Seq<u8>) -> int,
) -> bool {
    let to = resume_at(opt(c.token), at) + page.rows@.len();
    &&& is_page_plan(plan, base, opt(c.token), c.page_size)
    &&& page.rows@ == given(plan, source, at)
    &&& match page.cursor {
        Some(t) => at(t@) == to,
        None => to == given(base, source, at).len(),
    }
}

/// A cursor that asks with its plans and takes in what they give goes through the rows of
/// the select in their order, none left out and none twice; once it is done, it has given
/// all of them.
pub proof fn asking_page_by_page_gives_each_row_once(
    cursors: Seq<Cursor>,
    plans: Seq<Plan>,
    pages: Seq<Page>,
    responses: Seq<Response>,
    base: Plan,
    source: spec_fn(Plan) -> Seq<Vec<Value>>,
    at: spec_fn(Seq<u8>) -> int,
    n: nat,
)
    requires
        n <= pages.len(),
        cursors.len() == pages.len() + 1,
        plans.len() == pages.len(),
        responses.len() == pages.len(),
        cursors[0].page_size > 0,
        cursors[0].token is None,
        !cursors[0].done,
        forall|i: int|
            0 <= i < pages.len() ==> #[trigger] fetched(
                cursors[i],
                pages[i],
                cursors[i + 1],
                responses[i],
            ) && (!cursors[i].done ==> is_answer(
                cursors[i],
                plans[i],
                pages[i],
                base,
                source,
                at,
            )),
    ensures
        rows_of(responses, n) == if n * cursors[0].page_size < given(base, source, at).len() {
            given(base, source, at).take(n * cursors[0].page_size)
        } else {
            given(base, source, at)
        },
        cursors[n as int].done ==> rows_of(responses, n) == given(base, source, at),
{
    let all = given(base, source, at);
    assert forall|i: int| 0 <= i < pages.len() implies #[trigger] fetched(
        cursors[i],
        pages[i],
        cursors[i + 1],
        responses[i],
    ) && (!cursors[i].done ==> is_page_of(
        pages[i],
        all,
        resume_at(opt(cursors[i].token), at),
        cursors[0].page_size,
        at,
    )) by {
        assert(fetched(cursors[i], pages[i], cursors[i + 1], responses[i]));
        if !cursors[i].done {
            lemma_resumes(cursors, plans, pages, responses, base, source, at, i as nat);
            lemma_answers(cursors[i], plans[i], pages[i], base, source, at);
        }
    }
    paging_gives_each_row_once(cursors, pages, responses, all, at, n);
}

proof fn lemma_answers(
    c: Cursor,
    plan: Plan,
    page: Page,
    base: Plan,
    source: spec_fn(Plan) -> Seq<Vec<Value>>,
    at: spec_fn(Seq<u8>) -> int,
)
    requires
        is_answer(c, plan, page, base, source, at),
        0 <= resume_at(opt(c.token), at) <= given(base, source, at).len(),
    ensures
        is_page_of(
            page,
            given(base, source, at),
            resume_at(opt(c.token), at),
            c.page_size,
            at,
        ),
{
    let all = given(base, source, at);
    let from = resume_at(opt(c.token), at);
    let to = if from + c.page_size < all.len() {
        from + c.page_size
    } else {
        all.len() as int
    };
    page_plans_give_the_next_rows(plan, base, opt(c.token), c.page_size, source, at);
    assert(given(plan, source, at) =~= all.subrange(from, to));
}

proof fn lemma_resumes(
    cursors: Seq<Cursor>,
    plans: Seq<Plan>,
    pages: Seq<Page>,
    responses: Seq<Response>,
    base: Plan,
    source: spec_fn(Plan) -> Seq<Vec<Value>>,
    at: spec_fn(Seq<u8>) -> int,
    k: nat,
)
    requires
        k < pages.len(),
        cursors.len() == pages.len() + 1,
        plans.len() == pages.len(),
        responses.len() == pages.len(),
        cursors[0].token is None,
        forall|i: int|
            0 <= i < pages.len() ==> #[trigger] fetched(
                cursors[i],
                pages[i],
                cursors[i + 1],
                responses[i],
            ) && (!cursors[i].done ==> is_answer(
                cursors[i],
                plans[i],
                pages[i],
                base,
                source,
                at,
            )),
    ensures
        cursors[k as int].page_size == cursors[0].page_size,
        !cursors[k as int].done ==> 0 <= resume_at(opt(cursors[k as int].token), at) <= given(
            base,
            source,
            at,
        ).len(),
    decreases k,
{
    if k > 0 {
        let j = k - 1;
        lemma_resumes(cursors, plans, pages, responses, base, source, at, j as nat);
        assert(fetched(cursors[j], pages[j], cursors[j + 1], responses[j]));
        if !cursors[j].done {
            lemma_answers(cursors[j], plans[j], pages[j], base, source, at);
        }
    }
}

impl Cursor {
    /// Start a walk with this page size over a select with these output columns.
    pub fn open(columns: Vec<String>, page_size: u64) -> (r: Result<Self>)
        ensures
            match r {
                Ok(c) => page_size > 0 && c.page_size == page_size && c.token is None && c.columns
                    == columns && !c.done,
                Err(Error::Usage(m)) => page_size == 0 && m@
                    == "cursor page size must be at least 1"@,
                Err(_) => false,
            },
    {
        if page_size == 0 {
            return Err(Error::Usage("cursor page size must be at least 1"));
        }
        Ok(Cursor { page_size, token: None, columns, done: false })
    }

    /// The output column labels of the paged query.
    pub fn columns(&self) -> (r: &Vec<String>)
        ensures
            *r == self.columns,
    {
        &self.columns
    }

    /// Whether every page has been fetched.
    pub fn is_done(&self) -> (r: bool)
        ensures
            r == self.done,
    {
        self.done
    }

    /// The plan of the next page: `base`, resumed and limited.
    pub fn page_plan(&self, base: Plan) -> (r: Plan)
        ensures
            is_page_plan(r, base, opt(self.token), self.page_size),
    {
        let input = match &self.token {
            Some(token) => Plan::Cursor { input: Box::new(base), token: to_vec(token.as_slice()) },
            None => base,
        };
        Plan::Limit { input: Box::new(input), limit: Some(self.page_size), offset: 0 }
    }

    /// Fetch the next page, given what the executor gave for its plan. When the walk is
    /// exhausted no page is needed, and this returns an empty page with no continuation
    /// token; further calls keep returning empty.
    pub fn fetch(&mut self, page: Option<Page>) -> (r: Response)
        requires
            old(self).done || page is Some,
        ensures
            fetched(*old(self), page->0, *final(self), r),
    {
        if self.done {
            return self.past_the_end();
        }
        match page {
            Some(page) => self.accept(page),
            None => self.past_the_end(),
        }
    }

    /// The page after the last: empty, with no continuation token.
    fn past_the_end(&self) -> (r: Response)
        ensures
            is_past_the_end(*self, r),
    {
        Response::new(
            QueryResult {
                columns: crate::catalog::schema::copy_names(&self.columns),
                rows: Vec::new(),
                cursor: None,
                applied: None,
                affected: None,
            },
        )
    }

    /// Take in a fetched page: its token is where the next one resumes, and without one
    /// the walk is done.
    fn accept(&mut self, page: Page) -> (r: Response)
        ensures
            took_in(*old(self), page, *final(self), r),
    {
        match &page.cursor {
            Some(token) => {
                self.token = Some(to_vec(token.as_slice()));
            },
            None => {
                self.done = true;
            },
        }
        Response::new(
            QueryResult {
                columns: page.columns,
                rows: page.rows,
                cursor: page.cursor,
                applied: None,
                affected: None,
            },
        )
    }
}

} // verus!
