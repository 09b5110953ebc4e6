//! Nodes in the page store: reading one, writing one to a fresh page, and what
//! a series of such writes leaves as it was.

use vstd::prelude::*;
use crate::common::io::IoBackend;
use crate::order::ascending;
use crate::pager::page::{finalize_then_verify, page_image, zero_page};
use crate::pager::state::{all_in_range, sturdy, PagerState, Walked, MAX_PAGES};
use crate::pager::{
    Meta, PageId, PageType, Pager, PagerError, FIRST_DATA_PAGE, HEADER_SIZE, PAGE_PAYLOAD_SIZE,
    PAGE_SIZE,
};
use crate::bytes::splice;
use super::error::{BTreeError, Corruption, Result};
use super::model::{image_node, node_read, NodeRead};
use super::node::{decode_view, encodable, encoding_has_its_size, node_round_trip, Node, NodeV, CAP};

verus! {

/// What reading a node may give, `n` being what its page holds.
pub open spec fn node_reads(n: NodeRead, fault_free: bool, r: std::result::Result<NodeV, BTreeError>) -> bool {
    match r {
        Ok(v) => n == NodeRead::Node(v),
        Err(BTreeError::Pager(PagerError::Io(_))) => !fault_free || n is Unbacked,
        Err(e) => n == NodeRead::Fault(e),
    }
}

/// Read page `id` as a node.
pub fn read_node<B: IoBackend>(pager: &mut Pager<B>, id: PageId) -> (r: Result<Node>)
    requires
        old(pager).wf(),
        old(pager).state().meta.page_count <= MAX_PAGES,
    ensures
        final(pager).wf(),
        final(pager).state() == old(pager).state(),
        old(pager).fault_free() ==> final(pager).fault_free(),
        node_reads(node_read(old(pager).state(), id.0), old(pager).fault_free(), decode_view(r)),
{
    match pager.read_page(id) {
        Ok(frame) => {
            let payload = &frame[HEADER_SIZE..PAGE_SIZE];
            Node::decode(payload, id)
        },
        Err(e) => Err(BTreeError::Pager(e)),
    }
}

/// The free page ids that allocation draws on.
pub open spec fn spare(s: PagerState) -> Seq<u64> {
    match s.free_list() {
        Walked::Done(free, _) => free,
        _ => Seq::empty(),
    }
}

/// Whether every free page is a data page that is free once.
pub open spec fn usable(s: PagerState) -> bool {
    &&& spare(s).no_duplicates()
    &&& forall|i: int| 0 <= i < spare(s).len() ==> s.in_range(#[trigger] spare(s)[i])
}

/// Whether page `p` was handed out between `s` and `s2`.
#[verifier::opaque]
pub open spec fn taken(s: PagerState, s2: PagerState, p: u64) -> bool {
    ||| spare(s).contains(p) && !spare(s2).contains(p)
    ||| s.meta.page_count <= p < s2.meta.page_count
}

/// How many pages were handed out between `s` and `s2`.
pub open spec fn handed(s: PagerState, s2: PagerState) -> int {
    spare(s).len() - spare(s2).len() + s2.meta.page_count - s.meta.page_count
}

/// Allocations take the free pages from the end of the list, and new pages only once it
/// is empty: how many there were is all that what is left depends on.
pub proof fn allocations_take_the_free_pages_first(s: PagerState, s2: PagerState, k: int)
    requires
        evolves(s, s2, k),
    ensures
        0 <= handed(s, s2),
        handed(s, s2) <= spare(s).len() ==> spare(s2) == spare(s).take(
            spare(s).len() - handed(s, s2),
        ) && s2.meta.page_count == s.meta.page_count,
        handed(s, s2) > spare(s).len() ==> spare(s2).len() == 0 && s2.meta.page_count
            == s.meta.page_count + handed(s, s2) - spare(s).len(),
{
    reveal(evolves);
    assert(spare(s2) =~= spare(s).take(spare(s2).len() as int));
}

/// Allocations, and writes to what they handed out, leave a sturdy database sturdy.
pub proof fn edits_keep_sturdy(s: PagerState, s2: PagerState, k: int)
    requires
        sturdy(s),
        usable(s),
        evolves(s, s2, k),
        s.meta.page_count >= FIRST_DATA_PAGE,
    ensures
        sturdy(s2),
{
    reveal(evolves);
    assert forall|p: u64| #[trigger] s2.staged.contains_key(p) implies p >= FIRST_DATA_PAGE by {
        if taken(s, s2, p) {
            lemma_taken(s, s2, k, p);
        } else {
            assert(s.staged.contains_key(p));
        }
    }
    if s.free_list() is Done {
        assert(all_in_range(s, s.free_list()->Done_0) && all_in_range(s, s.free_list()->Done_1));
        lemma_usable_kept(s, s2, k);
        assert(all_in_range(s2, s2.free_list()->Done_0)) by {
            assert forall|i: int| 0 <= i < spare(s2).len() implies s2.in_range(
                #[trigger] spare(s2)[i],
            ) by {}
        }
        assert(all_in_range(s2, s2.free_list()->Done_1)) by {
            let trunks = s2.free_list()->Done_1;
            assert forall|i: int| 0 <= i < trunks.len() implies s2.in_range(#[trigger] trunks[i]) by {
                assert(s.in_range(trunks[i]));
            }
        }
    }
}

/// Whether a recording of allocations, where one is on, holds what was handed out
/// between `s` and `s2`: each page once, behind what it held before.
#[verifier::opaque]
pub open spec fn logged(s: PagerState, s2: PagerState) -> bool {
    match (s.log, s2.log) {
        (Some(a), Some(b)) => {
            &&& a.len() <= b.len()
            &&& b.take(a.len() as int) == a
            &&& b.skip(a.len() as int).no_duplicates()
            &&& forall|p: u64| #[trigger]
                taken(s, s2, p) <==> b.skip(a.len() as int).contains(PageId(p))
        },
        (None, None) => true,
        _ => false,
    }
}

proof fn lemma_logged_still(s: PagerState)
    ensures
        logged(s, s),
{
    reveal(logged);
    reveal(taken);
    if let Some(a) = s.log {
        assert(a.take(a.len() as int) =~= a);
        assert(a.skip(a.len() as int) =~= Seq::empty());
    }
}

proof fn lemma_logged_one(s: PagerState, s2: PagerState, id: u64)
    requires
        s2.log == (match s.log {
            Some(l) => Some(l.push(PageId(id))),
            None => None,
        }),
        forall|p: u64| #[trigger] taken(s, s2, p) <==> p == id,
    ensures
        logged(s, s2),
{
    reveal(logged);
    if let Some(a) = s.log {
        let b = a.push(PageId(id));
        let n = a.len() as int;
        assert(b.take(n) =~= a);
        assert(b.skip(n) =~= seq![PageId(id)]);
        assert forall|p: u64| #[trigger] taken(s, s2, p) <==> b.skip(n).contains(PageId(p)) by {
            assert(b.skip(n)[0] == PageId(id));
        }
    }
}

proof fn lemma_logged_joined(a: PagerState, b: PagerState, c: PagerState)
    requires
        logged(a, b),
        logged(b, c),
        forall|p: u64| #[trigger] taken(a, c, p) <==> taken(a, b, p) || taken(b, c, p),
        forall|p: u64| #[trigger] taken(a, b, p) ==> !taken(b, c, p),
    ensures
        logged(a, c),
{
    reveal(logged);
    if let (Some(x), Some(y), Some(z)) = (a.log, b.log, c.log) {
        let n = x.len() as int;
        let first = y.skip(n);
        let then = z.skip(y.len() as int);
        let all = z.skip(n);
        assert(z.take(n) =~= z.take(y.len() as int).take(n));
        assert(all =~= first + then) by {
            assert forall|i: int| 0 <= i < all.len() implies all[i] == (first + then)[i] by {
                if i < first.len() {
                    assert(z.take(y.len() as int)[n + i] == y[n + i]);
                }
            }
        }
        assert forall|p: u64| #[trigger] taken(a, c, p) <==> all.contains(PageId(p)) by {
            let q = PageId(p);
            assert(taken(a, b, p) <==> first.contains(q));
            assert(taken(b, c, p) <==> then.contains(q));
            if all.contains(q) {
                let i = all.index_of(q);
                if i < first.len() {
                    assert(first[i] == q);
                } else {
                    assert(then[i - first.len()] == q);
                }
            }
            if first.contains(q) {
                let i = first.index_of(q);
                assert(all[i] == q);
            }
            if then.contains(q) {
                let i = then.index_of(q);
                assert(all[first.len() + i] == q);
            }
        }
        assert forall|i: int, j: int| 0 <= i < j < all.len() implies all[i] != all[j] by {
            if j < first.len() {
                assert(all[i] == first[i] && all[j] == first[j]);
            } else if i >= first.len() {
                assert(all[i] == then[i - first.len()] && all[j] == then[j - first.len()]);
            } else {
                let p = all[i].0;
                assert(first[i] == PageId(p));
                assert(taken(a, b, p));
                if all[i] == all[j] {
                    assert(then[j - first.len()] == PageId(p));
                    assert(taken(b, c, p));
                }
            }
        }
    }
}

/// Whether `s2` is `s` after allocations, at most `k` of them beyond the
/// high-water mark, and writes to the pages they handed out: nothing else
/// differs.
#[verifier::opaque]
pub open spec fn evolves(s: PagerState, s2: PagerState, k: int) -> bool {
    &&& s2.disk == s.disk
    &&& s2.durable == s.durable
    &&& s2.slot == s.slot
    &&& s2.meta == (Meta { page_count: s2.meta.page_count, ..s.meta })
    &&& s.meta.page_count <= s2.meta.page_count <= s.meta.page_count + k
    &&& (s.free_list() is Done) == (s2.free_list() is Done)
    &&& s.free_list() is Done ==> s2.free_list()->Done_1 == s.free_list()->Done_1
    &&& !(s.free_list() is Done) ==> s2 == s
    &&& spare(s2).is_prefix_of(spare(s))
    &&& s2.meta.page_count > s.meta.page_count ==> spare(s2).len() == 0
    &&& logged(s, s2)
    &&& forall|p: u64|
        !taken(s, s2, p) ==> #[trigger] s2.staged.contains_key(p) == s.staged.contains_key(p) && (
        s.staged.contains_key(p) ==> s2.staged[p] == s.staged[p])
}

/// One thing after another.
pub proof fn evolves_transitive(a: PagerState, b: PagerState, c: PagerState, i: int, j: int)
    requires
        evolves(a, b, i),
        evolves(b, c, j),
        usable(a),
    ensures
        evolves(a, c, i + j),
        usable(b),
        usable(c),
        forall|p: u64| #[trigger] taken(a, c, p) <==> taken(a, b, p) || taken(b, c, p),
        forall|p: u64| #[trigger] taken(a, b, p) ==> !taken(b, c, p),
{
    reveal(taken);
    reveal(evolves);
    lemma_usable_kept(a, b, i);
    lemma_usable_kept(b, c, j);
    let (fa, fb, fc) = (spare(a), spare(b), spare(c));
    assert(fc.is_prefix_of(fa)) by {
        assert(fc =~= fa.subrange(0, fc.len() as int));
    }
    assert forall|p: u64| fc.contains(p) implies fb.contains(p) by {
        let q = fc.index_of(p);
        assert(fb[q] == p);
    }
    assert forall|p: u64| fb.contains(p) implies fa.contains(p) by {
        let q = fb.index_of(p);
        assert(fa[q] == p);
    }
    assert forall|p: u64| fa.contains(p) implies p < a.meta.page_count by {
        let q = fa.index_of(p);
        assert(a.in_range(fa[q]));
    }
    assert forall|p: u64| #[trigger] taken(a, c, p) <==> taken(a, b, p) || taken(b, c, p) by {}
    assert forall|p: u64|
        !taken(a, c, p) implies #[trigger] c.staged.contains_key(p) == a.staged.contains_key(p) && (
    a.staged.contains_key(p) ==> c.staged[p] == a.staged[p]) by {
        assert(!taken(a, b, p) && !taken(b, c, p));
        assert(c.staged.contains_key(p) == b.staged.contains_key(p));
        assert(b.staged.contains_key(p) == a.staged.contains_key(p));
    }
    assert forall|p: u64| #[trigger] taken(a, b, p) implies !taken(b, c, p) by {}
    lemma_logged_joined(a, b, c);
}

/// Nothing at all.
pub proof fn evolves_reflexive(s: PagerState)
    ensures
        evolves(s, s, 0),
        forall|p: u64| !#[trigger] taken(s, s, p),
{
    reveal(taken);
    reveal(evolves);
    lemma_logged_still(s);
    assert(spare(s) =~= spare(s).subrange(0, spare(s).len() as int));
}

proof fn lemma_usable_kept(a: PagerState, b: PagerState, i: int)
    requires
        evolves(a, b, i),
        usable(a),
    ensures
        usable(b),
{
    reveal(taken);
    reveal(evolves);
    let (fa, fb) = (spare(a), spare(b));
    assert forall|k: int| 0 <= k < fb.len() implies b.in_range(#[trigger] fb[k]) by {
        assert(fb[k] == fa[k]);
    }
    assert forall|x: int, y: int| 0 <= x < fb.len() && 0 <= y < fb.len() && x != y implies fb[x]
        != fb[y] by {
        assert(fb[x] == fa[x] && fb[y] == fa[y]);
    }
}

/// The bounds on the high-water mark.
pub proof fn lemma_evolves_bounds(a: PagerState, b: PagerState, i: int)
    requires
        evolves(a, b, i),
    ensures
        a.meta.page_count <= b.meta.page_count <= a.meta.page_count + i,
        (a.free_list() is Done) == (b.free_list() is Done),
        !(a.free_list() is Done) ==> b == a,
        forall|j: int| i <= j ==> #[trigger] evolves(a, b, j),
{
    reveal(evolves);
}

/// A page that was in use keeps its node.
pub proof fn lemma_in_use_kept(a: PagerState, b: PagerState, i: int, p: u64)
    requires
        evolves(a, b, i),
        a.in_range(p),
        !spare(a).contains(p),
    ensures
        node_read(b, p) == node_read(a, p),
        b.in_range(p),
        !spare(b).contains(p),
        !taken(a, b, p),
{
    reveal(taken);
    reveal(evolves);
    if spare(b).contains(p) {
        let q = spare(b).index_of(p);
        assert(spare(a)[q] == p);
    }
    assert(b.staged.contains_key(p) == a.staged.contains_key(p));
}

/// A page that was handed out is a data page in use.
pub proof fn lemma_taken(a: PagerState, b: PagerState, i: int, p: u64)
    requires
        evolves(a, b, i),
        usable(a),
        taken(a, b, p),
        a.meta.page_count >= FIRST_DATA_PAGE,
    ensures
        b.in_range(p),
        !spare(b).contains(p),
{
    reveal(taken);
    reveal(evolves);
    if spare(a).contains(p) {
        let q = spare(a).index_of(p);
        assert(a.in_range(spare(a)[q]));
    }
    if spare(b).contains(p) {
        let q = spare(b).index_of(p);
        assert(spare(a)[q] == p);
        assert(spare(a).contains(p));
        assert(a.in_range(spare(a)[q]));
    }
}

/// Why an allocation is refused, `w` being what the free list reads as.
pub open spec fn refused(w: Walked, fault_free: bool, e: BTreeError) -> bool {
    match e {
        BTreeError::Pager(PagerError::Io(_)) => !fault_free || w is Unbacked,
        BTreeError::Pager(PagerError::Corruption(kind)) => w == Walked::Flaw(kind),
        _ => false,
    }
}

/// What writing the node `n` to a fresh page may come to. `s` is the state
/// before, `s2` the state after.
pub open spec fn stored(
    s: PagerState,
    fault_free: bool,
    n: NodeV,
    r: Result<PageId>,
    s2: PagerState,
) -> bool {
    match s.free_list() {
        Walked::Done(free, trunks) => {
            let s0 = s.with_free(free, trunks);
            let id = s0.next_id();
            let s1 = s0.allocated();
            match r {
                Ok(got) => {
                    &&& got.0 == id
                    &&& s1.in_range(id)
                    &&& n.bytes().len() <= PAGE_PAYLOAD_SIZE
                    &&& s2 == s1.put(id, page_image(PageType::Data, id, n.bytes()))
                },
                Err(BTreeError::Pager(PagerError::Io(_))) => !fault_free && s2 == s,
                Err(e) => s2 == s1 && (if !s1.in_range(id) {
                    e == BTreeError::Pager(
                        PagerError::PageOutOfRange { id, page_count: s1.meta.page_count },
                    )
                } else {
                    n.bytes().len() > PAGE_PAYLOAD_SIZE && e == BTreeError::Pager(
                        PagerError::PayloadTooLarge {
                            len: n.bytes().len() as usize,
                            max: PAGE_PAYLOAD_SIZE,
                        },
                    )
                }),
            }
        },
        w => s2 == s && r is Err && refused(w, fault_free, r->Err_0),
    }
}

/// Write `node` to a fresh page.
pub fn write_node<B: IoBackend>(pager: &mut Pager<B>, node: &Node) -> (r: Result<PageId>)
    requires
        old(pager).wf(),
        old(pager).state().meta.page_count < MAX_PAGES,
        node@.fits_together(),
    ensures
        final(pager).wf(),
        old(pager).fault_free() ==> final(pager).fault_free(),
        final(pager).state().meta.page_count <= old(pager).state().meta.page_count + 1,
        stored(old(pager).state(), old(pager).fault_free(), node@, r, final(pager).state()),
{
    let id = match pager.allocate() {
        Ok(id) => id,
        Err(e) => {
            return Err(BTreeError::Pager(e));
        },
    };
    let bytes = node.encode();
    match pager.write_page(id, PageType::Data, bytes.as_slice()) {
        Ok(_) => Ok(id),
        Err(e) => Err(BTreeError::Pager(e)),
    }
}

/// A node that fits goes to a page that nothing else uses, and reads back from
/// it.
pub proof fn lemma_stored(s: PagerState, fault_free: bool, n: NodeV, r: Result<PageId>, s2: PagerState)
    requires
        stored(s, fault_free, n, r, s2),
        usable(s),
        FIRST_DATA_PAGE <= s.meta.page_count < MAX_PAGES,
        encodable(n),
        ascending(n.keys()),
        n.size() <= CAP,
    ensures
        evolves(s, s2, 1),
        usable(s2),
        r matches Ok(id) ==> {
            &&& node_read(s2, id.0) == NodeRead::Node(n)
            &&& forall|p: u64| #[trigger] taken(s, s2, p) <==> p == id.0
            &&& !spare(s2).contains(id.0)
            &&& s2.in_range(id.0)
            &&& spare(s).contains(id.0) || id.0 >= s.meta.page_count
            &&& handed(s, s2) == 1
        },
        r matches Err(e) ==> s2 == s && refused(s.free_list(), fault_free, e),
        r is Ok ==> s.free_list() is Done,
{
    reveal(taken);
    reveal(evolves);
    evolves_reflexive(s);
    encoding_has_its_size(n);
    if let Walked::Done(free, trunks) = s.free_list() {
        let s0 = s.with_free(free, trunks);
        let id = s0.next_id();
        let s1 = s0.allocated();
        if free.len() > 0 {
            let last = free.len() - 1;
            assert(spare(s)[last] == id);
            assert(s.in_range(id));
            assert(spare(s).contains(id));
            if let Ok(_) = r {
                assert(spare(s2) == free.drop_last());
                assert(spare(s2).is_prefix_of(free)) by {
                    assert(spare(s2) =~= free.subrange(0, spare(s2).len() as int));
                }
                assert forall|p: u64| #[trigger] taken(s, s2, p) <==> p == id by {
                    if free.contains(p) && p != id {
                        let q = free.index_of(p);
                        assert(spare(s2)[q] == p);
                    }
                    if spare(s2).contains(id) {
                        let q = spare(s2).index_of(id);
                        assert(free[q] == id && free[last] == id);
                    }
                }
            }
        } else {
            assert(free =~= Seq::empty());
            if let Ok(_) = r {
                assert(spare(s2) =~= Seq::empty());
                assert(spare(s2).is_prefix_of(free)) by {
                    assert(spare(s2) =~= free.subrange(0, 0));
                }
                assert forall|p: u64| #[trigger] taken(s, s2, p) <==> p == id by {}
            }
        }
        if let Ok(_) = r {
            lemma_image_holds_node(id, n);
            lemma_logged_one(s, s2, id);
            assert(evolves(s, s2, 1));
            lemma_usable_kept(s, s2, 1);
        }
    }
}

/// A data page's image holds the node whose bytes it was written with.
proof fn lemma_image_holds_node(id: u64, n: NodeV)
    requires
        encodable(n),
        ascending(n.keys()),
        n.size() <= CAP,
    ensures
        image_node(page_image(PageType::Data, id, n.bytes()), id) == NodeRead::Node(n),
{
    encoding_has_its_size(n);
    let payload = n.bytes();
    let base = splice(zero_page(), HEADER_SIZE as int, payload);
    finalize_then_verify(base, PageType::Data, id);
    let tail = Seq::new((CAP - payload.len()) as nat, |i: int| 0u8);
    assert(base.subrange(16, PAGE_SIZE as int) =~= payload + tail);
    node_round_trip(n, tail, id);
}

} // verus!
