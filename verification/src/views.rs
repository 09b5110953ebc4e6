//! What sequences and options of viewed things hold.

use vstd::prelude::*;

verus! {

/// What the elements of a sequence hold.
pub open spec fn views<T: View>(s: Seq<T>) -> Seq<T::V> {
    Seq::new(s.len(), |i: int| s[i]@)
}

/// What an option holds.
pub open spec fn opt<T: View>(o: Option<T>) -> Option<T::V> {
    match o {
        Some(x) => Some(x@),
        None => None,
    }
}

pub proof fn lemma_views_push<T: View>(s: Seq<T>, x: T)
    ensures
        views(s.push(x)) == views(s).push(x@),
{
    assert(views(s.push(x)) =~= views(s).push(x@));
}

pub proof fn lemma_views_empty<T: View>()
    ensures
        views(Seq::<T>::empty()) == Seq::<T::V>::empty(),
{
    assert(views(Seq::<T>::empty()) =~= Seq::<T::V>::empty());
}

/// The values of results that all succeeded, or the first error.
pub open spec fn collect<T, E>(rs: Seq<core::result::Result<T, E>>) -> core::result::Result<Seq<T>, E>
    decreases rs.len(),
{
    if rs.len() == 0 {
        Ok(Seq::empty())
    } else {
        match rs[0] {
            Err(e) => Err(e),
            Ok(x) => match collect(rs.drop_first()) {
                Err(e) => Err(e),
                Ok(xs) => Ok(seq![x] + xs),
            },
        }
    }
}

/// Results that all succeeded give their values.
pub proof fn lemma_collect_ok<T, E>(rs: Seq<core::result::Result<T, E>>, xs: Seq<T>)
    requires
        rs.len() == xs.len(),
        forall|i: int| 0 <= i < rs.len() ==> #[trigger] rs[i] == Ok::<T, E>(xs[i]),
    ensures
        collect(rs) == Ok::<Seq<T>, E>(xs),
    decreases rs.len(),
{
    if rs.len() > 0 {
        assert(rs[0] == Ok::<T, E>(xs[0]));
        assert forall|i: int| 0 <= i < rs.drop_first().len() implies #[trigger] rs.drop_first()[i]
            == Ok::<T, E>(xs.drop_first()[i]) by {
            assert(rs[i + 1] == Ok::<T, E>(xs[i + 1]));
        }
        lemma_collect_ok(rs.drop_first(), xs.drop_first());
        assert(seq![xs[0]] + xs.drop_first() =~= xs);
    } else {
        assert(xs =~= Seq::empty());
    }
}

/// The first error is the error.
pub proof fn lemma_collect_err<T, E>(rs: Seq<core::result::Result<T, E>>, k: int)
    requires
        0 <= k < rs.len(),
        rs[k] is Err,
        forall|i: int| 0 <= i < k ==> #[trigger] rs[i] is Ok,
    ensures
        collect(rs) == Err::<Seq<T>, E>(rs[k]->Err_0),
    decreases k,
{
    if k > 0 {
        assert(rs[0] is Ok);
        assert forall|i: int| 0 <= i < k - 1 implies #[trigger] rs.drop_first()[i] is Ok by {
            assert(rs[i + 1] is Ok);
        }
        lemma_collect_err(rs.drop_first(), k - 1);
    }
}

} // verus!
