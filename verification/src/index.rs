//! Secondary index mechanics.
//!
//! A secondary index is an ordinary copy-on-write B+tree whose keys are the
//! order-preserving encoding of the indexed column values; for non-unique
//! indexes the encoded primary key is appended so entries stay distinct. Every
//! entry's value is the base-tree key (the encoded primary key), so resolving an
//! entry to its row is one base lookup.
//!
//! NULL semantics: unique indexes skip rows where any indexed column is NULL, so
//! NULLs never conflict; non-unique indexes hold them.

use vstd::prelude::*;
use crate::btree::delete::delete_in;
use crate::btree::error::BTreeError;
use crate::btree::insert::{
    cell_need, edited, has_btree, insert_in, need_told, roomy, stops_at, whole_or_stuck,
};
use crate::btree::model::{is_tree, tree_at};
use crate::btree::node::MAX_CELL;
use crate::btree::store::{evolves, refused, usable};
use crate::btree::tree::{lookup_in, ready, search_gives, Edit};
use crate::bytes::{push_all, to_vec};
use crate::common::error::{CategorizedError, ErrorCategory};
use crate::common::io::IoBackend;
use crate::order::before;
use crate::pager::{PageId, Pager};
use crate::value::{values, TypeError, Value, ValueV};

verus! {

/// An error of the transaction layer.
#[derive(Debug)]
#[non_exhaustive]
pub enum TxnError {
    /// An error from the B+tree.
    BTree(BTreeError),
    /// An error of its own.
    Own {
        /// The category it belongs to.
        category: ErrorCategory,
        /// What it says.
        text: String,
    },
}

impl CategorizedError for TxnError {
    open spec fn category_of(&self) -> ErrorCategory {
        match self {
            TxnError::BTree(e) => e.category_of(),
            TxnError::Own { category, .. } => *category,
        }
    }

    fn category(&self) -> ErrorCategory {
        match self {
            TxnError::BTree(e) => e.category(),
            TxnError::Own { category, .. } => *category,
        }
    }
}

/// Errors raised by the index layer.
#[derive(Debug)]
#[non_exhaustive]
pub enum IndexError {
    /// An error from the underlying transaction layer.
    Txn(TxnError),
    /// An error from the type/encoding layer.
    Type(TypeError),
}

impl CategorizedError for IndexError {
    open spec fn category_of(&self) -> ErrorCategory {
        match self {
            IndexError::Txn(e) => e.category_of(),
            IndexError::Type(e) => e.category_of(),
        }
    }

    fn category(&self) -> ErrorCategory {
        match self {
            IndexError::Txn(e) => e.category(),
            IndexError::Type(e) => e.category(),
        }
    }
}

/// Result alias for index operations.
pub type Result<T> = std::result::Result<T, IndexError>;

/// One index entry: `key` lives in the index tree, `value` is the encoded
/// primary key of the row it points at.
#[derive(Debug, Clone, PartialEq, Eq)]
pub struct Entry {
    /// The index-tree key (indexed columns, plus the PK suffix when non-unique).
    pub key: Vec<u8>,
    /// The base-tree key (encoded PK).
    pub value: Vec<u8>,
}

/// What an [`Entry`] holds.
#[verifier::ext_equal]
pub struct EntryV {
    pub key: Seq<u8>,
    pub value: Seq<u8>,
}

impl View for Entry {
    type V = EntryV;

    open spec fn view(&self) -> EntryV {
        EntryV { key: self.key@, value: self.value@ }
    }
}

impl Entry {
    /// A copy of the entry.
    pub fn copy(&self) -> (r: Entry)
        ensures
            r@ == self@,
    {
        Entry { key: to_vec(self.key.as_slice()), value: to_vec(self.value.as_slice()) }
    }
}

/// Whether any value is NULL.
pub open spec fn has_null(cols: Seq<ValueV>) -> bool {
    exists|i: int| 0 <= i < cols.len() && #[trigger] cols[i] is Null
}

/// Whether any value is NULL.
pub fn any_null(cols: &Vec<Value>) -> (r: bool)
    ensures
        r == has_null(values(cols@)),
{
    let ghost vs = values(cols@);
    let mut i: usize = 0;
    while i < cols.len()
        invariant
            i <= cols@.len(),
            vs == values(cols@),
            forall|j: int| 0 <= j < i ==> !(#[trigger] vs[j] is Null),
        decreases cols@.len() - i,
    {
        assert(vs[i as int] == cols@[i as int]@);
        if cols[i].is_null() {
            return true;
        }
        i = i + 1;
    }
    false
}

/// The entry a row contributes to one index, `encoded` being the encoding of the
/// indexed column values: none for a unique index and a NULL indexed column.
pub open spec fn entry_of(
    cols: Seq<ValueV>,
    encoded: core::result::Result<Seq<u8>, TypeError>,
    pk_key: Seq<u8>,
    unique: bool,
) -> core::result::Result<Option<EntryV>, IndexError> {
    if unique && has_null(cols) {
        Ok(None)
    } else {
        match encoded {
            Err(e) => Err(IndexError::Type(e)),
            Ok(key) => Ok(
                Some(
                    EntryV {
                        key: if unique {
                            key
                        } else {
                            key + pk_key
                        },
                        value: pk_key,
                    },
                ),
            ),
        }
    }
}

/// A row has an entry in an index unless the index is unique and one of the
/// indexed cells is NULL, however many there are. The entry points at the row and
/// is keyed by the encoding of the cells, with the row's own key behind it where
/// the index is not unique.
pub proof fn entries_are_keyed_by_their_encoding(
    cols: Seq<ValueV>,
    encoded: core::result::Result<Seq<u8>, TypeError>,
    pk_key: Seq<u8>,
    unique: bool,
)
    ensures
        unique && (exists|i: int| 0 <= i < cols.len() && (#[trigger] cols[i]) is Null) ==> entry_of(
            cols,
            encoded,
            pk_key,
            unique,
        ) == Ok::<Option<EntryV>, IndexError>(None),
        !unique || (forall|i: int| 0 <= i < cols.len() ==> !((#[trigger] cols[i]) is Null))
            ==> match entry_of(cols, encoded, pk_key, unique) {
            Ok(Some(e)) => {
                &&& e.value == pk_key
                &&& encoded matches Ok(key) && e.key == if unique {
                    key
                } else {
                    key + pk_key
                }
            },
            Ok(None) => false,
            Err(e) => encoded matches Err(x) && e == IndexError::Type(x),
        },
{
}

/// What an encoding is, by views.
pub open spec fn encoded_view(r: core::result::Result<Vec<u8>, TypeError>) -> core::result::Result<
    Seq<u8>,
    TypeError,
> {
    match r {
        Ok(b) => Ok(b@),
        Err(e) => Err(e),
    }
}

/// Build the entry a row contributes to one index, or `None` if the row has no
/// entry there (a unique index and a NULL indexed column).
///
/// `cols` are the indexed column values in index order, `encoded` what the type
/// layer encodes them to, and `pk_key` the row's encoded primary key.
pub fn entry(
    cols: &Vec<Value>,
    encoded: &std::result::Result<Vec<u8>, TypeError>,
    pk_key: &[u8],
    unique: bool,
) -> (r: Result<Option<Entry>>)
    ensures
        match r {
            Ok(Some(e)) => entry_of(values(cols@), encoded_view(*encoded), pk_key@, unique) == Ok::<
                Option<EntryV>,
                IndexError,
            >(Some(e@)),
            Ok(None) => entry_of(values(cols@), encoded_view(*encoded), pk_key@, unique) == Ok::<
                Option<EntryV>,
                IndexError,
            >(None),
            Err(e) => entry_of(values(cols@), encoded_view(*encoded), pk_key@, unique) == Err::<
                Option<EntryV>,
                IndexError,
            >(e),
        },
{
    if unique && any_null(cols) {
        return Ok(None);
    }
    match encoded {
        Err(e) => Err(IndexError::Type(e.copy())),
        Ok(bytes) => {
            let mut key = to_vec(bytes.as_slice());
            if !unique {
                push_all(&mut key, pk_key);
            }
            Ok(Some(Entry { key, value: to_vec(pk_key) }))
        },
    }
}

/// Whether a byte string starts with `p`.
pub open spec fn starts_with(s: Seq<u8>, p: Seq<u8>) -> bool {
    p.len() <= s.len() && s.take(p.len() as int) == p
}

/// The smallest byte string greater than every string prefixed by `p` (`None`
/// when no such string exists — `p` is all `0xFF`).
pub open spec fn successor_of(p: Seq<u8>) -> Option<Seq<u8>>
    decreases p.len(),
{
    if p.len() == 0 {
        None
    } else if p.last() == 0xFF {
        successor_of(p.drop_last())
    } else {
        Some(p.drop_last().push((p.last() + 1) as u8))
    }
}

/// The smallest byte string greater than every string prefixed by `p` (`None`
/// when no such string exists — `p` is all `0xFF`).
pub fn successor(p: Vec<u8>) -> (r: Option<Vec<u8>>)
    ensures
        match r {
            Some(s) => successor_of(p@) == Some(s@),
            None => successor_of(p@) is None,
        },
{
    let mut s = p;
    while s.len() > 0
        invariant
            successor_of(p@) == successor_of(s@),
        decreases s@.len(),
    {
        let n: usize = s.len();
        let last = s[n - 1];
        let ghost before = s@;
        if last == 0xFF {
            s.pop();
            assert(s@ =~= before.drop_last());
        } else {
            s.set(n - 1, last + 1);
            assert(s@ =~= before.drop_last().push((last + 1) as u8));
            return Some(s);
        }
    }
    None
}

/// The `[lo, hi)` bounds covering every entry whose indexed columns equal those
/// that `encoded` encodes — an exact probe on a unique index, a prefix scan on a
/// non-unique one. `hi = None` means unbounded above (the prefix is all `0xFF`).
pub fn prefix_bounds(encoded: &std::result::Result<Vec<u8>, TypeError>) -> (r: Result<
    (Vec<u8>, Option<Vec<u8>>),
>)
    ensures
        match r {
            Ok((lo, hi)) => encoded_view(*encoded) == Ok::<Seq<u8>, TypeError>(lo@) && (match hi {
                Some(h) => successor_of(lo@) == Some(h@),
                None => successor_of(lo@) is None,
            }),
            Err(e) => match *encoded {
                Err(t) => e == IndexError::Type(t),
                Ok(_) => false,
            },
        },
{
    match encoded {
        Err(e) => Err(IndexError::Type(e.copy())),
        Ok(bytes) => {
            let lo = to_vec(bytes.as_slice());
            let hi = successor(to_vec(bytes.as_slice()));
            Ok((lo, hi))
        },
    }
}

proof fn lemma_before_step(a: Seq<u8>, b: Seq<u8>)
    requires
        a.len() > 0,
        b.len() > 0,
    ensures
        before(a, b) == (a[0] < b[0] || (a[0] == b[0] && before(a.drop_first(), b.drop_first()))),
{
}

/// The bounds of a prefix cover exactly the strings with that prefix: a string
/// has the prefix if and only if it is not before it and is before its
/// successor, if it has one.
pub proof fn bounds_cover_exactly_the_prefix(s: Seq<u8>, p: Seq<u8>)
    ensures
        starts_with(s, p) <==> !before(s, p) && (match successor_of(p) {
            Some(h) => before(s, h),
            None => true,
        }),
    decreases p.len(),
{
    if p.len() == 0 {
        assert(s.take(0) =~= p);
    } else if s.len() == 0 {
        assert(before(s, p));
    } else {
        let s1 = s.drop_first();
        let p1 = p.drop_first();
        bounds_cover_exactly_the_prefix(s1, p1);
        lemma_before_step(s, p);
        assert(starts_with(s, p) <==> s[0] == p[0] && starts_with(s1, p1)) by {
            if starts_with(s, p) {
                assert(s.take(p.len() as int)[0] == p[0]);
                assert(s1.take(p1.len() as int) =~= s.take(p.len() as int).drop_first());
            }
            if s[0] == p[0] && starts_with(s1, p1) {
                assert forall|i: int| 0 <= i < p.len() implies s.take(p.len() as int)[i] == p[i] by {
                    if i > 0 {
                        assert(s1.take(p1.len() as int)[i - 1] == p1[i - 1]);
                    }
                }
                assert(s.take(p.len() as int) =~= p);
            }
        }
        lemma_successor_first(p);
        match successor_of(p1) {
            Some(h1) => {
                let h = seq![p[0]] + h1;
                assert(h.drop_first() =~= h1);
                lemma_before_step(s, h);
            },
            None => {
                if p[0] < 0xFF {
                    let h = seq![(p[0] + 1) as u8];
                    lemma_before_step(s, h);
                    assert(h.drop_first() =~= Seq::empty());
                    assert(!before(s1, Seq::empty()));
                }
            },
        }
    }
}

/// The successor, seen from the front.
proof fn lemma_successor_first(p: Seq<u8>)
    requires
        p.len() > 0,
    ensures
        successor_of(p) == (match successor_of(p.drop_first()) {
            Some(h) => Some(seq![p[0]] + h),
            None => if p[0] < 0xFF {
                Some(seq![(p[0] + 1) as u8])
            } else {
                None
            },
        }),
    decreases p.len(),
{
    let p1 = p.drop_first();
    if p.len() == 1 {
        assert(p1 =~= Seq::empty());
        assert(p.drop_last() =~= Seq::empty());
        reveal_with_fuel(successor_of, 2);
        if p[0] < 0xFF {
            assert(p.drop_last().push((p[0] + 1) as u8) =~= seq![(p[0] + 1) as u8]);
        }
    } else if p.last() == 0xFF {
        lemma_successor_first(p.drop_last());
        assert(p.drop_last().drop_first() =~= p1.drop_last());
    } else {
        assert(seq![p[0]] + p1.drop_last().push((p.last() + 1) as u8) =~= p.drop_last().push(
            (p.last() + 1) as u8,
        ));
    }
}

/// Entries of a non-unique index stay distinct while their rows are.
pub proof fn plain_entries_stay_distinct(
    cols: Seq<ValueV>,
    encoded: Seq<u8>,
    pk1: Seq<u8>,
    pk2: Seq<u8>,
)
    requires
        pk1 != pk2,
    ensures
        ({
            let a = entry_of(cols, Ok(encoded), pk1, false)->Ok_0->Some_0;
            let b = entry_of(cols, Ok(encoded), pk2, false)->Ok_0->Some_0;
            &&& a.key != b.key
            &&& starts_with(a.key, encoded)
            &&& starts_with(b.key, encoded)
        }),
{
    let a = encoded + pk1;
    let b = encoded + pk2;
    assert(a.take(encoded.len() as int) =~= encoded);
    assert(b.take(encoded.len() as int) =~= encoded);
    if a == b {
        assert(pk1 =~= a.skip(encoded.len() as int));
        assert(pk2 =~= b.skip(encoded.len() as int));
    }
}

// --- entries in trees --------------------------------------------------------

/// An error of the tree, as the index layer reports it.
pub open spec fn folded(e: BTreeError) -> IndexError {
    IndexError::Txn(TxnError::BTree(e))
}

fn fold(e: BTreeError) -> (r: IndexError)
    ensures
        r == folded(e),
{
    IndexError::Txn(TxnError::BTree(e))
}

/// Insert `entry` into the index tree at `root`, returning its new root and the pages
/// it no longer needs.
pub fn insert_entry<B: IoBackend>(pager: &mut Pager<B>, root: PageId, entry: &Entry) -> (r: Result<
    Edit,
>)
    requires
        ready(*old(pager)),
        is_tree(old(pager).state(), root.0),
        whole_or_stuck(old(pager).state(), root.0, entry@.key),
        has_btree(old(pager).state(), root.0) ==> usable(old(pager).state()) && roomy(
            old(pager).state(),
            2 * tree_at(old(pager).state(), root.0).height() as int + 1,
        ),
    ensures
        final(pager).wf(),
        old(pager).fault_free() ==> final(pager).fault_free(),
        has_btree(old(pager).state(), root.0) ==> usable(final(pager).state()) && evolves(
            old(pager).state(),
            final(pager).state(),
            2 * tree_at(old(pager).state(), root.0).height() as int + 1,
        ),
        !has_btree(old(pager).state(), root.0) ==> final(pager).state() == old(pager).state(),
        !has_btree(old(pager).state(), root.0) && cell_need(entry@.key, entry@.value)
            <= MAX_CELL ==> r is Err && exists|b: BTreeError| #[trigger]
            folded(b) == r->Err_0 && stops_at(
                tree_at(old(pager).state(), root.0).find(entry@.key),
                old(pager).fault_free(),
                b,
            ),
        cell_need(entry@.key, entry@.value) > MAX_CELL ==> final(pager).state() == old(pager).state()
            && r == Err::<Edit, IndexError>(
            folded(
                BTreeError::EntryTooLarge {
                    entry: need_told(entry@.key, entry@.value),
                    max: MAX_CELL,
                },
            ),
        ),
        has_btree(old(pager).state(), root.0) && cell_need(entry@.key, entry@.value)
            <= MAX_CELL ==> match r {
            Ok(edit) => {
                &&& edited(old(pager).state(), final(pager).state(), root.0, edit)
                &&& forall|k: Seq<u8>| #[trigger]
                    tree_at(final(pager).state(), edit.new_root.0).get(k) == if k == entry@.key {
                        Some(entry@.value)
                    } else {
                        tree_at(old(pager).state(), root.0).get(k)
                    }
            },
            Err(e) => exists|b: BTreeError| #[trigger]
                folded(b) == e && refused(
                    old(pager).state().free_list(),
                    old(pager).fault_free(),
                    b,
                ),
        },
{
    match insert_in(pager, root, entry.key.as_slice(), entry.value.as_slice()) {
        Ok(edit) => Ok(edit),
        Err(e) => Err(fold(e)),
    }
}

/// Remove `entry` from the index tree at `root`, returning its new root and the pages
/// it no longer needs.
pub fn remove_entry<B: IoBackend>(pager: &mut Pager<B>, root: PageId, entry: &Entry) -> (r: Result<
    Edit,
>)
    requires
        ready(*old(pager)),
        is_tree(old(pager).state(), root.0),
        whole_or_stuck(old(pager).state(), root.0, entry@.key),
        has_btree(old(pager).state(), root.0) ==> usable(old(pager).state()) && roomy(
            old(pager).state(),
            4 * tree_at(old(pager).state(), root.0).height() as int + 1,
        ),
    ensures
        final(pager).wf(),
        old(pager).fault_free() ==> final(pager).fault_free(),
        has_btree(old(pager).state(), root.0) ==> usable(final(pager).state()) && evolves(
            old(pager).state(),
            final(pager).state(),
            4 * tree_at(old(pager).state(), root.0).height() as int + 1,
        ),
        !has_btree(old(pager).state(), root.0) ==> final(pager).state() == old(pager).state(),
        !has_btree(old(pager).state(), root.0) ==> r is Err && exists|b: BTreeError| #[trigger]
            folded(b) == r->Err_0 && stops_at(
                tree_at(old(pager).state(), root.0).find(entry@.key),
                old(pager).fault_free(),
                b,
            ),
        has_btree(old(pager).state(), root.0) ==> match r {
            Ok(edit) => {
                &&& edited(old(pager).state(), final(pager).state(), root.0, edit)
                &&& forall|k: Seq<u8>| #[trigger]
                    tree_at(final(pager).state(), edit.new_root.0).get(k) == if k == entry@.key {
                        None
                    } else {
                        tree_at(old(pager).state(), root.0).get(k)
                    }
            },
            Err(e) => exists|b: BTreeError| #[trigger]
                folded(b) == e && refused(
                    old(pager).state().free_list(),
                    old(pager).fault_free(),
                    b,
                ),
        },
{
    match delete_in(pager, root, entry.key.as_slice()) {
        Ok(edit) => Ok(edit),
        Err(e) => Err(fold(e)),
    }
}

/// Probe a unique index for column values, `encoded` being their encoding: the
/// encoded primary key of the row holding them, if any.
pub fn probe_unique<B: IoBackend>(
    pager: &mut Pager<B>,
    root: PageId,
    encoded: &std::result::Result<Vec<u8>, TypeError>,
) -> (r: Result<Option<Vec<u8>>>)
    requires
        ready(*old(pager)),
        is_tree(old(pager).state(), root.0),
    ensures
        final(pager).wf(),
        final(pager).state() == old(pager).state(),
        old(pager).fault_free() ==> final(pager).fault_free(),
        match *encoded {
            Err(e) => r == Err::<Option<Vec<u8>>, IndexError>(IndexError::Type(e)),
            Ok(key) => match r {
                Ok(v) => search_gives(
                    tree_at(old(pager).state(), root.0).find(key@),
                    old(pager).fault_free(),
                    Ok(v),
                ),
                Err(e) => exists|b: BTreeError| #[trigger]
                    folded(b) == e && search_gives(
                        tree_at(old(pager).state(), root.0).find(key@),
                        old(pager).fault_free(),
                        Err(b),
                    ),
            },
        },
{
    match encoded {
        Err(e) => Err(IndexError::Type(e.copy())),
        Ok(key) => match lookup_in(pager, root, key.as_slice()) {
            Ok(v) => Ok(v),
            Err(e) => Err(fold(e)),
        },
    }
}

} // verus!
