//! What the catalog names: the trees of every table, whatever is done to them.

use vstd::prelude::*;
use super::apply::{base_after, Roots};
use super::error::{CatalogCorruption, CatalogError, CatalogErrorV, Result};
use super::store::{load_root, root_of, roots_round_trip};
use super::tables::{fill_entries, gone_entries, table_entries, unindexed_entries, IndexFill};
use super::trees::{index_entries, row_entries, Site, TableKeys};
use crate::btree::durable::{
    committed_trees_are_read_back, committed_trees_can_be_changed_again,
    crashes_spare_committed_trees,
};
use crate::btree::grove::{planted, tree_map, trees_at};
use crate::btree::insert::{has_btree, stops_at};
use crate::btree::model::{is_tree, tree_at, Found, Tree};
use crate::btree::store::{evolves, usable};
use crate::btree::tree::{lookup_in, ready};
use crate::btree::BTreeError;
use crate::bytes::le_bytes;
use crate::common::io::{written, IoBackend};
use crate::pager::laws::free_list_ok;
use crate::pager::meta::{recordable, Meta};
use crate::pager::page::sound;
use crate::pager::pager::reopened;
use crate::pager::state::{flushed, kept_outside, meta_image, slots_unstaged, PagerState};
use crate::pager::{PageId, Pager, PagerError, FIRST_DATA_PAGE, PAGE_SIZE};
use crate::views::views;

verus! {

/// Whether a catalog tree that holds `m` names the trees of a table.
pub open spec fn names(m: Map<Seq<u8>, Seq<u8>>, keys: TableKeys, roots: Roots) -> bool {
    &&& m.contains_key(keys.root@)
    &&& root_of(m[keys.root@]) == Ok::<PageId, CatalogErrorV>(roots.data)
    &&& keys.indexes@.len() == roots.indexes@.len()
    &&& forall|i: int|
        0 <= i < keys.indexes@.len() ==> m.contains_key((#[trigger] keys.indexes@[i])@) && root_of(
            m[keys.indexes@[i]@],
        ) == Ok::<PageId, CatalogErrorV>(roots.indexes@[i])
}

/// Whether no two entries of a table have the same key.
pub open spec fn keys_differ(keys: TableKeys) -> bool {
    &&& keys.root@ != keys.seq@ && keys.root@ != keys.table@ && keys.seq@ != keys.table@
    &&& forall|i: int|
        0 <= i < keys.indexes@.len() ==> (#[trigger] keys.indexes@[i])@ != keys.root@
            && keys.indexes@[i]@ != keys.seq@ && keys.indexes@[i]@ != keys.table@
    &&& forall|i: int, j: int|
        0 <= i < j < keys.indexes@.len() ==> (#[trigger] keys.indexes@[i])@ != (
        #[trigger] keys.indexes@[j])@
}

proof fn lemma_base_concat(
    m: Map<Seq<u8>, Seq<u8>>,
    a: Seq<(Seq<u8>, Option<Seq<u8>>)>,
    b: Seq<(Seq<u8>, Option<Seq<u8>>)>,
)
    ensures
        base_after(m, a + b) == base_after(base_after(m, a), b),
    decreases b.len(),
{
    if b.len() == 0 {
        assert(a + b =~= a);
    } else {
        assert((a + b).drop_last() =~= a + b.drop_last());
        lemma_base_concat(m, a, b.drop_last());
    }
}

proof fn lemma_base_one(m: Map<Seq<u8>, Seq<u8>>, k: Seq<u8>, v: Option<Seq<u8>>)
    ensures
        base_after(m, seq![(k, v)]) == match v {
            Some(b) => m.insert(k, b),
            None => m.remove(k),
        },
{
    reveal_with_fuel(base_after, 2);
    assert(seq![(k, v)].drop_last() =~= Seq::empty());
}

/// Whether the root entry of an index among `keys` that is to be recorded has this
/// key.
spec fn is_recorded(keys: Seq<Seq<u8>>, record: Seq<bool>, k: Seq<u8>) -> bool {
    exists|i: int| 0 <= i < keys.len() && record[i] && #[trigger] keys[i] == k
}

proof fn lemma_index_entries(
    m: Map<Seq<u8>, Seq<u8>>,
    keys: Seq<Seq<u8>>,
    roots: Seq<PageId>,
    record: Seq<bool>,
)
    requires
        keys.no_duplicates(),
    ensures
        forall|i: int|
            0 <= i < keys.len() && record[i] ==> base_after(
                m,
                index_entries(keys, roots, record),
            ).contains_key(#[trigger] keys[i]) && base_after(
                m,
                index_entries(keys, roots, record),
            )[keys[i]] == le_bytes(roots[i].0 as nat, 8),
        forall|k: Seq<u8>|
            !is_recorded(keys, record, k) && m.contains_key(k) ==> #[trigger] base_after(
                m,
                index_entries(keys, roots, record),
            ).contains_key(k) && base_after(m, index_entries(keys, roots, record))[k] == m[k],
    decreases keys.len(),
{
    if keys.len() > 0 {
        let fewer = keys.drop_last();
        let last = keys.len() - 1;
        let rest = base_after(m, index_entries(fewer, roots, record));
        let all = base_after(m, index_entries(keys, roots, record));
        assert(fewer.no_duplicates());
        lemma_index_entries(m, fewer, roots, record);
        if record[last] {
            let es = index_entries(keys, roots, record);
            assert(es.drop_last() =~= index_entries(fewer, roots, record));
            assert(es.last() == (keys[last], Some(le_bytes(roots[last].0 as nat, 8))));
            assert(all == rest.insert(keys[last], le_bytes(roots[last].0 as nat, 8)));
        }
        assert forall|i: int| 0 <= i < keys.len() && record[i] implies all.contains_key(
            #[trigger] keys[i],
        ) && all[keys[i]] == le_bytes(roots[i].0 as nat, 8) by {
            if i < last {
                assert(fewer[i] == keys[i]);
                assert(keys[i] != keys[last]);
            }
        }
        assert forall|k: Seq<u8>|
            !is_recorded(keys, record, k) && m.contains_key(k) implies #[trigger] all.contains_key(
            k,
        ) && all[k] == m[k] by {
            assert(!is_recorded(fewer, record, k)) by {
                if is_recorded(fewer, record, k) {
                    let i = choose|i: int|
                        0 <= i < fewer.len() && record[i] && #[trigger] fewer[i] == k;
                    assert(keys[i] == k);
                }
            }
            assert(rest.contains_key(k));
            if record[last] {
                assert(keys[last] != k);
            }
        }
    }
}

/// Root entries of indexes that are recorded are there, and nothing else of a table's
/// entries changed.
proof fn lemma_recorded(
    m: Map<Seq<u8>, Seq<u8>>,
    keys: TableKeys,
    roots: Seq<PageId>,
    record: Seq<bool>,
)
    requires
        keys_differ(keys),
        record.len() == keys.indexes@.len(),
    ensures
        ({
            let m2 = base_after(m, index_entries(views(keys.indexes@), roots, record));
            &&& m.contains_key(keys.root@) ==> m2.contains_key(keys.root@) && m2[keys.root@]
                == m[keys.root@]
            &&& m.contains_key(keys.table@) ==> m2.contains_key(keys.table@) && m2[keys.table@]
                == m[keys.table@]
            &&& forall|i: int|
                0 <= i < keys.indexes@.len() && record[i] ==> m2.contains_key(
                    (#[trigger] keys.indexes@[i])@,
                ) && m2[keys.indexes@[i]@] == le_bytes(roots[i].0 as nat, 8)
            &&& forall|i: int|
                0 <= i < keys.indexes@.len() && !record[i] && m.contains_key(
                    (#[trigger] keys.indexes@[i])@,
                ) ==> m2.contains_key(keys.indexes@[i]@) && m2[keys.indexes@[i]@]
                    == m[keys.indexes@[i]@]
        }),
{
    let ks = views(keys.indexes@);
    let m2 = base_after(m, index_entries(ks, roots, record));
    assert(ks.no_duplicates()) by {
        assert forall|i: int, j: int| 0 <= i < j < ks.len() implies ks[i] != ks[j] by {
            assert(keys.indexes@[i]@ != keys.indexes@[j]@);
        }
    }
    lemma_index_entries(m, ks, roots, record);
    assert(!is_recorded(ks, record, keys.root@) && !is_recorded(ks, record, keys.table@)) by {
        assert forall|i: int| 0 <= i < ks.len() implies #[trigger] ks[i] != keys.root@ && ks[i]
            != keys.table@ by {
            assert(keys.indexes@[i]@ == ks[i]);
        }
    }
    assert(m.contains_key(keys.root@) ==> m2.contains_key(keys.root@));
    assert(m.contains_key(keys.table@) ==> m2.contains_key(keys.table@));
    assert forall|i: int| 0 <= i < keys.indexes@.len() && record[i] implies m2.contains_key(
        (#[trigger] keys.indexes@[i])@,
    ) && m2[keys.indexes@[i]@] == le_bytes(roots[i].0 as nat, 8) by {
        assert(ks[i] == keys.indexes@[i]@);
    }
    assert forall|i: int|
        0 <= i < keys.indexes@.len() && !record[i] && m.contains_key(
            (#[trigger] keys.indexes@[i])@,
        ) implies m2.contains_key(keys.indexes@[i]@) && m2[keys.indexes@[i]@]
        == m[keys.indexes@[i]@] by {
        let k = keys.indexes@[i]@;
        assert(!is_recorded(ks, record, k)) by {
            assert(ks[i] == k);
            if is_recorded(ks, record, k) {
                let j = choose|j: int| 0 <= j < ks.len() && record[j] && #[trigger] ks[j] == k;
                assert(i != j);
            }
        }
        assert(m2.contains_key(k));
    }
}

/// Whatever a write does to a table's trees, the catalog names them afterwards: the
/// roots that are not recorded are those that did not move.
pub proof fn written_tables_stay_named(
    m: Map<Seq<u8>, Seq<u8>>,
    keys: TableKeys,
    before: Roots,
    after: Roots,
    record: Seq<bool>,
    seq: Option<i64>,
)
    requires
        keys_differ(keys),
        names(m, keys, before),
        after.indexes@.len() == before.indexes@.len(),
        record.len() == before.indexes@.len(),
        forall|i: int|
            0 <= i < record.len() && !record[i] ==> #[trigger] after.indexes@[i]
                == before.indexes@[i],
    ensures
        names(
            base_after(m, row_entries(keys, after.data, after.indexes@, record, seq)),
            keys,
            after,
        ),
{
    let ks = views(keys.indexes@);
    let first = seq![(keys.root@, Some(le_bytes(after.data.0 as nat, 8)))];
    let es = index_entries(ks, after.indexes@, record);
    let m1 = base_after(m, first);
    let m2 = base_after(m1, es);
    let m3 = base_after(m, row_entries(keys, after.data, after.indexes@, record, seq));
    lemma_base_one(m, keys.root@, Some(le_bytes(after.data.0 as nat, 8)));
    lemma_base_concat(m, first, es);
    if let Some(n) = seq {
        let last = (keys.seq@, Some(le_bytes((n as u64) as nat, 8)));
        assert((first + es).push(last) =~= (first + es) + seq![last]);
        lemma_base_concat(m, first + es, seq![last]);
        lemma_base_one(m2, keys.seq@, Some(le_bytes((n as u64) as nat, 8)));
    }
    lemma_recorded(m1, keys, after.indexes@, record);
    roots_round_trip(after.data);
    assert forall|i: int| 0 <= i < keys.indexes@.len() implies m3.contains_key(
        (#[trigger] keys.indexes@[i])@,
    ) && root_of(m3[keys.indexes@[i]@]) == Ok::<PageId, CatalogErrorV>(after.indexes@[i]) by {
        let k = keys.indexes@[i]@;
        if record[i] {
            roots_round_trip(after.indexes@[i]);
        } else {
            assert(m1.contains_key(k) && m1[k] == m[k]);
            assert(after.indexes@[i] == before.indexes@[i]);
        }
        assert(m2.contains_key(k));
        assert(k != keys.seq@);
    }
}

/// Changing catalog entries leaves all others alone.
pub proof fn other_entries_are_left_alone(
    m: Map<Seq<u8>, Seq<u8>>,
    es: Seq<(Seq<u8>, Option<Seq<u8>>)>,
    k: Seq<u8>,
)
    requires
        forall|j: int| 0 <= j < es.len() ==> (#[trigger] es[j]).0 != k,
    ensures
        base_after(m, es).contains_key(k) <==> m.contains_key(k),
        m.contains_key(k) ==> base_after(m, es)[k] == m[k],
    decreases es.len(),
{
    if es.len() > 0 {
        assert(es.last() == es[es.len() - 1]);
        assert forall|j: int| 0 <= j < es.drop_last().len() implies (
        #[trigger] es.drop_last()[j]).0 != k by {
            assert(es.drop_last()[j] == es[j]);
        }
        other_entries_are_left_alone(m, es.drop_last(), k);
    }
}

/// A new table is named by the catalog.
pub proof fn new_tables_are_named(
    m: Map<Seq<u8>, Seq<u8>>,
    keys: TableKeys,
    bytes: Seq<u8>,
    sequence: bool,
    roots: Roots,
)
    requires
        keys_differ(keys),
        keys.indexes@.len() == roots.indexes@.len(),
    ensures
        ({
            let m2 = base_after(
                m,
                table_entries(keys, bytes, sequence, roots.data, roots.indexes@),
            );
            &&& names(m2, keys, roots)
            &&& m2.contains_key(keys.table@)
            &&& m2[keys.table@] == bytes
        }),
{
    let record = Seq::new(keys.indexes@.len(), |i: int| true);
    let def = seq![(keys.table@, Some(bytes))];
    let root = seq![(keys.root@, Some(le_bytes(roots.data.0 as nat, 8)))];
    let start = seq![(keys.seq@, Some(le_bytes(1, 8)))];
    let head = if sequence {
        def + root + start
    } else {
        def + root
    };
    let es = index_entries(views(keys.indexes@), roots.indexes@, record);
    let all = table_entries(keys, bytes, sequence, roots.data, roots.indexes@);
    assert(all =~= head + es);
    let m1 = base_after(m, head);
    lemma_base_one(m, keys.table@, Some(bytes));
    lemma_base_concat(m, def, root);
    lemma_base_one(base_after(m, def), keys.root@, Some(le_bytes(roots.data.0 as nat, 8)));
    lemma_base_concat(m, def + root, start);
    lemma_base_one(base_after(m, def + root), keys.seq@, Some(le_bytes(1, 8)));
    lemma_base_concat(m, head, es);
    lemma_recorded(m1, keys, roots.indexes@, record);
    roots_round_trip(roots.data);
    assert forall|i: int| 0 <= i < keys.indexes@.len() implies root_of(
        base_after(m, all)[(#[trigger] keys.indexes@[i])@],
    ) == Ok::<PageId, CatalogErrorV>(roots.indexes@[i]) by {
        roots_round_trip(roots.indexes@[i]);
    }
}

/// What is deleted and not stored again is gone.
pub proof fn lemma_all_gone(
    m: Map<Seq<u8>, Seq<u8>>,
    es: Seq<(Seq<u8>, Option<Seq<u8>>)>,
    k: Seq<u8>,
    at: int,
)
    requires
        forall|j: int| 0 <= j < es.len() ==> (#[trigger] es[j]).1 is None,
        0 <= at < es.len(),
        es[at].0 == k,
    ensures
        !base_after(m, es).contains_key(k),
    decreases es.len(),
{
    assert(es.last() == es[es.len() - 1]);
    if at < es.len() - 1 {
        assert forall|j: int| 0 <= j < es.drop_last().len() implies (
        #[trigger] es.drop_last()[j]).1 is None by {
            assert(es.drop_last()[j] == es[j]);
        }
        assert(es.drop_last()[at] == es[at]);
        lemma_all_gone(m, es.drop_last(), k, at);
    }
}

/// A dropped table leaves no entry in the catalog.
pub proof fn dropped_tables_leave_no_entry(m: Map<Seq<u8>, Seq<u8>>, keys: TableKeys)
    ensures
        ({
            let m2 = base_after(m, gone_entries(keys));
            &&& !m2.contains_key(keys.table@)
            &&& !m2.contains_key(keys.root@)
            &&& !m2.contains_key(keys.seq@)
            &&& forall|i: int|
                0 <= i < keys.indexes@.len() ==> !m2.contains_key((#[trigger] keys.indexes@[i])@)
        }),
{
    let es = gone_entries(keys);
    let n = keys.indexes@.len() as int;
    assert(es[n].0 == keys.table@ && es[n + 1].0 == keys.root@ && es[n + 2].0 == keys.seq@);
    lemma_all_gone(m, es, keys.table@, n);
    lemma_all_gone(m, es, keys.root@, n + 1);
    lemma_all_gone(m, es, keys.seq@, n + 2);
    assert forall|i: int| 0 <= i < n implies !base_after(m, es).contains_key(
        (#[trigger] keys.indexes@[i])@,
    ) by {
        assert(es[i].0 == keys.indexes@[i]@);
        lemma_all_gone(m, es, keys.indexes@[i]@, i);
    }
}

/// What is stored and not changed again is there.
proof fn lemma_stored_once(
    m: Map<Seq<u8>, Seq<u8>>,
    es: Seq<(Seq<u8>, Option<Seq<u8>>)>,
    at: int,
)
    requires
        0 <= at < es.len(),
        es[at].1 is Some,
        forall|j: int| at < j < es.len() ==> (#[trigger] es[j]).0 != es[at].0,
    ensures
        base_after(m, es).contains_key(es[at].0),
        base_after(m, es)[es[at].0] == es[at].1->Some_0,
    decreases es.len(),
{
    assert(es.last() == es[es.len() - 1]);
    if at < es.len() - 1 {
        let rest = es.drop_last();
        assert(rest[at] == es[at]);
        assert forall|j: int| at < j < rest.len() implies (#[trigger] rest[j]).0 != rest[at].0 by {
            assert(rest[j] == es[j]);
        }
        lemma_stored_once(m, rest, at);
    }
}

/// A table with new indexes stays named, the new ones too.
pub proof fn indexed_tables_stay_named(
    m: Map<Seq<u8>, Seq<u8>>,
    keys: TableKeys,
    before: Roots,
    bytes: Seq<u8>,
    fills: Seq<IndexFill>,
    more: TableKeys,
    after: Roots,
)
    requires
        names(m, keys, before),
        keys_differ(more),
        more.table@ == keys.table@,
        more.root@ == keys.root@,
        views(more.indexes@) == views(keys.indexes@) + Seq::new(
            fills.len(),
            |i: int| fills[i].key@,
        ),
        after.data == before.data,
        after.indexes@.len() == before.indexes@.len() + fills.len(),
        after.indexes@.take(before.indexes@.len() as int) == before.indexes@,
    ensures
        ({
            let m2 = base_after(
                m,
                fill_entries(
                    keys.table@,
                    bytes,
                    fills,
                    after.indexes@.skip(before.indexes@.len() as int),
                ),
            );
            &&& names(m2, more, after)
            &&& m2.contains_key(keys.table@)
            &&& m2[keys.table@] == bytes
        }),
{
    let n = before.indexes@.len() as int;
    let fresh = after.indexes@.skip(n);
    let es = fill_entries(keys.table@, bytes, fills, fresh);
    let m2 = base_after(m, es);
    let ks = views(more.indexes@);
    assert(ks.len() == more.indexes@.len());
    assert forall|j: int| 1 <= j < es.len() implies (#[trigger] es[j]).0 == more.indexes@[n + j
        - 1]@ by {
        assert(ks[n + j - 1] == fills[j - 1].key@);
        assert(ks[n + j - 1] == more.indexes@[n + j - 1]@);
    }
    lemma_stored_once(m, es, 0);
    other_entries_are_left_alone(m, es, keys.root@);
    assert forall|i: int| 0 <= i < more.indexes@.len() implies m2.contains_key(
        (#[trigger] more.indexes@[i])@,
    ) && root_of(m2[more.indexes@[i]@]) == Ok::<PageId, CatalogErrorV>(after.indexes@[i]) by {
        let k = more.indexes@[i]@;
        assert(ks[i] == k);
        if i < n {
            assert(ks[i] == views(keys.indexes@)[i]);
            assert(keys.indexes@[i]@ == k);
            assert(after.indexes@[i] == after.indexes@.take(n)[i]);
            other_entries_are_left_alone(m, es, k);
        } else {
            let j = i - n + 1;
            assert(es[j] == (fills[j - 1].key@, Some(le_bytes(fresh[j - 1].0 as nat, 8))));
            lemma_stored_once(m, es, j);
            roots_round_trip(after.indexes@[i]);
        }
    }
}

/// A table without one of its indexes stays named.
pub proof fn unindexed_tables_stay_named(
    m: Map<Seq<u8>, Seq<u8>>,
    keys: TableKeys,
    before: Roots,
    at: int,
    bytes: Seq<u8>,
    fewer: TableKeys,
    after: Roots,
)
    requires
        names(m, keys, before),
        keys_differ(keys),
        0 <= at < keys.indexes@.len(),
        fewer.root@ == keys.root@,
        fewer.indexes@ == keys.indexes@.remove(at),
        after.data == before.data,
        after.indexes@ == before.indexes@.remove(at),
    ensures
        ({
            let m2 = base_after(
                m,
                unindexed_entries(keys.indexes@[at]@, keys.table@, bytes),
            );
            &&& names(m2, fewer, after)
            &&& m2.contains_key(keys.table@)
            &&& m2[keys.table@] == bytes
            &&& !m2.contains_key(keys.indexes@[at]@)
        }),
{
    let es = unindexed_entries(keys.indexes@[at]@, keys.table@, bytes);
    let m2 = base_after(m, es);
    reveal_with_fuel(base_after, 3);
    assert(es.drop_last() =~= seq![(keys.indexes@[at]@, None)]);
    assert(es.drop_last().drop_last() =~= Seq::empty());
    assert(m2 == m.remove(keys.indexes@[at]@).insert(keys.table@, bytes));
    assert forall|i: int| 0 <= i < fewer.indexes@.len() implies m2.contains_key(
        (#[trigger] fewer.indexes@[i])@,
    ) && root_of(m2[fewer.indexes@[i]@]) == Ok::<PageId, CatalogErrorV>(after.indexes@[i]) by {
        let x = if i < at {
            i
        } else {
            i + 1
        };
        assert(fewer.indexes@[i] == keys.indexes@[x]);
        assert(after.indexes@[i] == before.indexes@[x]);
        if x < at {
            assert(keys.indexes@[x]@ != keys.indexes@[at]@);
        } else {
            assert(keys.indexes@[at]@ != keys.indexes@[x]@);
        }
    }
}

/// A committed table is durable: once the store is opened again, the catalog is at its
/// root, names the table's trees, and each of them holds what it held.
///
/// `s` is the state before the commit, with its free list recovered, and `d` the store
/// with the staged pages in place.
pub proof fn committed_tables_are_read_back(
    s: PagerState,
    d: Seq<u8>,
    site: Site,
    keys: TableKeys,
)
    requires
        planted(s, site.all()),
        names(tree_map(tree_at(s, site.catalog.0)), keys, site.roots),
        s.loaded,
        s.slot <= 1,
        forall|k: u64| #[trigger]
            s.staged.contains_key(k) && k >= FIRST_DATA_PAGE ==> sound(s.staged[k], k),
        flushed(s.disk, s.meta.page_count * PAGE_SIZE, s.rebuilt().staged, d),
    ensures
        ({
            let u = s.rebuilt();
            let t = written(
                d,
                u.other_slot() * PAGE_SIZE,
                meta_image(u.next_meta(), u.other_slot()),
            );
            let r = reopened(t, u.next_meta(), u.other_slot());
            &&& trees_at(r, site.all()) == trees_at(s, site.all())
            &&& names(tree_map(tree_at(r, site.catalog.0)), keys, site.roots)
        }),
{
    let u = s.rebuilt();
    let t = written(d, u.other_slot() * PAGE_SIZE, meta_image(u.next_meta(), u.other_slot()));
    let r = reopened(t, u.next_meta(), u.other_slot());
    let roots = site.all();
    assert forall|i: int| 0 <= i < roots.len() implies trees_at(r, roots)[i] == trees_at(
        s,
        roots,
    )[i] by {
        assert(has_btree(s, roots[i].0));
        committed_trees_are_read_back(s, d, roots[i].0);
    }
    assert(trees_at(r, roots) =~= trees_at(s, roots));
    assert(roots[0] == site.catalog);
    assert(trees_at(r, roots)[0] == trees_at(s, roots)[0]);
}

/// A committed table can be changed again once the store is opened again: its trees
/// stand beside each other on pages that are not free.
///
/// `s` is the state before the commit, with its free list recovered, and `d` the store
/// with the staged pages in place.
pub proof fn committed_tables_can_be_changed_again(s: PagerState, d: Seq<u8>, site: Site)
    requires
        planted(s, site.all()),
        s.loaded,
        s.slot <= 1,
        s.meta.page_count >= FIRST_DATA_PAGE,
        s.meta.txn_id < u64::MAX,
        free_list_ok(s),
        slots_unstaged(s),
        recordable(s.rebuilt().next_meta()),
        forall|k: u64| #[trigger]
            s.staged.contains_key(k) && k >= FIRST_DATA_PAGE ==> sound(s.staged[k], k),
        flushed(s.disk, s.meta.page_count * PAGE_SIZE, s.rebuilt().staged, d),
    ensures
        ({
            let u = s.rebuilt();
            let t = written(
                d,
                u.other_slot() * PAGE_SIZE,
                meta_image(u.next_meta(), u.other_slot()),
            );
            let r = reopened(t, u.next_meta(), u.other_slot());
            planted(r, site.all()) && usable(r)
        }),
{
    let u = s.rebuilt();
    let t = written(d, u.other_slot() * PAGE_SIZE, meta_image(u.next_meta(), u.other_slot()));
    let r = reopened(t, u.next_meta(), u.other_slot());
    let roots = site.all();
    assert forall|i: int| 0 <= i < roots.len() implies has_btree(r, (#[trigger] roots[i]).0)
        && tree_at(r, roots[i].0) == tree_at(s, roots[i].0) by {
        assert(has_btree(s, roots[i].0));
        committed_trees_can_be_changed_again(s, d, roots[i].0);
    }
    assert(trees_at(r, roots) =~= trees_at(s, roots));
    assert(has_btree(s, roots[0].0));
    committed_trees_can_be_changed_again(s, d, roots[0].0);
}

/// A crash is harmless to committed tables: whatever of a later commit reached the
/// store before it was interrupted, the catalog of the last committed state names the
/// table's trees, and each of them holds what it held.
///
/// `s` is the state after the last commit, with nothing staged; `s1` is the state
/// after changes to its trees; `after` is the store as the interruption left it.
pub proof fn crashes_spare_committed_tables(
    s: PagerState,
    s1: PagerState,
    n: int,
    site: Site,
    keys: TableKeys,
    after: Seq<u8>,
    m: Meta,
    slot: u64,
)
    requires
        planted(s, site.all()),
        names(tree_map(tree_at(s, site.catalog.0)), keys, site.roots),
        usable(s),
        evolves(s, s1, n),
        forall|p: u64| !#[trigger] s.staged.contains_key(p),
        s.slot <= 1,
        s1.free_list() is Done,
        ({
            let u = s1.with_free(s1.free_list()->Done_0, s1.free_list()->Done_1).rebuilt();
            kept_outside(s.disk, u.staged, u.other_slot(), after)
        }),
        m.page_count == s.meta.page_count,
    ensures
        ({
            let r = reopened(after, m, slot);
            &&& trees_at(r, site.all()) == trees_at(s, site.all())
            &&& names(tree_map(tree_at(r, site.catalog.0)), keys, site.roots)
        }),
{
    let r = reopened(after, m, slot);
    let roots = site.all();
    assert forall|i: int| 0 <= i < roots.len() implies trees_at(r, roots)[i] == trees_at(
        s,
        roots,
    )[i] by {
        assert(has_btree(s, roots[i].0));
        crashes_spare_committed_trees(s, s1, n, roots[i].0, after, m, slot);
    }
    assert(trees_at(r, roots) =~= trees_at(s, roots));
    assert(roots[0] == site.catalog);
    assert(trees_at(r, roots)[0] == trees_at(s, roots)[0]);
}

// --- finding a table ---------------------------------------------------------------

/// The root that the entry at `key` names.
pub open spec fn root_at(m: Map<Seq<u8>, Seq<u8>>, key: Seq<u8>) -> core::result::Result<
    PageId,
    CatalogErrorV,
> {
    if m.contains_key(key) {
        root_of(m[key])
    } else {
        Err(CatalogErrorV::Corrupt(CatalogCorruption::MissingEntry))
    }
}

/// Why finding the root at `key` in the catalog tree `t` fails: the entry is not there or
/// not a root, or a page on the way to it does not read, or could not be read.
pub open spec fn root_fails(t: Tree, key: Seq<u8>, fault_free: bool, e: CatalogErrorV) -> bool {
    match t.find(key) {
        Found::Value(_) => {
            ||| root_at(tree_map(t), key) == Err::<PageId, CatalogErrorV>(e)
            ||| !fault_free && e matches CatalogErrorV::BTree(BTreeError::Pager(PagerError::Io(_)))
        },
        Found::Stuck(_) => e matches CatalogErrorV::BTree(b) && stops_at(
            t.find(key),
            fault_free,
            b,
        ),
    }
}

fn find_root<B: IoBackend>(pager: &mut Pager<B>, catalog: PageId, key: &Vec<u8>) -> (r: Result<
    PageId,
>)
    requires
        ready(*old(pager)),
        is_tree(old(pager).state(), catalog.0),
    ensures
        final(pager).wf(),
        final(pager).state() == old(pager).state(),
        old(pager).fault_free() ==> final(pager).fault_free(),
        match r {
            Ok(id) => root_at(tree_map(tree_at(old(pager).state(), catalog.0)), key@) == Ok::<
                PageId,
                CatalogErrorV,
            >(id),
            Err(e) => root_fails(
                tree_at(old(pager).state(), catalog.0),
                key@,
                old(pager).fault_free(),
                e@,
            ),
        },
{
    match lookup_in(pager, catalog, key.as_slice()) {
        Ok(entry) => load_root(&entry),
        Err(e) => Err(CatalogError::BTree(e)),
    }
}

/// Find the trees of a table by its catalog entries.
pub fn load_roots<B: IoBackend>(pager: &mut Pager<B>, catalog: PageId, keys: &TableKeys) -> (r:
    Result<Roots>)
    requires
        ready(*old(pager)),
        is_tree(old(pager).state(), catalog.0),
    ensures
        final(pager).wf(),
        final(pager).state() == old(pager).state(),
        old(pager).fault_free() ==> final(pager).fault_free(),
        match r {
            Ok(roots) => names(tree_map(tree_at(old(pager).state(), catalog.0)), *keys, roots),
            Err(e) => {
                let t = tree_at(old(pager).state(), catalog.0);
                let m = tree_map(t);
                ||| root_fails(t, keys.root@, old(pager).fault_free(), e@)
                ||| root_at(m, keys.root@) is Ok && exists|i: int|
                    0 <= i < keys.indexes@.len() && root_fails(
                        t,
                        (#[trigger] keys.indexes@[i])@,
                        old(pager).fault_free(),
                        e@,
                    ) && forall|j: int|
                        0 <= j < i ==> root_at(m, (#[trigger] keys.indexes@[j])@) is Ok
            },
        },
{
    let ghost s = pager.state();
    let ghost ff = pager.fault_free();
    let ghost m = tree_map(tree_at(s, catalog.0));
    let data = match find_root(pager, catalog, &keys.root) {
        Ok(id) => id,
        Err(e) => {
            return Err(e);
        },
    };
    let mut indexes: Vec<PageId> = Vec::new();
    let mut i: usize = 0;
    while i < keys.indexes.len()
        invariant
            i <= keys.indexes@.len(),
            ready(*pager),
            pager.state() == s,
            s == old(pager).state(),
            ff == old(pager).fault_free(),
            ff ==> pager.fault_free(),
            is_tree(s, catalog.0),
            m == tree_map(tree_at(s, catalog.0)),
            root_at(m, keys.root@) == Ok::<PageId, CatalogErrorV>(data),
            indexes@.len() == i,
            forall|j: int|
                0 <= j < i ==> root_at(m, (#[trigger] keys.indexes@[j])@) == Ok::<
                    PageId,
                    CatalogErrorV,
                >(indexes@[j]),
        decreases keys.indexes@.len() - i,
    {
        match find_root(pager, catalog, &keys.indexes[i]) {
            Ok(id) => {
                indexes.push(id);
            },
            Err(e) => {
                return Err(e);
            },
        }
        i = i + 1;
    }
    Ok(Roots { data, indexes })
}

/// A catalog names the trees of a table in one way only.
pub proof fn names_are_unique(
    m: Map<Seq<u8>, Seq<u8>>,
    keys: TableKeys,
    a: Roots,
    b: Roots,
)
    requires
        names(m, keys, a),
        names(m, keys, b),
    ensures
        a.data == b.data,
        a.indexes@ == b.indexes@,
{
    assert forall|i: int| 0 <= i < a.indexes@.len() implies a.indexes@[i] == b.indexes@[i] by {
        let k = keys.indexes@[i];
        assert(root_of(m[k@]) == Ok::<PageId, CatalogErrorV>(a.indexes@[i]));
    }
    assert(a.indexes@ =~= b.indexes@);
}

proof fn lemma_entry_keys(ks: Seq<Seq<u8>>, roots: Seq<PageId>, record: Seq<bool>)
    ensures
        forall|j: int|
            0 <= j < index_entries(ks, roots, record).len() ==> ks.contains(
                (#[trigger] index_entries(ks, roots, record)[j]).0,
            ),
    decreases ks.len(),
{
    if ks.len() > 0 {
        let fewer = ks.drop_last();
        lemma_entry_keys(fewer, roots, record);
        let es = index_entries(ks, roots, record);
        let less = index_entries(fewer, roots, record);
        assert forall|j: int| 0 <= j < es.len() implies ks.contains((#[trigger] es[j]).0) by {
            if j < less.len() {
                assert(es[j] == less[j]);
                assert(fewer.contains(less[j].0));
                let i = fewer.index_of(less[j].0);
                assert(ks[i] == less[j].0);
            } else {
                assert(ks[ks.len() - 1] == es[j].0);
            }
        }
    }
}

/// A write of rows records where the sequence of their table stands, to be read back as it
/// was, wherever it moved, and leaves it alone otherwise; the definition of the table it
/// always leaves alone.
pub proof fn written_sequences_are_read_back(
    m: Map<Seq<u8>, Seq<u8>>,
    keys: TableKeys,
    data: PageId,
    indexes: Seq<PageId>,
    record: Seq<bool>,
    moved: Option<i64>,
)
    requires
        keys_differ(keys),
    ensures
        ({
            let after = base_after(m, row_entries(keys, data, indexes, record, moved));
            &&& moved matches Some(n) ==> after.contains_key(keys.seq@) && super::store::seq_of(
                after[keys.seq@],
            ) == Ok::<i64, CatalogErrorV>(n)
            &&& moved is None ==> (after.contains_key(keys.seq@) <==> m.contains_key(keys.seq@))
            &&& moved is None && m.contains_key(keys.seq@) ==> after[keys.seq@] == m[keys.seq@]
            &&& after.contains_key(keys.table@) <==> m.contains_key(keys.table@)
            &&& m.contains_key(keys.table@) ==> after[keys.table@] == m[keys.table@]
        }),
{
    let ks = views(keys.indexes@);
    let es = index_entries(ks, indexes, record);
    lemma_entry_keys(ks, indexes, record);
    assert forall|j: int| 0 <= j < es.len() implies (#[trigger] es[j]).0 != keys.seq@ && es[j].0
        != keys.table@ by {
        let i = ks.index_of(es[j].0);
        assert(ks[i] == keys.indexes@[i]@);
    }
    let all = row_entries(keys, data, indexes, record, moved);
    let first = seq![(keys.root@, Some(le_bytes(data.0 as nat, 8)))];
    assert forall|j: int| 0 <= j < all.len() implies (#[trigger] all[j]).0 != keys.table@ by {
        if 1 <= j <= es.len() {
            assert(all[j] == es[j - 1]);
        }
    }
    other_entries_are_left_alone(m, all, keys.table@);
    if let Some(n) = moved {
        assert(all.last() == (keys.seq@, Some(le_bytes((n as u64) as nat, 8))));
        super::store::sequences_round_trip(n);
    } else {
        assert forall|j: int| 0 <= j < all.len() implies (#[trigger] all[j]).0 != keys.seq@ by {
            if 1 <= j {
                assert(all[j] == es[j - 1]);
            }
        }
        other_entries_are_left_alone(m, all, keys.seq@);
    }
}

/// A new table with a counted column starts its sequence at one; a table without one gets
/// none.
pub proof fn new_sequences_start_at_one(
    m: Map<Seq<u8>, Seq<u8>>,
    keys: TableKeys,
    bytes: Seq<u8>,
    sequence: bool,
    roots: Roots,
)
    requires
        keys_differ(keys),
    ensures
        ({
            let after = base_after(
                m,
                table_entries(keys, bytes, sequence, roots.data, roots.indexes@),
            );
            &&& sequence ==> after.contains_key(keys.seq@) && super::store::seq_of(
                after[keys.seq@],
            ) == Ok::<i64, CatalogErrorV>(1)
            &&& !sequence ==> (after.contains_key(keys.seq@) <==> m.contains_key(keys.seq@))
        }),
{
    let ks = views(keys.indexes@);
    let record = Seq::new(keys.indexes@.len(), |i: int| true);
    let es = index_entries(ks, roots.indexes@, record);
    lemma_entry_keys(ks, roots.indexes@, record);
    assert forall|j: int| 0 <= j < es.len() implies (#[trigger] es[j]).0 != keys.seq@ by {
        let i = ks.index_of(es[j].0);
        assert(ks[i] == keys.indexes@[i]@);
    }
    let all = table_entries(keys, bytes, sequence, roots.data, roots.indexes@);
    let first = seq![
        (keys.table@, Some(bytes)),
        (keys.root@, Some(le_bytes(roots.data.0 as nat, 8))),
    ];
    if sequence {
        let head = first.push((keys.seq@, Some(le_bytes(1, 8))));
        assert(all == head + es);
        lemma_base_concat(m, head, es);
        assert(head.drop_last() =~= first);
        other_entries_are_left_alone(base_after(m, head), es, keys.seq@);
        super::store::sequences_round_trip(1);
    } else {
        assert forall|j: int| 0 <= j < all.len() implies (#[trigger] all[j]).0 != keys.seq@ by {
            if j >= 2 {
                assert(all[j] == es[j - 2]);
            }
        }
        other_entries_are_left_alone(m, all, keys.seq@);
    }
}

} // verus!
