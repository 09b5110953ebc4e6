//! What accepted writes come to: every constraint holds of the rows, and the table
//! holds exactly them.

use vstd::prelude::*;
use super::apply::base_after;
use super::check::checks_violation;
use super::error::CatalogErrorV;
use super::fk::{insert_fks_error, update_fks_error, StoredRowV};
use super::job::{
    changed_error, fresh_error, inserted, removed_rows, staged_keys, updated_rows, Changed, Doomed,
    Fresh,
};
use super::named::{lemma_all_gone, other_entries_are_left_alone};
use super::plan::base_of;
use super::row::row_error;
use super::schema::TableV;
use super::write::{is_staged, removal, staged, ChangeV, Mode};
use crate::value::TypeError;

verus! {

/// Staged rows reach their table: where no two have the same key, each that is stored
/// is found under its key, each that is removed is not, and no other row changes.
pub proof fn staged_rows_reach_their_table(m: Map<Seq<u8>, Seq<u8>>, cs: Seq<ChangeV>)
    requires
        staged_keys(cs).no_duplicates(),
    ensures
        ({
            let after = base_after(m, base_of(cs));
            &&& forall|c: int|
                0 <= c < cs.len() ==> match (#[trigger] cs[c]).bytes {
                    Some(b) => after.contains_key(cs[c].pk_key) && after[cs[c].pk_key] == b,
                    None => !after.contains_key(cs[c].pk_key),
                }
            &&& forall|k: Seq<u8>|
                !is_staged(cs, k) ==> (#[trigger] after.contains_key(k) <==> m.contains_key(k))
            &&& forall|k: Seq<u8>|
                !is_staged(cs, k) && m.contains_key(k) ==> #[trigger] after[k] == m[k]
        }),
    decreases cs.len(),
{
    let es = base_of(cs);
    let after = base_after(m, es);
    if cs.len() > 0 {
        let rest = cs.drop_last();
        let last = cs.last();
        let n = cs.len() - 1;
        assert(es.drop_last() =~= base_of(rest));
        assert(es.last() == (last.pk_key, last.bytes));
        assert(staged_keys(rest).no_duplicates()) by {
            assert forall|i: int, j: int| 0 <= i < j < rest.len() implies staged_keys(rest)[i]
                != staged_keys(rest)[j] by {
                assert(staged_keys(cs)[i] != staged_keys(cs)[j]);
            }
        }
        staged_rows_reach_their_table(m, rest);
        assert forall|c: int| 0 <= c < cs.len() implies match (#[trigger] cs[c]).bytes {
            Some(b) => after.contains_key(cs[c].pk_key) && after[cs[c].pk_key] == b,
            None => !after.contains_key(cs[c].pk_key),
        } by {
            if c < n {
                assert(rest[c] == cs[c]);
                assert(staged_keys(cs)[c] != staged_keys(cs)[n]);
            }
        }
    }
    assert forall|k: Seq<u8>| !is_staged(cs, k) implies (#[trigger] after.contains_key(k)
        <==> m.contains_key(k)) by {
        lemma_unstaged(m, cs, k);
    }
    assert forall|k: Seq<u8>|
        !is_staged(cs, k) && m.contains_key(k) implies #[trigger] after[k] == m[k] by {
        lemma_unstaged(m, cs, k);
    }
}

proof fn lemma_unstaged(m: Map<Seq<u8>, Seq<u8>>, cs: Seq<ChangeV>, k: Seq<u8>)
    requires
        !is_staged(cs, k),
    ensures
        base_after(m, base_of(cs)).contains_key(k) <==> m.contains_key(k),
        m.contains_key(k) ==> base_after(m, base_of(cs))[k] == m[k],
{
    assert forall|j: int| 0 <= j < base_of(cs).len() implies (#[trigger] base_of(cs)[j]).0 != k by {
        assert(cs[j].pk_key != k);
    }
    other_entries_are_left_alone(m, base_of(cs), k);
}

/// What the staging of a row that is stored leaves of it.
proof fn lemma_inserted(table: Seq<char>, t: TableV, rows: Seq<Fresh>, n: nat)
    requires
        n <= rows.len(),
        inserted(table, t, rows, n) is Ok,
        forall|i: int| 0 <= i < rows.len() ==> (#[trigger] rows[i]).complete(t),
    ensures
        inserted(table, t, rows, n)->Ok_0.len() == n,
        forall|i: int|
            0 <= i < n ==> inserted(table, t, rows, i as nat) == Ok::<Seq<ChangeV>, CatalogErrorV>(
                inserted(table, t, rows, n)->Ok_0.take(i),
            ) && #[trigger] fresh_error(
                table,
                t,
                inserted(table, t, rows, n)->Ok_0.take(i),
                rows[i],
            ) is None,
        forall|i: int|
            0 <= i < n ==> (#[trigger] inserted(table, t, rows, n)->Ok_0[i]).pk_key
                == rows[i].m@.pk_key && rows[i].m@.bytes is Ok && inserted(
                table,
                t,
                rows,
                n,
            )->Ok_0[i].bytes == Some(rows[i].m@.bytes->Ok_0),
        staged_keys(inserted(table, t, rows, n)->Ok_0).no_duplicates(),
    decreases n,
{
    let cs = inserted(table, t, rows, n)->Ok_0;
    if n > 0 {
        let k = (n - 1) as nat;
        let before = inserted(table, t, rows, k)->Ok_0;
        let f = rows[n - 1];
        lemma_inserted(table, t, rows, k);
        assert(cs.drop_last() =~= before);
        assert(cs.take(n - 1) =~= before);
        assert(f.complete(t));
        assert(staged(table, t, Mode::Insert, before, f.m@) == Ok::<ChangeV, CatalogErrorV>(cs[n - 1]));
        assert forall|i: int| 0 <= i < n implies inserted(table, t, rows, i as nat) == Ok::<Seq<ChangeV>, CatalogErrorV>(
            cs.take(i),
        ) && #[trigger] fresh_error(table, t, cs.take(i), rows[i]) is None by {
            if i < k {
                assert(cs.take(i) =~= before.take(i));
                assert(fresh_error(table, t, before.take(i), rows[i]) is None);
            }
        }
        assert forall|i: int| 0 <= i < n implies (#[trigger] cs[i]).pk_key == rows[i].m@.pk_key
            && rows[i].m@.bytes is Ok && cs[i].bytes == Some(rows[i].m@.bytes->Ok_0) by {
            if i < k {
                assert(before[i] == cs[i]);
            }
        }
        assert forall|i: int, j: int| 0 <= i < j < n implies staged_keys(cs)[i] != staged_keys(
            cs,
        )[j] by {
            assert(cs[i].pk_key == staged_keys(cs)[i]);
            if j < k {
                assert(staged_keys(before)[i] != staged_keys(before)[j]);
                assert(before[i] == cs[i] && before[j] == cs[j]);
            } else {
                assert(before[i] == cs[i]);
                assert(!is_staged(before, f.m@.pk_key));
            }
        }
    }
}

/// Every row of an accepted insert obeys every constraint: its cells fit their columns
/// and are not null where they must not be, no CHECK is violated, every reference has
/// its parent row, and its key is new.
pub proof fn accepted_rows_obey_their_constraints(
    table: Seq<char>,
    t: TableV,
    rows: Seq<Fresh>,
    i: int,
)
    requires
        inserted(table, t, rows, rows.len()) is Ok,
        forall|i: int| 0 <= i < rows.len() ==> (#[trigger] rows[i]).complete(t),
        0 <= i < rows.len(),
    ensures
        row_error(t, rows[i].row(), rows[i].json@, 0) is None,
        checks_violation(t, rows[i].row(), rows[i].relations@) is None,
        insert_fks_error(
            t,
            rows[i].row(),
            staged_keys(inserted(table, t, rows, i as nat)->Ok_0),
            rows[i].probes@,
            0,
        ) is None,
        !rows[i].pk_taken,
        forall|j: int|
            0 <= j < rows.len() && j != i ==> (#[trigger] rows[j]).m@.pk_key
                != rows[i].m@.pk_key,
{
    let cs = inserted(table, t, rows, rows.len())->Ok_0;
    lemma_inserted(table, t, rows, rows.len());
    assert(fresh_error(table, t, cs.take(i), rows[i]) is None);
    assert forall|j: int| 0 <= j < rows.len() && j != i implies (#[trigger] rows[j]).m@.pk_key
        != rows[i].m@.pk_key by {
        assert(cs[i].pk_key == rows[i].m@.pk_key && cs[j].pk_key == rows[j].m@.pk_key);
        if i < j {
            assert(staged_keys(cs)[i] != staged_keys(cs)[j]);
        } else {
            assert(staged_keys(cs)[j] != staged_keys(cs)[i]);
        }
    }
}

/// What an accepted insert stored is read back: each row is found under its key, where
/// there was none, and all other rows are as they were.
///
/// `m` is what the base tree held, and `base_after` what carrying out the plan leaves.
pub proof fn inserted_rows_are_found(
    table: Seq<char>,
    t: TableV,
    rows: Seq<Fresh>,
    m: Map<Seq<u8>, Seq<u8>>,
)
    requires
        inserted(table, t, rows, rows.len()) is Ok,
        forall|i: int| 0 <= i < rows.len() ==> (#[trigger] rows[i]).complete(t),
        forall|i: int|
            0 <= i < rows.len() ==> (#[trigger] rows[i]).pk_taken == m.contains_key(
                rows[i].m@.pk_key,
            ),
    ensures
        ({
            let cs = inserted(table, t, rows, rows.len())->Ok_0;
            let after = base_after(m, base_of(cs));
            &&& forall|i: int|
                0 <= i < rows.len() ==> !m.contains_key((#[trigger] rows[i]).m@.pk_key)
                    && after.contains_key(rows[i].m@.pk_key) && rows[i].m@.bytes == Ok::<Seq<u8>, TypeError>(
                    after[rows[i].m@.pk_key],
                )
            &&& forall|k: Seq<u8>|
                m.contains_key(k) ==> #[trigger] after.contains_key(k) && after[k] == m[k]
            &&& forall|k: Seq<u8>| #[trigger]
                after.contains_key(k) ==> m.contains_key(k) || exists|i: int|
                    0 <= i < rows.len() && (#[trigger] rows[i]).m@.pk_key == k
        }),
{
    let cs = inserted(table, t, rows, rows.len())->Ok_0;
    let after = base_after(m, base_of(cs));
    lemma_inserted(table, t, rows, rows.len());
    staged_rows_reach_their_table(m, cs);
    assert forall|i: int| 0 <= i < rows.len() implies !m.contains_key(
        (#[trigger] rows[i]).m@.pk_key,
    ) && after.contains_key(rows[i].m@.pk_key) && rows[i].m@.bytes == Ok::<Seq<u8>, TypeError>(
        after[rows[i].m@.pk_key],
    ) by {
        accepted_rows_obey_their_constraints(table, t, rows, i);
        assert(cs[i].pk_key == rows[i].m@.pk_key);
    }
    assert forall|k: Seq<u8>| m.contains_key(k) implies #[trigger] after.contains_key(k)
        && after[k] == m[k] by {
        if is_staged(cs, k) {
            let c = choose|c: int| 0 <= c < cs.len() && (#[trigger] cs[c]).pk_key == k;
            assert(rows[c].m@.pk_key == k);
        }
    }
    assert forall|k: Seq<u8>| #[trigger] after.contains_key(k) implies m.contains_key(k) || exists|
        i: int,
    |
        0 <= i < rows.len() && (#[trigger] rows[i]).m@.pk_key == k by {
        if is_staged(cs, k) {
            let c = choose|c: int| 0 <= c < cs.len() && (#[trigger] cs[c]).pk_key == k;
            assert(rows[c].m@.pk_key == k);
        }
    }
}

proof fn lemma_updated(
    table: Seq<char>,
    t: TableV,
    mode: Mode,
    rows: Seq<Changed>,
    tables: Seq<TableV>,
    contents: Seq<Seq<StoredRowV>>,
    n: nat,
)
    requires
        n <= rows.len(),
        updated_rows(table, t, mode, rows, tables, contents, n) is Ok,
        forall|i: int| 0 <= i < rows.len() ==> (#[trigger] rows[i]).complete(t),
    ensures
        updated_rows(table, t, mode, rows, tables, contents, n)->Ok_0.len() == n,
        forall|i: int|
            0 <= i < n ==> (#[trigger] updated_rows(
                table,
                t,
                mode,
                rows,
                tables,
                contents,
                n,
            )->Ok_0[i]).pk_key == rows[i].m@.pk_key && rows[i].m@.bytes is Ok && updated_rows(
                table,
                t,
                mode,
                rows,
                tables,
                contents,
                n,
            )->Ok_0[i].bytes == Some(rows[i].m@.bytes->Ok_0),
        forall|i: int|
            0 <= i < n ==> #[trigger] changed_error(t, rows[i], tables, contents) is None,
    decreases n,
{
    let cs = updated_rows(table, t, mode, rows, tables, contents, n)->Ok_0;
    if n > 0 {
        let k = (n - 1) as nat;
        let before = updated_rows(table, t, mode, rows, tables, contents, k)->Ok_0;
        lemma_updated(table, t, mode, rows, tables, contents, k);
        assert(rows[n - 1].complete(t));
        assert(cs.drop_last() =~= before);
        assert forall|i: int| 0 <= i < n implies (#[trigger] cs[i]).pk_key == rows[i].m@.pk_key
            && rows[i].m@.bytes is Ok && cs[i].bytes == Some(rows[i].m@.bytes->Ok_0) by {
            if i < k {
                assert(before[i] == cs[i]);
            }
        }
    }
}

/// What an accepted update stored is read back: each row is found in its new form, and
/// all other rows are as they were. No CHECK is violated by it, and no reference of it
/// lacks its parent row.
pub proof fn updated_rows_are_found(
    table: Seq<char>,
    t: TableV,
    mode: Mode,
    rows: Seq<Changed>,
    tables: Seq<TableV>,
    contents: Seq<Seq<StoredRowV>>,
    m: Map<Seq<u8>, Seq<u8>>,
)
    requires
        updated_rows(table, t, mode, rows, tables, contents, rows.len()) is Ok,
        forall|i: int| 0 <= i < rows.len() ==> (#[trigger] rows[i]).complete(t),
        forall|i: int, j: int|
            0 <= i < j < rows.len() ==> (#[trigger] rows[i]).m@.pk_key != (
            #[trigger] rows[j]).m@.pk_key,
    ensures
        ({
            let cs = updated_rows(table, t, mode, rows, tables, contents, rows.len())->Ok_0;
            let after = base_after(m, base_of(cs));
            &&& forall|i: int|
                0 <= i < rows.len() ==> after.contains_key((#[trigger] rows[i]).m@.pk_key)
                    && rows[i].m@.bytes == Ok::<Seq<u8>, TypeError>(after[rows[i].m@.pk_key])
                    && checks_violation(t, rows[i].after(), rows[i].relations@) is None
                    && update_fks_error(
                    t,
                    rows[i].before(),
                    rows[i].after(),
                    rows[i].found@,
                    0,
                ) is None
            &&& forall|k: Seq<u8>|
                (forall|i: int| 0 <= i < rows.len() ==> (#[trigger] rows[i]).m@.pk_key != k) ==> (
                #[trigger] after.contains_key(k) <==> m.contains_key(k)) && (m.contains_key(k)
                    ==> after[k] == m[k])
        }),
{
    let cs = updated_rows(table, t, mode, rows, tables, contents, rows.len())->Ok_0;
    let after = base_after(m, base_of(cs));
    lemma_updated(table, t, mode, rows, tables, contents, rows.len());
    assert forall|i: int, j: int| 0 <= i < j < cs.len() implies staged_keys(cs)[i] != staged_keys(
        cs,
    )[j] by {
        assert(cs[i].pk_key == rows[i].m@.pk_key && cs[j].pk_key == rows[j].m@.pk_key);
    }
    staged_rows_reach_their_table(m, cs);
    assert forall|i: int| 0 <= i < rows.len() implies after.contains_key(
        (#[trigger] rows[i]).m@.pk_key,
    ) && rows[i].m@.bytes == Ok::<Seq<u8>, TypeError>(after[rows[i].m@.pk_key]) && checks_violation(
        t,
        rows[i].after(),
        rows[i].relations@,
    ) is None && update_fks_error(t, rows[i].before(), rows[i].after(), rows[i].found@, 0) is None by {
        assert(cs[i].pk_key == rows[i].m@.pk_key);
        assert(changed_error(t, rows[i], tables, contents) is None);
    }
    assert forall|k: Seq<u8>|
        (forall|i: int| 0 <= i < rows.len() ==> (#[trigger] rows[i]).m@.pk_key != k) implies (
    #[trigger] after.contains_key(k) <==> m.contains_key(k)) && (m.contains_key(k) ==> after[k]
        == m[k]) by {
        assert(!is_staged(cs, k)) by {
            if is_staged(cs, k) {
                let c = choose|c: int| 0 <= c < cs.len() && (#[trigger] cs[c]).pk_key == k;
                assert(rows[c].m@.pk_key == k);
            }
        }
        lemma_unstaged(m, cs, k);
    }
}

proof fn lemma_removed(table: Seq<char>, t: TableV, rows: Seq<Doomed>, n: nat)
    requires
        n <= rows.len(),
        removed_rows(table, t, rows, n) is Ok,
    ensures
        removed_rows(table, t, rows, n)->Ok_0.len() == n,
        forall|i: int|
            0 <= i < n ==> (#[trigger] removed_rows(table, t, rows, n)->Ok_0[i]).pk_key
                == rows[i].pk_key@ && removed_rows(table, t, rows, n)->Ok_0[i].bytes is None,
    decreases n,
{
    let cs = removed_rows(table, t, rows, n)->Ok_0;
    if n > 0 {
        let k = (n - 1) as nat;
        let before = removed_rows(table, t, rows, k)->Ok_0;
        let d = rows[n - 1];
        lemma_removed(table, t, rows, k);
        assert(removal(t.indexes.len(), d.pk_key@, d.row@).new is None);
        assert forall|i: int| 0 <= i < n implies (#[trigger] cs[i]).pk_key == rows[i].pk_key@
            && cs[i].bytes is None by {
            if i < k {
                assert(before[i] == cs[i]);
            }
        }
    }
}

/// What an accepted delete removed is gone, and all other rows are as they were.
pub proof fn removed_rows_are_gone(
    table: Seq<char>,
    t: TableV,
    rows: Seq<Doomed>,
    m: Map<Seq<u8>, Seq<u8>>,
)
    requires
        removed_rows(table, t, rows, rows.len()) is Ok,
    ensures
        ({
            let cs = removed_rows(table, t, rows, rows.len())->Ok_0;
            let after = base_after(m, base_of(cs));
            &&& forall|i: int|
                0 <= i < rows.len() ==> !after.contains_key((#[trigger] rows[i]).pk_key@)
            &&& forall|k: Seq<u8>|
                (forall|i: int| 0 <= i < rows.len() ==> (#[trigger] rows[i]).pk_key@ != k) ==> (
                #[trigger] after.contains_key(k) <==> m.contains_key(k)) && (m.contains_key(k)
                    ==> after[k] == m[k])
        }),
{
    let cs = removed_rows(table, t, rows, rows.len())->Ok_0;
    let after = base_after(m, base_of(cs));
    lemma_removed(table, t, rows, rows.len());
    assert forall|i: int| 0 <= i < rows.len() implies !after.contains_key(
        (#[trigger] rows[i]).pk_key@,
    ) by {
        assert forall|j: int| 0 <= j < base_of(cs).len() implies (
        #[trigger] base_of(cs)[j]).1 is None by {
            assert(cs[j].bytes is None);
        }
        assert(base_of(cs)[i].0 == cs[i].pk_key);
        lemma_all_gone(m, base_of(cs), rows[i].pk_key@, i);
    }
    assert forall|k: Seq<u8>|
        (forall|i: int| 0 <= i < rows.len() ==> (#[trigger] rows[i]).pk_key@ != k) implies (
    #[trigger] after.contains_key(k) <==> m.contains_key(k)) && (m.contains_key(k) ==> after[k]
        == m[k]) by {
        assert(!is_staged(cs, k)) by {
            if is_staged(cs, k) {
                let c = choose|c: int| 0 <= c < cs.len() && (#[trigger] cs[c]).pk_key == k;
                assert(rows[c].pk_key@ == k);
            }
        }
        lemma_unstaged(m, cs, k);
    }
}

} // verus!
