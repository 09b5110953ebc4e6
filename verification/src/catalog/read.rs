//! Reading rows back: what was stored, in the columns that a table has now.

use vstd::prelude::*;
use super::error::{CatalogErrorV, Result};
use super::fk::{StoredRow, StoredRowV};
use super::row::{decode_padded, decoded_view, read_row};
use super::schema::{TableDef, TableV};
use crate::value::{values, TypeError, Value, ValueV};
use crate::views::{collect, lemma_collect_err, lemma_collect_ok, lemma_views_push, views};

verus! {

/// A stored row as the value layer decoded it, with its encoded primary key.
#[derive(Debug, PartialEq, Eq)]
pub struct DecodedRow {
    /// The encoded primary key.
    pub pk_key: Vec<u8>,
    /// The decoded row.
    pub row: core::result::Result<Vec<Value>, TypeError>,
}

/// What a [`DecodedRow`] holds.
#[verifier::ext_equal]
pub struct DecodedRowV {
    pub pk_key: Seq<u8>,
    pub row: core::result::Result<Seq<ValueV>, TypeError>,
}

impl View for DecodedRow {
    type V = DecodedRowV;

    open spec fn view(&self) -> DecodedRowV {
        DecodedRowV { pk_key: self.pk_key@, row: decoded_view(self.row) }
    }
}

/// One row as it reads today.
pub open spec fn read_one(t: TableV, d: DecodedRowV) -> core::result::Result<
    StoredRowV,
    CatalogErrorV,
> {
    match read_row(t, d.row) {
        Ok(row) => Ok(StoredRowV { pk_key: d.pk_key, row }),
        Err(e) => Err(e),
    }
}

/// Rows as they read today, or the first error among them.
pub open spec fn read_all(t: TableV, ds: Seq<DecodedRowV>) -> core::result::Result<
    Seq<StoredRowV>,
    CatalogErrorV,
> {
    collect(Seq::new(ds.len(), |i: int| read_one(t, ds[i])))
}

/// The row at a key, `found` being what is stored there.
pub fn get(
    def: &TableDef,
    found: Option<core::result::Result<Vec<Value>, TypeError>>,
) -> (r: Result<Option<Vec<Value>>>)
    ensures
        match found {
            None => r is Ok && r->Ok_0 is None,
            Some(decoded) => match r {
                Ok(row) => row is Some && read_row(def@, decoded_view(decoded)) == Ok::<
                    Seq<ValueV>,
                    CatalogErrorV,
                >(values(row->Some_0@)),
                Err(e) => read_row(def@, decoded_view(decoded)) == Err::<
                    Seq<ValueV>,
                    CatalogErrorV,
                >(e@),
            },
        },
{
    match found {
        None => Ok(None),
        Some(decoded) => match decode_padded(def, decoded) {
            Ok(row) => Ok(Some(row)),
            Err(e) => Err(e),
        },
    }
}

/// All rows, in the order in which they are stored.
pub fn scan(def: &TableDef, stored: Vec<DecodedRow>) -> (r: Result<Vec<StoredRow>>)
    ensures
        match r {
            Ok(rows) => read_all(def@, views(stored@)) == Ok::<Seq<StoredRowV>, CatalogErrorV>(
                views(rows@),
            ),
            Err(e) => read_all(def@, views(stored@)) == Err::<Seq<StoredRowV>, CatalogErrorV>(e@),
        },
{
    let ghost t = def@;
    let ghost ds = views(stored@);
    let ghost all = stored@;
    let ghost results = Seq::new(ds.len(), |i: int| read_one(t, ds[i]));
    let mut out: Vec<StoredRow> = Vec::new();
    for d in it: stored
        invariant
            it.seq() == all,
            t == def@,
            ds == views(all),
            results == Seq::new(ds.len(), |i: int| read_one(t, ds[i])),
            out@.len() == it.index(),
            forall|j: int|
                0 <= j < out@.len() ==> #[trigger] results[j] == Ok::<StoredRowV, CatalogErrorV>(
                    views(out@)[j],
                ),
    {
        let ghost k = out@.len() as int;
        let ghost before = out@;
        proof {
            assert(d == all[k]);
            assert(ds[k] == d@);
            assert(results[k] == read_one(t, d@));
        }
        match decode_padded(def, d.row) {
            Ok(row) => {
                out.push(StoredRow { pk_key: d.pk_key, row });
                proof {
                    lemma_views_push(before, out@.last());
                }
            },
            Err(e) => {
                proof {
                    assert forall|i: int| 0 <= i < k implies #[trigger] results[i] is Ok by {}
                    lemma_collect_err(results, k);
                    assert(read_all(t, ds) == Err::<Seq<StoredRowV>, CatalogErrorV>(e@));
                }
                return Err(e);
            },
        }
    }
    proof {
        lemma_collect_ok(results, views(out@));
    }
    Ok(out)
}

/// A scan gives a row for each stored one, in order, under its own key and as it reads today;
/// the first that cannot be read is what it fails with.
pub proof fn scans_read_every_row(t: TableV, ds: Seq<DecodedRowV>)
    ensures
        match read_all(t, ds) {
            Ok(rows) => {
                &&& rows.len() == ds.len()
                &&& forall|i: int|
                    0 <= i < ds.len() ==> (#[trigger] rows[i]).pk_key == ds[i].pk_key && read_row(
                        t,
                        ds[i].row,
                    ) == Ok::<Seq<ValueV>, CatalogErrorV>(rows[i].row)
            },
            Err(e) => exists|i: int|
                {
                    &&& 0 <= i < ds.len()
                    &&& read_row(t, (#[trigger] ds[i]).row) == Err::<Seq<ValueV>, CatalogErrorV>(e)
                    &&& forall|j: int| 0 <= j < i ==> read_row(t, (#[trigger] ds[j]).row) is Ok
                },
        },
{
    let each = Seq::new(ds.len(), |i: int| read_one(t, ds[i]));
    if forall|i: int| 0 <= i < ds.len() ==> read_row(t, (#[trigger] ds[i]).row) is Ok {
        let rows = Seq::new(
            ds.len(),
            |i: int| StoredRowV { pk_key: ds[i].pk_key, row: read_row(t, ds[i].row)->Ok_0 },
        );
        assert forall|i: int| 0 <= i < each.len() implies #[trigger] each[i] == Ok::<
            StoredRowV,
            CatalogErrorV,
        >(rows[i]) by {
            assert(read_row(t, ds[i].row) is Ok);
        }
        lemma_collect_ok(each, rows);
    } else {
        let k = lemma_first_unread(t, ds, 0);
        assert forall|i: int| 0 <= i < k implies #[trigger] each[i] is Ok by {
            assert(read_row(t, ds[i].row) is Ok);
        }
        lemma_collect_err(each, k);
    }
}

proof fn lemma_first_unread(t: TableV, ds: Seq<DecodedRowV>, n: int) -> (k: int)
    requires
        0 <= n <= ds.len(),
        forall|i: int| 0 <= i < n ==> read_row(t, (#[trigger] ds[i]).row) is Ok,
        !(forall|i: int| 0 <= i < ds.len() ==> read_row(t, (#[trigger] ds[i]).row) is Ok),
    ensures
        0 <= k < ds.len(),
        read_row(t, ds[k].row) is Err,
        forall|i: int| 0 <= i < k ==> read_row(t, (#[trigger] ds[i]).row) is Ok,
    decreases ds.len() - n,
{
    if read_row(t, ds[n].row) is Err {
        n
    } else {
        lemma_first_unread(t, ds, n + 1)
    }
}

} // verus!
