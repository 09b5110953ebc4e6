//! Catalog-tree layout: which keys hold what.
//!
//! The published root is the catalog B+tree. Its entries are keyed with the
//! order-preserving key encoding of a band name and the names it is about, so
//! that each kind forms one contiguous, scannable band:
//!
//! | key | value | changes |
//! |---|---|---|
//! | `("tbl", name)`          | the stored table definition       | on DDL |
//! | `("root", name)`         | the table's data-tree root        | on every write |
//! | `("seq", name)`          | next auto-increment value         | on auto-key inserts |
//! | `("iroot", name, index)` | the index's tree root             | on writes to the index |

use vstd::prelude::*;
use super::codec::{decode_table, decodes, known_views, read_table, Decoded};
use super::error::{CatalogCorruption, CatalogError, CatalogErrorV, Result};
use crate::bytes::{
    get_le64, le_bytes, le_nat, lemma_le_bytes_len, lemma_le_nat_of_le_bytes, lemma_pow256_values,
    push_le,
};
use crate::index::{bounds_cover_exactly_the_prefix, starts_with, successor_of};
use crate::order::before;
use crate::pager::page::PageId;
use crate::value::{values, Value, ValueV};

verus! {

fn named_key(band: &str, table: &str) -> (r: Vec<Value>)
    ensures
        values(r@) == seq![ValueV::Text(band@), ValueV::Text(table@)],
{
    let mut key: Vec<Value> = Vec::new();
    key.push(Value::Text(band.to_owned()));
    key.push(Value::Text(table.to_owned()));
    assert(values(key@) =~= seq![ValueV::Text(band@), ValueV::Text(table@)]);
    key
}

/// The components of the key of a table's schema entry.
pub fn tbl_key(table: &str) -> (r: Vec<Value>)
    ensures
        values(r@) == seq![ValueV::Text("tbl"@), ValueV::Text(table@)],
{
    named_key("tbl", table)
}

/// The components of the key of a table's data-root entry.
pub fn root_key(table: &str) -> (r: Vec<Value>)
    ensures
        values(r@) == seq![ValueV::Text("root"@), ValueV::Text(table@)],
{
    named_key("root", table)
}

/// The components of the key of a table's auto-increment sequence entry.
pub fn seq_key(table: &str) -> (r: Vec<Value>)
    ensures
        values(r@) == seq![ValueV::Text("seq"@), ValueV::Text(table@)],
{
    named_key("seq", table)
}

/// The components of the key of an index's root entry.
pub fn iroot_key(table: &str, index: &str) -> (r: Vec<Value>)
    ensures
        values(r@) == seq![
            ValueV::Text("iroot"@),
            ValueV::Text(table@),
            ValueV::Text(index@),
        ],
{
    let mut key = named_key("iroot", table);
    let ghost before = key@;
    key.push(Value::Text(index.to_owned()));
    assert(values(key@) =~= values(before).push(ValueV::Text(index@)));
    assert(values(key@) =~= seq![
        ValueV::Text("iroot"@),
        ValueV::Text(table@),
        ValueV::Text(index@),
    ]);
    key
}

/// The components that all schema keys start with.
pub fn tbl_band() -> (r: Vec<Value>)
    ensures
        values(r@) == seq![ValueV::Text("tbl"@)],
{
    let mut key: Vec<Value> = Vec::new();
    key.push(Value::Text("tbl".to_owned()));
    assert(values(key@) =~= seq![ValueV::Text("tbl"@)]);
    key
}

/// The components that all root keys of a table's indexes start with.
pub fn iroot_band(table: &str) -> (r: Vec<Value>)
    ensures
        values(r@) == seq![ValueV::Text("iroot"@), ValueV::Text(table@)],
{
    named_key("iroot", table)
}

/// The exclusive upper bound of a band whose encoded components are `lo`: its
/// last byte becomes `0x01`.
pub open spec fn band_bound(lo: Seq<u8>) -> Seq<u8> {
    if lo.len() == 0 {
        lo
    } else {
        lo.drop_last().push(0x01)
    }
}

/// The exclusive upper bound of a band whose encoded components are `lo`.
///
/// An encoded text component ends with the `0x00 0x00` terminator and every
/// longer key extends it, so bumping the final terminator byte is the tightest
/// bound.
pub fn band_end(lo: &Vec<u8>) -> (r: Vec<u8>)
    ensures
        r@ == band_bound(lo@),
{
    let mut hi = crate::bytes::to_vec(lo.as_slice());
    let n: usize = hi.len();
    if n > 0 {
        hi.set(n - 1, 0x01);
    }
    assert(hi@ =~= band_bound(lo@));
    hi
}

/// A band holds exactly the keys that extend its components, where their encoding
/// ends with the terminator byte `0x00`.
pub proof fn bands_hold_exactly_their_keys(key: Seq<u8>, lo: Seq<u8>)
    requires
        lo.len() > 0,
        lo.last() == 0,
    ensures
        starts_with(key, lo) <==> !before(key, lo) && before(key, band_bound(lo)),
{
    bounds_cover_exactly_the_prefix(key, lo);
    assert(successor_of(lo) == Some(band_bound(lo)));
}

/// Encode a tree root for its entry.
pub fn encode_root(root: PageId) -> (r: Vec<u8>)
    ensures
        r@ == le_bytes(root.0 as nat, 8),
{
    let mut out: Vec<u8> = Vec::new();
    push_le(&mut out, root.get(), 8);
    assert(out@ =~= le_bytes(root.0 as nat, 8));
    out
}

/// The root that an entry's bytes name.
pub open spec fn root_of(bytes: Seq<u8>) -> core::result::Result<PageId, CatalogErrorV> {
    if bytes.len() == 8 {
        Ok(PageId(le_nat(bytes) as u64))
    } else {
        Err(CatalogErrorV::Corrupt(CatalogCorruption::BadValue))
    }
}

/// Decode a tree root entry.
pub fn decode_root(bytes: &[u8]) -> (r: Result<PageId>)
    ensures
        match r {
            Ok(id) => root_of(bytes@) == Ok::<PageId, CatalogErrorV>(id),
            Err(e) => root_of(bytes@) == Err::<PageId, CatalogErrorV>(e@),
        },
{
    if bytes.len() != 8 {
        return Err(CatalogError::Corrupt(CatalogCorruption::BadValue));
    }
    let raw = get_le64(bytes, 0);
    assert(bytes@.subrange(0, 8) =~= bytes@);
    Ok(PageId::new(raw))
}

/// Encode an auto-increment sequence value.
pub fn encode_seq(next: i64) -> (r: Vec<u8>)
    ensures
        r@ == le_bytes((next as u64) as nat, 8),
{
    let mut out: Vec<u8> = Vec::new();
    push_le(&mut out, next as u64, 8);
    assert(out@ =~= le_bytes((next as u64) as nat, 8));
    out
}

/// The sequence value that an entry's bytes hold.
pub open spec fn seq_of(bytes: Seq<u8>) -> core::result::Result<i64, CatalogErrorV> {
    if bytes.len() == 8 {
        Ok((le_nat(bytes) as u64) as i64)
    } else {
        Err(CatalogErrorV::Corrupt(CatalogCorruption::BadValue))
    }
}

/// Decode an auto-increment sequence value.
pub fn decode_seq(bytes: &[u8]) -> (r: Result<i64>)
    ensures
        match r {
            Ok(n) => seq_of(bytes@) == Ok::<i64, CatalogErrorV>(n),
            Err(e) => seq_of(bytes@) == Err::<i64, CatalogErrorV>(e@),
        },
{
    if bytes.len() != 8 {
        return Err(CatalogError::Corrupt(CatalogCorruption::BadValue));
    }
    let raw = get_le64(bytes, 0);
    assert(bytes@.subrange(0, 8) =~= bytes@);
    Ok(raw as i64)
}

/// Stored roots are read back.
pub proof fn roots_round_trip(root: PageId)
    ensures
        root_of(le_bytes(root.0 as nat, 8)) == Ok::<PageId, CatalogErrorV>(root),
{
    lemma_le_bytes_len(root.0 as nat, 8);
    lemma_pow256_values();
    lemma_le_nat_of_le_bytes(root.0 as nat, 8);
}

/// Stored sequence values are read back.
pub proof fn sequences_round_trip(next: i64)
    ensures
        seq_of(le_bytes((next as u64) as nat, 8)) == Ok::<i64, CatalogErrorV>(next),
{
    let u = next as u64;
    lemma_le_bytes_len(u as nat, 8);
    lemma_pow256_values();
    lemma_le_nat_of_le_bytes(u as nat, 8);
    assert((next as u64) as i64 == next) by (bit_vector);
}

/// The root in a root entry: the entry has to be there.
pub fn load_root(entry: &Option<Vec<u8>>) -> (r: Result<PageId>)
    ensures
        match *entry {
            None => r is Err && r->Err_0@ == CatalogErrorV::Corrupt(
                CatalogCorruption::MissingEntry,
            ),
            Some(b) => match r {
                Ok(id) => root_of(b@) == Ok::<PageId, CatalogErrorV>(id),
                Err(e) => root_of(b@) == Err::<PageId, CatalogErrorV>(e@),
            },
        },
{
    match entry {
        Some(bytes) => decode_root(bytes.as_slice()),
        None => Err(CatalogError::Corrupt(CatalogCorruption::MissingEntry)),
    }
}

/// The next auto-increment value: that of the sequence entry, or 1.
pub fn load_seq(entry: &Option<Vec<u8>>) -> (r: Result<i64>)
    ensures
        match *entry {
            None => r is Ok && r->Ok_0 == 1,
            Some(b) => match r {
                Ok(n) => seq_of(b@) == Ok::<i64, CatalogErrorV>(n),
                Err(e) => seq_of(b@) == Err::<i64, CatalogErrorV>(e@),
            },
        },
{
    match entry {
        Some(bytes) => decode_seq(bytes.as_slice()),
        None => Ok(1),
    }
}

/// The definition in a schema entry, given the literals decoded so far: without
/// an entry the table is unknown.
pub fn load_table(table: &str, entry: &Option<Vec<u8>>, known: &Vec<Option<Value>>) -> (r: Result<
    Decoded,
>)
    ensures
        match *entry {
            None => r is Err && r->Err_0@ == (CatalogErrorV::UnknownTable { table: table@ }),
            Some(b) => decodes(r, read_table(b@, known_views(known@))),
        },
{
    match entry {
        Some(bytes) => decode_table(bytes.as_slice(), known),
        None => Err(CatalogError::UnknownTable { table: table.to_owned() }),
    }
}

} // verus!
