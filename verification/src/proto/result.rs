//! Result encoding and the keyset cursor-token envelope.
//!
//! Every response is a map `{v, ok, columns, rows, cursor, applied, affected}`;
//! errors are `{v, ok:false, code, error}` with `code` from the category list.
//! Row cells have their wire mapping (uuid as canonical string, timestamp as
//! int, json spliced verbatim).

use vstd::prelude::*;
use crate::bytes::{
    be_bytes, be_nat, get_be32, lemma_be_bytes_of_be_nat, lemma_be_nat_of_be_bytes,
    lemma_pow256_values, push_all, push_be, to_vec,
};
use crate::common::crc::{crc32c, crc32c_of};
use crate::common::error::{category_name, ErrorCategory};
use crate::value::{uuid_text, uuid_to_string, values, Value, ValueV};
use super::encode::{
    array_head, bin_form, entry_forms, form, forms, int_form, map_head, str_form, write_array_header,
    write_bin, write_int, write_map_header, write_str,
};
use super::error::{ProtoError, ProtoErrorV, Result};
use super::request::PROTOCOL_VERSION;
use super::wire::DocV;

verus! {

/// One query result, ready to encode.
#[derive(Debug, Clone, PartialEq, Eq)]
pub struct QueryResult {
    /// Output column names, in row order.
    pub columns: Vec<String>,
    /// The rows; each cell is a wire value.
    pub rows: Vec<Vec<Value>>,
    /// A continuation token when more pages remain.
    pub cursor: Option<Vec<u8>>,
    /// Whether a guarded/conditional write applied.
    pub applied: Option<bool>,
    /// Rows changed by a write.
    pub affected: Option<u64>,
}

impl Default for QueryResult {
    fn default() -> (r: Self)
        ensures
            r.columns@.len() == 0,
            r.rows@.len() == 0,
            r.cursor is None,
            r.applied is None,
            r.affected is None,
    {
        QueryResult {
            columns: Vec::new(),
            rows: Vec::new(),
            cursor: None,
            applied: None,
            affected: None,
        }
    }
}

/// The wire form of a cell.
pub open spec fn cell_form(v: ValueV) -> Seq<u8> {
    match v {
        ValueV::Null => seq![0xC0u8],
        ValueV::Bool(b) => form(DocV::Bool(b)),
        ValueV::I64(n) => int_form(n as int),
        ValueV::F64(f) => form(DocV::Float(f)),
        ValueV::Text(s) => str_form(s),
        ValueV::Blob(b) => bin_form(b),
        ValueV::Uuid(u) => str_form(uuid_text(u)),
        ValueV::Json(b) => b,
        ValueV::Timestamp(t) => int_form(t as int),
    }
}

/// The wire forms of cells, one after the other.
pub open spec fn cell_forms(row: Seq<ValueV>) -> Seq<u8>
    decreases row.len(),
{
    if row.len() == 0 {
        Seq::empty()
    } else {
        cell_forms(row.drop_last()) + cell_form(row.last())
    }
}

/// The wire forms of rows, one after the other.
pub open spec fn row_forms(rows: Seq<Vec<Value>>) -> Seq<u8>
    decreases rows.len(),
{
    if rows.len() == 0 {
        Seq::empty()
    } else {
        row_forms(rows.drop_last()) + array_head(rows.last()@.len()) + cell_forms(
            values(rows.last()@),
        )
    }
}

/// The wire forms of names, one after the other.
pub open spec fn name_forms(names: Seq<String>) -> Seq<u8>
    decreases names.len(),
{
    if names.len() == 0 {
        Seq::empty()
    } else {
        name_forms(names.drop_last()) + str_form(names.last()@)
    }
}

/// The wire form of a successful result.
pub open spec fn result_form(r: QueryResult) -> Seq<u8> {
    map_head(7) + str_form("v"@) + int_form(PROTOCOL_VERSION as int) + str_form("ok"@)
        + seq![0xC3u8] + str_form("columns"@) + array_head(r.columns@.len()) + name_forms(
        r.columns@,
    ) + str_form("rows"@) + array_head(r.rows@.len()) + row_forms(r.rows@) + str_form("cursor"@)
        + (match r.cursor {
        Some(token) => bin_form(token@),
        None => seq![0xC0u8],
    }) + str_form("applied"@) + (match r.applied {
        Some(true) => seq![0xC3u8],
        Some(false) => seq![0xC2u8],
        None => seq![0xC0u8],
    }) + str_form("affected"@) + (match r.affected {
        Some(n) => int_form(
            if n > i64::MAX {
                i64::MAX as int
            } else {
                n as int
            },
        ),
        None => seq![0xC0u8],
    })
}

fn write_cell(out: &mut Vec<u8>, v: &Value)
    ensures
        final(out)@ == old(out)@ + cell_form(v@),
{
    match v {
        Value::Null => {
            out.push(0xC0);
            assert(out@ =~= old(out)@ + cell_form(v@));
        },
        Value::Bool(b) => {
            out.push(
                if *b {
                    0xC3
                } else {
                    0xC2
                },
            );
            assert(out@ =~= old(out)@ + cell_form(v@));
        },
        Value::I64(n) => write_int(out, *n),
        Value::F64(f) => {
            out.push(0xCB);
            push_be(out, *f, 8);
            assert(out@ =~= old(out)@ + cell_form(v@));
        },
        Value::Text(s) => write_str(out, s.as_str()),
        Value::Blob(b) => write_bin(out, b.as_slice()),
        Value::Uuid(u) => {
            let s = uuid_to_string(u);
            write_str(out, s.as_str());
        },
        Value::Json(b) => push_all(out, b.as_slice()),
        Value::Timestamp(t) => write_int(out, *t),
    }
}

fn write_row(out: &mut Vec<u8>, row: &Vec<Value>)
    ensures
        final(out)@ == old(out)@ + array_head(row@.len()) + cell_forms(values(row@)),
{
    write_array_header(out, row.len());
    let ghost start = out@;
    let ghost cells = values(row@);
    let mut i: usize = 0;
    assert(cells.take(0) =~= Seq::empty());
    assert(out@ =~= start + cell_forms(cells.take(0)));
    while i < row.len()
        invariant
            i <= row@.len(),
            cells == values(row@),
            out@ == start + cell_forms(cells.take(i as int)),
        decreases row@.len() - i,
    {
        let ghost before = out@;
        write_cell(out, &row[i]);
        proof {
            let t = cells.take(i as int + 1);
            assert(t.drop_last() =~= cells.take(i as int));
            assert(t.last() == row@[i as int]@);
            assert(out@ =~= start + cell_forms(t));
        }
        i = i + 1;
    }
    assert(cells.take(i as int) =~= cells);
}

/// Encode a successful result: `{v, ok:true, columns, rows, cursor, applied,
/// affected}`. The optional fields are explicit `null`s.
pub fn encode_result(result: &QueryResult) -> (r: Result<Vec<u8>>)
    ensures
        r is Ok,
        r->Ok_0@ == result_form(*result),
{
    let mut out: Vec<u8> = Vec::new();
    write_map_header(&mut out, 7);
    write_str(&mut out, "v");
    write_int(&mut out, PROTOCOL_VERSION);
    write_str(&mut out, "ok");
    out.push(0xC3);  // true
    write_str(&mut out, "columns");
    write_array_header(&mut out, result.columns.len());
    let ghost s1 = map_head(7) + str_form("v"@) + int_form(PROTOCOL_VERSION as int) + str_form(
        "ok"@,
    ) + seq![0xC3u8] + str_form("columns"@) + array_head(result.columns@.len());
    assert(out@ =~= s1);
    let ghost names = result.columns@;
    let mut i: usize = 0;
    assert(names.take(0) =~= Seq::empty());
    assert(out@ =~= s1 + name_forms(names.take(0)));
    while i < result.columns.len()
        invariant
            i <= result.columns@.len(),
            names == result.columns@,
            out@ == s1 + name_forms(names.take(i as int)),
        decreases result.columns@.len() - i,
    {
        write_str(&mut out, result.columns[i].as_str());
        proof {
            let t = names.take(i as int + 1);
            assert(t.drop_last() =~= names.take(i as int));
            assert(t.last() == names[i as int]);
            assert(out@ =~= s1 + name_forms(t));
        }
        i = i + 1;
    }
    assert(names.take(i as int) =~= names);
    write_str(&mut out, "rows");
    write_array_header(&mut out, result.rows.len());
    let ghost s2 = s1 + name_forms(names) + str_form("rows"@) + array_head(result.rows@.len());
    assert(out@ =~= s2);
    let ghost rows = result.rows@;
    let mut i: usize = 0;
    assert(rows.take(0) =~= Seq::empty());
    assert(out@ =~= s2 + row_forms(rows.take(0)));
    while i < result.rows.len()
        invariant
            i <= result.rows@.len(),
            rows == result.rows@,
            out@ == s2 + row_forms(rows.take(i as int)),
        decreases result.rows@.len() - i,
    {
        write_row(&mut out, &result.rows[i]);
        proof {
            let t = rows.take(i as int + 1);
            assert(t.drop_last() =~= rows.take(i as int));
            assert(t.last() == rows[i as int]);
            assert(out@ =~= s2 + row_forms(t));
        }
        i = i + 1;
    }
    assert(rows.take(i as int) =~= rows);
    write_str(&mut out, "cursor");
    match &result.cursor {
        Some(token) => write_bin(&mut out, token.as_slice()),
        None => out.push(0xC0),
    }
    write_str(&mut out, "applied");
    match result.applied {
        Some(b) => {
            out.push(
                if b {
                    0xC3
                } else {
                    0xC2
                },
            )
        },
        None => out.push(0xC0),
    }
    write_str(&mut out, "affected");
    match result.affected {
        Some(n) => write_int(
            &mut out,
            if n > 0x7FFF_FFFF_FFFF_FFFF {
                i64::MAX
            } else {
                n as i64
            },
        ),
        None => out.push(0xC0),
    }
    assert(out@ =~= result_form(*result));
    Ok(out)
}

/// The document of an error result.
pub open spec fn error_doc(category: ErrorCategory, message: Seq<char>) -> DocV {
    DocV::Dict {
        keys: seq!["v"@, "ok"@, "code"@, "error"@],
        vals: seq![
            DocV::Int(PROTOCOL_VERSION),
            DocV::Bool(false),
            DocV::Str(category_name(category)),
            DocV::Str(message),
        ],
    }
}

/// Encode a typed error result: `{v, ok:false, code, error}` with `code` being
/// the stable category identifier.
pub fn encode_error_result(category: ErrorCategory, message: &str) -> (r: Vec<u8>)
    ensures
        r@ == form(error_doc(category, message@)),
{
    let mut out: Vec<u8> = Vec::new();
    write_map_header(&mut out, 4);
    write_str(&mut out, "v");
    write_int(&mut out, PROTOCOL_VERSION);
    write_str(&mut out, "ok");
    out.push(0xC2);  // false
    write_str(&mut out, "code");
    write_str(&mut out, category.as_str());
    write_str(&mut out, "error");
    write_str(&mut out, message);
    proof {
        lemma_error_form(category, message@);
        assert(out@ =~= form(error_doc(category, message@)));
    }
    out
}

proof fn lemma_error_form(category: ErrorCategory, message: Seq<char>)
    ensures
        form(error_doc(category, message)) == map_head(4) + (str_form("v"@) + int_form(
            PROTOCOL_VERSION as int,
        ) + (str_form("ok"@) + seq![0xC2u8] + (str_form("code"@) + str_form(
            category_name(category),
        ) + (str_form("error"@) + str_form(message) + Seq::<u8>::empty())))),
{
    let keys = seq!["v"@, "ok"@, "code"@, "error"@];
    let vals = seq![
        DocV::Int(PROTOCOL_VERSION),
        DocV::Bool(false),
        DocV::Str(category_name(category)),
        DocV::Str(message),
    ];
    let (k1, v1) = (keys.drop_first(), vals.drop_first());
    let (k2, v2) = (k1.drop_first(), v1.drop_first());
    let (k3, v3) = (k2.drop_first(), v2.drop_first());
    let (k4, v4) = (k3.drop_first(), v3.drop_first());
    assert(keys[0] == "v"@ && k1[0] == "ok"@ && k2[0] == "code"@ && k3[0] == "error"@);
    assert(vals[0] == DocV::Int(PROTOCOL_VERSION) && v1[0] == DocV::Bool(false) && v2[0]
        == DocV::Str(category_name(category)) && v3[0] == DocV::Str(message));
    assert(entry_forms(k4, v4) == Seq::<u8>::empty());
    assert(entry_forms(k3, v3) == str_form(k3[0]) + form(v3[0]) + entry_forms(k4, v4));
    assert(entry_forms(k2, v2) == str_form(k2[0]) + form(v2[0]) + entry_forms(k3, v3));
    assert(entry_forms(k1, v1) == str_form(k1[0]) + form(v1[0]) + entry_forms(k2, v2));
    assert(entry_forms(keys, vals) == str_form(keys[0]) + form(vals[0]) + entry_forms(k1, v1));
    assert(form(DocV::Bool(false)) == seq![0xC2u8]);
}

/// The cursor-token format version.
pub const CURSOR_VERSION: u8 = 1;

/// A token: version, checksum, payload.
pub open spec fn token_form(payload: Seq<u8>) -> Seq<u8> {
    seq![CURSOR_VERSION] + be_bytes(crc32c_of(payload) as nat, 4) + payload
}

/// The payload of a token, if it is one.
pub open spec fn token_payload(token: Seq<u8>) -> Option<Seq<u8>> {
    if token.len() < 5 || token[0] != CURSOR_VERSION || be_nat(token.subrange(1, 5)) != crc32c_of(
        token.skip(5),
    ) {
        None
    } else {
        Some(token.skip(5))
    }
}

/// Wrap an executor keyset payload in the opaque token envelope:
/// `[version][crc32c(payload) BE][payload]`. The envelope makes a mangled or
/// truncated token a clean `Validation` error instead of a nonsense seek.
pub fn encode_cursor_token(payload: &[u8]) -> (r: Vec<u8>)
    ensures
        r@ == token_form(payload@),
{
    let mut out: Vec<u8> = Vec::new();
    out.push(CURSOR_VERSION);
    let crc = crc32c(payload);
    push_be(&mut out, crc as u64, 4);
    push_all(&mut out, payload);
    assert(out@ =~= token_form(payload@));
    out
}

/// Unwrap a cursor token, verifying version and checksum.
pub fn decode_cursor_token(token: &[u8]) -> (r: Result<Vec<u8>>)
    ensures
        match r {
            Ok(payload) => token_payload(token@) == Some(payload@),
            Err(e) => token_payload(token@) is None && e@ == ProtoErrorV::BadCursorToken,
        },
{
    if token.len() < 5 {
        return Err(ProtoError::BadCursorToken);
    }
    if token[0] != CURSOR_VERSION {
        return Err(ProtoError::BadCursorToken);
    }
    let payload = &token[5..token.len()];
    assert(payload@ =~= token@.skip(5));
    if get_be32(token, 1) != crc32c(payload) {
        return Err(ProtoError::BadCursorToken);
    }
    Ok(to_vec(payload))
}

/// Unwrapping a token gives back what was wrapped.
pub proof fn cursor_tokens_round_trip(payload: Seq<u8>)
    ensures
        token_payload(token_form(payload)) == Some(payload),
{
    lemma_pow256_values();
    let crc = crc32c_of(payload) as nat;
    lemma_be_nat_of_be_bytes(crc, 4);
    let token = token_form(payload);
    assert(token.subrange(1, 5) =~= be_bytes(crc, 4));
    assert(token.skip(5) =~= payload);
}

/// A token is only ever unwrapped to what wraps to it: no other bytes pass.
pub proof fn cursor_tokens_are_canonical(token: Seq<u8>)
    requires
        token_payload(token) is Some,
    ensures
        token_form(token_payload(token)->Some_0) == token,
{
    let crc = token.subrange(1, 5);
    lemma_be_bytes_of_be_nat(crc);
    assert(token_form(token.skip(5)) =~= token);
}

// --- results as documents ----------------------------------------------------

/// Whether a document is what a client reads of a cell: a UUID in its text, a time as a
/// number, and JSON as whatever document its bytes are.
pub open spec fn is_cell_doc(v: ValueV, d: DocV) -> bool {
    match v {
        ValueV::Null => d is Null,
        ValueV::Bool(b) => d == DocV::Bool(b),
        ValueV::I64(n) => d == DocV::Int(n),
        ValueV::F64(f) => d == DocV::Float(f),
        ValueV::Text(s) => d == DocV::Str(s),
        ValueV::Blob(b) => d == DocV::Bin(b),
        ValueV::Uuid(u) => d == DocV::Str(uuid_text(u)),
        ValueV::Json(b) => form(d) == b,
        ValueV::Timestamp(t) => d == DocV::Int(t),
    }
}

/// Whether documents are what a client reads of rows: an array for each, with a document
/// for each of its cells.
pub open spec fn are_row_docs(rows: Seq<Vec<Value>>, docs: Seq<DocV>) -> bool {
    &&& rows.len() == docs.len()
    &&& forall|r: int|
        0 <= r < rows.len() ==> ((#[trigger] docs[r]) matches DocV::Array(cells)
            && are_cell_docs(values(rows[r]@), cells))
}

/// Whether documents are what a client reads of cells.
pub open spec fn are_cell_docs(row: Seq<ValueV>, cells: Seq<DocV>) -> bool {
    &&& row.len() == cells.len()
    &&& forall|c: int| 0 <= c < row.len() ==> is_cell_doc(row[c], #[trigger] cells[c])
}

/// The document of a result whose rows are read as these documents.
pub open spec fn result_doc(r: QueryResult, rows: Seq<DocV>) -> DocV {
    DocV::Dict {
        keys: seq!["v"@, "ok"@, "columns"@, "rows"@, "cursor"@, "applied"@, "affected"@],
        vals: seq![
            DocV::Int(PROTOCOL_VERSION),
            DocV::Bool(true),
            DocV::Array(Seq::new(r.columns@.len(), |i: int| DocV::Str(r.columns@[i]@))),
            DocV::Array(rows),
            match r.cursor {
                Some(token) => DocV::Bin(token@),
                None => DocV::Null,
            },
            match r.applied {
                Some(b) => DocV::Bool(b),
                None => DocV::Null,
            },
            match r.affected {
                Some(n) => DocV::Int(
                    if n > i64::MAX {
                        i64::MAX
                    } else {
                        n as i64
                    },
                ),
                None => DocV::Null,
            },
        ],
    }
}

proof fn lemma_forms_push(items: Seq<DocV>, d: DocV)
    ensures
        forms(items.push(d)) == forms(items) + form(d),
    decreases items.len(),
{
    let all = items.push(d);
    if items.len() == 0 {
        assert(all.drop_first() =~= Seq::empty());
        assert(forms(all.drop_first()) =~= Seq::empty());
        assert(forms(all) =~= forms(items) + form(d));
    } else {
        assert(all.drop_first() =~= items.drop_first().push(d));
        lemma_forms_push(items.drop_first(), d);
        assert(form(items[0]) + (forms(items.drop_first()) + form(d)) =~= form(items[0]) + forms(
            items.drop_first(),
        ) + form(d));
    }
}

proof fn lemma_cell_docs(row: Seq<ValueV>, cells: Seq<DocV>)
    requires
        are_cell_docs(row, cells),
    ensures
        cell_forms(row) == forms(cells),
    decreases row.len(),
{
    if row.len() > 0 {
        let front = cells.drop_last();
        assert forall|c: int| 0 <= c < row.drop_last().len() implies is_cell_doc(
            row.drop_last()[c],
            #[trigger] front[c],
        ) by {
            assert(front[c] == cells[c]);
        }
        lemma_cell_docs(row.drop_last(), front);
        lemma_forms_push(front, cells.last());
        assert(front.push(cells.last()) =~= cells);
        assert(is_cell_doc(row[row.len() - 1], cells[row.len() - 1]));
    } else {
        assert(cells =~= Seq::empty());
    }
}

proof fn lemma_row_docs(rows: Seq<Vec<Value>>, docs: Seq<DocV>)
    requires
        are_row_docs(rows, docs),
    ensures
        row_forms(rows) == forms(docs),
    decreases rows.len(),
{
    if rows.len() > 0 {
        let l = rows.len() - 1;
        let front = docs.drop_last();
        assert forall|r: int| 0 <= r < rows.drop_last().len() implies ((
        #[trigger] front[r]) matches DocV::Array(cells) && are_cell_docs(
            values(rows.drop_last()[r]@),
            cells,
        )) by {
            assert(front[r] == docs[r]);
        }
        lemma_row_docs(rows.drop_last(), front);
        lemma_forms_push(front, docs.last());
        assert(front.push(docs.last()) =~= docs);
        assert(docs[l] is Array);
        let cells = docs[l]->Array_0;
        lemma_cell_docs(values(rows[l]@), cells);
        assert(form(docs[l]) == array_head(cells.len()) + forms(cells));
        assert(forms(front) + (array_head(cells.len()) + forms(cells)) =~= forms(front)
            + array_head(cells.len()) + forms(cells));
    } else {
        assert(docs =~= Seq::empty());
    }
}

proof fn lemma_name_docs(names: Seq<String>)
    ensures
        name_forms(names) == forms(Seq::new(names.len(), |i: int| DocV::Str(names[i]@))),
    decreases names.len(),
{
    let docs = Seq::new(names.len(), |i: int| DocV::Str(names[i]@));
    if names.len() > 0 {
        let front = names.drop_last();
        lemma_name_docs(front);
        let less = Seq::new(front.len(), |i: int| DocV::Str(front[i]@));
        lemma_forms_push(less, DocV::Str(names.last()@));
        assert(less.push(DocV::Str(names.last()@)) =~= docs);
    } else {
        assert(docs =~= Seq::empty());
    }
}

/// A result is sent as a document: a map of the version, that it succeeded, the columns, the
/// rows, the token, whether it applied and how many rows it affected, with nulls for what
/// there is not.
pub proof fn results_are_sent_as_documents(r: QueryResult, rows: Seq<DocV>)
    requires
        are_row_docs(r.rows@, rows),
    ensures
        result_form(r) == form(result_doc(r, rows)),
{
    lemma_row_docs(r.rows@, rows);
    lemma_name_docs(r.columns@);
    let names = Seq::new(r.columns@.len(), |i: int| DocV::Str(r.columns@[i]@));
    let keys = seq!["v"@, "ok"@, "columns"@, "rows"@, "cursor"@, "applied"@, "affected"@];
    let vals = result_doc(r, rows)->vals;
    lemma_seven(keys, vals);
    assert(form(DocV::Bool(true)) =~= seq![0xC3u8]);
    assert(form(DocV::Bool(false)) =~= seq![0xC2u8]);
    assert(form(DocV::Null) =~= seq![0xC0u8]);
    assert(form(vals[2]) == array_head(names.len()) + forms(names));
    assert(form(vals[3]) == array_head(rows.len()) + forms(rows));
    let n7 = Seq::<u8>::empty();
    let n6 = str_form(keys[6]) + form(vals[6]) + n7;
    let n5 = str_form(keys[5]) + form(vals[5]) + n6;
    let n4 = str_form(keys[4]) + form(vals[4]) + n5;
    let n3 = str_form(keys[3]) + form(vals[3]) + n4;
    let n2 = str_form(keys[2]) + form(vals[2]) + n3;
    let n1 = str_form(keys[1]) + form(vals[1]) + n2;
    let f0 = map_head(7);
    let f1 = f0 + str_form(keys[0]) + form(vals[0]);
    let f2 = f1 + str_form(keys[1]) + form(vals[1]);
    let f3 = f2 + str_form(keys[2]) + form(vals[2]);
    let f4 = f3 + str_form(keys[3]) + form(vals[3]);
    let f5 = f4 + str_form(keys[4]) + form(vals[4]);
    let f6 = f5 + str_form(keys[5]) + form(vals[5]);
    let f7 = f6 + str_form(keys[6]) + form(vals[6]);
    lemma_shift(f0, str_form(keys[0]), form(vals[0]), n1);
    lemma_shift(f1, str_form(keys[1]), form(vals[1]), n2);
    lemma_shift(f2, str_form(keys[2]), form(vals[2]), n3);
    lemma_shift(f3, str_form(keys[3]), form(vals[3]), n4);
    lemma_shift(f4, str_form(keys[4]), form(vals[4]), n5);
    lemma_shift(f5, str_form(keys[5]), form(vals[5]), n6);
    lemma_shift(f6, str_form(keys[6]), form(vals[6]), n7);
    assert(f7 + n7 =~= f7);
    assert(form(result_doc(r, rows)) == f7);
    lemma_apart(f2 + str_form(keys[2]), array_head(names.len()), forms(names));
    lemma_apart(f3 + str_form(keys[3]), array_head(rows.len()), forms(rows));
}

proof fn lemma_shift(a: Seq<u8>, k: Seq<u8>, v: Seq<u8>, n: Seq<u8>)
    ensures
        a + (k + v + n) == a + k + v + n,
{
    assert(a + (k + v + n) =~= a + k + v + n);
}

proof fn lemma_apart(a: Seq<u8>, b: Seq<u8>, c: Seq<u8>)
    ensures
        a + (b + c) == a + b + c,
{
    assert(a + (b + c) =~= a + b + c);
}

proof fn lemma_seven(keys: Seq<Seq<char>>, vals: Seq<DocV>)
    requires
        keys.len() == 7,
        vals.len() == 7,
    ensures
        entry_forms(keys, vals) == str_form(keys[0]) + form(vals[0]) + (str_form(keys[1]) + form(
            vals[1],
        ) + (str_form(keys[2]) + form(vals[2]) + (str_form(keys[3]) + form(vals[3]) + (str_form(
            keys[4],
        ) + form(vals[4]) + (str_form(keys[5]) + form(vals[5]) + (str_form(keys[6]) + form(
            vals[6],
        ) + Seq::<u8>::empty())))))),
{
    lemma_entry_step(keys, vals, 0);
    lemma_entry_step(keys, vals, 1);
    lemma_entry_step(keys, vals, 2);
    lemma_entry_step(keys, vals, 3);
    lemma_entry_step(keys, vals, 4);
    lemma_entry_step(keys, vals, 5);
    lemma_entry_step(keys, vals, 6);
    assert(keys.skip(0) =~= keys);
    assert(vals.skip(0) =~= vals);
    assert(entry_forms(keys.skip(7), vals.skip(7)) =~= Seq::<u8>::empty());
}

proof fn lemma_entry_step(keys: Seq<Seq<char>>, vals: Seq<DocV>, i: int)
    requires
        0 <= i < keys.len(),
        keys.len() == vals.len(),
    ensures
        entry_forms(keys.skip(i), vals.skip(i)) == str_form(keys[i]) + form(vals[i]) + entry_forms(
            keys.skip(i + 1),
            vals.skip(i + 1),
        ),
{
    assert(keys.skip(i).drop_first() =~= keys.skip(i + 1));
    assert(vals.skip(i).drop_first() =~= vals.skip(i + 1));
}

/// An error is sent as a map of the version, that it failed, the name of its category and
/// what it says.
pub proof fn errors_are_sent_by_category(category: ErrorCategory, message: Seq<char>)
    ensures
        ({
            let d = error_doc(category, message);
            &&& d->keys == seq!["v"@, "ok"@, "code"@, "error"@]
            &&& d->vals == seq![
                DocV::Int(PROTOCOL_VERSION),
                DocV::Bool(false),
                DocV::Str(category_name(category)),
                DocV::Str(message),
            ]
        }),
{
}

} // verus!
