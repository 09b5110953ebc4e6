//! Column values and their types.

use vstd::prelude::*;
use vstd::string::StringExecFns;
use crate::common::error::{CategorizedError, ErrorCategory};
use crate::text::same;

verus! {

/// The type of a value.
#[derive(Debug, Clone, Copy, PartialEq, Eq, Structural)]
pub enum TypeKind {
    /// `true` or `false`.
    Bool,
    /// A 64-bit signed integer.
    I64,
    /// A 64-bit float.
    F64,
    /// UTF-8 text.
    Text,
    /// Bytes.
    Blob,
    /// A UUID.
    Uuid,
    /// A JSON document in its wire form.
    Json,
    /// Microseconds since the epoch.
    Timestamp,
}

impl TypeKind {
    /// The name of the type.
    pub open spec fn name(self) -> Seq<char> {
        match self {
            TypeKind::Bool => "bool"@,
            TypeKind::I64 => "i64"@,
            TypeKind::F64 => "f64"@,
            TypeKind::Text => "text"@,
            TypeKind::Blob => "blob"@,
            TypeKind::Uuid => "uuid"@,
            TypeKind::Json => "json"@,
            TypeKind::Timestamp => "timestamp"@,
        }
    }

    /// The name of the type.
    pub fn as_str(self) -> (s: &'static str)
        ensures
            s@ == self.name(),
    {
        match self {
            TypeKind::Bool => "bool",
            TypeKind::I64 => "i64",
            TypeKind::F64 => "f64",
            TypeKind::Text => "text",
            TypeKind::Blob => "blob",
            TypeKind::Uuid => "uuid",
            TypeKind::Json => "json",
            TypeKind::Timestamp => "timestamp",
        }
    }
}

/// The type with this name, if there is one.
pub open spec fn kind_named(name: Seq<char>) -> Option<TypeKind> {
    if name == "bool"@ {
        Some(TypeKind::Bool)
    } else if name == "i64"@ {
        Some(TypeKind::I64)
    } else if name == "f64"@ {
        Some(TypeKind::F64)
    } else if name == "text"@ {
        Some(TypeKind::Text)
    } else if name == "blob"@ {
        Some(TypeKind::Blob)
    } else if name == "uuid"@ {
        Some(TypeKind::Uuid)
    } else if name == "json"@ {
        Some(TypeKind::Json)
    } else if name == "timestamp"@ {
        Some(TypeKind::Timestamp)
    } else {
        None
    }
}

/// The type with this name, if there is one.
pub fn type_kind_from_name(name: &str) -> (r: Option<TypeKind>)
    ensures
        r == kind_named(name@),
{
    if same(name, "bool") {
        Some(TypeKind::Bool)
    } else if same(name, "i64") {
        Some(TypeKind::I64)
    } else if same(name, "f64") {
        Some(TypeKind::F64)
    } else if same(name, "text") {
        Some(TypeKind::Text)
    } else if same(name, "blob") {
        Some(TypeKind::Blob)
    } else if same(name, "uuid") {
        Some(TypeKind::Uuid)
    } else if same(name, "json") {
        Some(TypeKind::Json)
    } else if same(name, "timestamp") {
        Some(TypeKind::Timestamp)
    } else {
        None
    }
}

/// A type is found by its name, and by no other.
pub proof fn kinds_are_found_by_name(k: TypeKind, name: Seq<char>)
    ensures
        kind_named(name) == Some(k) <==> name == k.name(),
{
    reveal_strlit("bool");
    reveal_strlit("i64");
    reveal_strlit("f64");
    reveal_strlit("text");
    reveal_strlit("blob");
    reveal_strlit("uuid");
    reveal_strlit("json");
    reveal_strlit("timestamp");
    assert("bool"@[0] == 'b' && "blob"@[1] == 'l' && "bool"@[1] == 'o');
    assert("i64"@[0] == 'i' && "f64"@[0] == 'f' && "text"@[0] == 't' && "uuid"@[0] == 'u'
        && "json"@[0] == 'j');
    assert("timestamp"@.len() == 9 && "text"@.len() == 4);
}

/// A column value. A float is held by its bits.
#[derive(Debug, Clone, PartialEq, Eq)]
pub enum Value {
    /// SQL `NULL`.
    Null,
    /// A truth value.
    Bool(bool),
    /// An integer.
    I64(i64),
    /// A float, by its bits.
    F64(u64),
    /// Text.
    Text(String),
    /// Bytes.
    Blob(Vec<u8>),
    /// A UUID.
    Uuid([u8; 16]),
    /// A JSON document in its wire form.
    Json(Vec<u8>),
    /// Microseconds since the epoch.
    Timestamp(i64),
}

/// What a [`Value`] holds.
#[verifier::ext_equal]
pub enum ValueV {
    Null,
    Bool(bool),
    I64(i64),
    F64(u64),
    Text(Seq<char>),
    Blob(Seq<u8>),
    Uuid(Seq<u8>),
    Json(Seq<u8>),
    Timestamp(i64),
}

impl View for Value {
    type V = ValueV;

    open spec fn view(&self) -> ValueV {
        match self {
            Value::Null => ValueV::Null,
            Value::Bool(b) => ValueV::Bool(*b),
            Value::I64(n) => ValueV::I64(*n),
            Value::F64(f) => ValueV::F64(*f),
            Value::Text(s) => ValueV::Text(s@),
            Value::Blob(b) => ValueV::Blob(b@),
            Value::Uuid(u) => ValueV::Uuid(u@),
            Value::Json(j) => ValueV::Json(j@),
            Value::Timestamp(t) => ValueV::Timestamp(*t),
        }
    }
}

impl ValueV {
    /// The type of a value; `NULL` has none.
    pub open spec fn kind(self) -> Option<TypeKind> {
        match self {
            ValueV::Null => None,
            ValueV::Bool(_) => Some(TypeKind::Bool),
            ValueV::I64(_) => Some(TypeKind::I64),
            ValueV::F64(_) => Some(TypeKind::F64),
            ValueV::Text(_) => Some(TypeKind::Text),
            ValueV::Blob(_) => Some(TypeKind::Blob),
            ValueV::Uuid(_) => Some(TypeKind::Uuid),
            ValueV::Json(_) => Some(TypeKind::Json),
            ValueV::Timestamp(_) => Some(TypeKind::Timestamp),
        }
    }
}

impl Value {
    /// The type of the value; `NULL` has none.
    pub fn kind(&self) -> (r: Option<TypeKind>)
        ensures
            r == self@.kind(),
    {
        match self {
            Value::Null => None,
            Value::Bool(_) => Some(TypeKind::Bool),
            Value::I64(_) => Some(TypeKind::I64),
            Value::F64(_) => Some(TypeKind::F64),
            Value::Text(_) => Some(TypeKind::Text),
            Value::Blob(_) => Some(TypeKind::Blob),
            Value::Uuid(_) => Some(TypeKind::Uuid),
            Value::Json(_) => Some(TypeKind::Json),
            Value::Timestamp(_) => Some(TypeKind::Timestamp),
        }
    }

    /// Whether the value is `NULL`.
    pub fn is_null(&self) -> (r: bool)
        ensures
            r == (self@ is Null),
    {
        match self {
            Value::Null => true,
            _ => false,
        }
    }

    /// A copy of the value.
    pub fn copy(&self) -> (r: Value)
        ensures
            r@ == self@,
    {
        match self {
            Value::Null => Value::Null,
            Value::Bool(b) => Value::Bool(*b),
            Value::I64(n) => Value::I64(*n),
            Value::F64(f) => Value::F64(*f),
            Value::Text(s) => Value::Text(s.clone()),
            Value::Blob(b) => Value::Blob(crate::bytes::to_vec(b.as_slice())),
            Value::Uuid(u) => Value::Uuid(*u),
            Value::Json(j) => Value::Json(crate::bytes::to_vec(j.as_slice())),
            Value::Timestamp(t) => Value::Timestamp(*t),
        }
    }
}

/// Whether bits are those of a float that is not a number.
pub open spec fn is_nan(bits: u64) -> bool {
    bits % 0x8000_0000_0000_0000 > 0x7FF0_0000_0000_0000
}

/// Whether two floats are equal: neither is not a number, and they have the same
/// bits or are both zero.
pub open spec fn floats_equal(a: u64, b: u64) -> bool {
    !is_nan(a) && !is_nan(b) && (a == b || (a % 0x8000_0000_0000_0000 == 0 && b
        % 0x8000_0000_0000_0000 == 0))
}

/// Whether two values are equal: they hold the same, but for floats, which are
/// equal as numbers.
pub open spec fn alike(a: ValueV, b: ValueV) -> bool {
    match (a, b) {
        (ValueV::F64(x), ValueV::F64(y)) => floats_equal(x, y),
        _ => a == b,
    }
}

/// Whether two rows are equal, cell by cell.
pub open spec fn rows_alike(a: Seq<ValueV>, b: Seq<ValueV>) -> bool {
    a.len() == b.len() && forall|i: int| 0 <= i < a.len() ==> alike(#[trigger] a[i], b[i])
}

/// Two values are equal exactly where they hold the same, but that no number
/// equals what is not one, and that the two zeros are one number. Not a number is
/// what has every bit of its exponent set, and some bit of its fraction.
pub proof fn values_are_equal_as_what_they_are(a: ValueV, b: ValueV)
    ensures
        !(a is F64 && b is F64) ==> (alike(a, b) <==> a == b),
        a matches ValueV::F64(x) ==> (b matches ValueV::F64(y) ==> {
            let nan = |f: u64| (f / 0x10_0000_0000_0000) % 2048 == 2047 && f % 0x10_0000_0000_0000
                != 0;
            let zero = |f: u64| f == 0 || f == 0x8000_0000_0000_0000;
            alike(a, b) <==> !nan(x) && !nan(y) && (x == y || (zero(x) && zero(y)))
        }),
        alike(a, b) == alike(b, a),
{
    if let (ValueV::F64(x), ValueV::F64(y)) = (a, b) {
        lemma_float_parts(x);
        lemma_float_parts(y);
    }
}

proof fn lemma_float_parts(f: u64)
    ensures
        is_nan(f) <==> (f / 0x10_0000_0000_0000) % 2048 == 2047 && f % 0x10_0000_0000_0000 != 0,
        f % 0x8000_0000_0000_0000 == 0 <==> f == 0 || f == 0x8000_0000_0000_0000,
{
    assert((f % 0x8000_0000_0000_0000 > 0x7FF0_0000_0000_0000) == ((f / 0x10_0000_0000_0000) % 2048
        == 2047 && f % 0x10_0000_0000_0000 != 0)) by (bit_vector);
}

/// Two rows are equal exactly where they have as many cells and each equals its
/// counterpart.
pub proof fn rows_are_equal_cell_by_cell(a: Seq<ValueV>, b: Seq<ValueV>)
    ensures
        rows_alike(a, b) ==> a.len() == b.len(),
        rows_alike(a, b) ==> forall|i: int| 0 <= i < a.len() ==> alike(#[trigger] a[i], b[i]),
        a.len() == b.len() && (forall|i: int| 0 <= i < a.len() ==> alike(#[trigger] a[i], b[i]))
            ==> rows_alike(a, b),
{
}

impl Value {
    /// Whether two values are equal.
    pub fn equals(&self, other: &Value) -> (r: bool)
        ensures
            r == alike(self@, other@),
    {
        match (self, other) {
            (Value::Null, Value::Null) => true,
            (Value::Bool(a), Value::Bool(b)) => *a == *b,
            (Value::I64(a), Value::I64(b)) => *a == *b,
            (Value::F64(a), Value::F64(b)) => {
                let x: u64 = *a % 0x8000_0000_0000_0000;
                let y: u64 = *b % 0x8000_0000_0000_0000;
                x <= 0x7FF0_0000_0000_0000 && y <= 0x7FF0_0000_0000_0000 && (*a == *b || (x == 0
                    && y == 0))
            },
            (Value::Text(a), Value::Text(b)) => same(a.as_str(), b.as_str()),
            (Value::Blob(a), Value::Blob(b)) => crate::bytes::bytes_eq(a.as_slice(), b.as_slice()),
            (Value::Uuid(a), Value::Uuid(b)) => crate::bytes::bytes_eq(a.as_slice(), b.as_slice()),
            (Value::Json(a), Value::Json(b)) => crate::bytes::bytes_eq(a.as_slice(), b.as_slice()),
            (Value::Timestamp(a), Value::Timestamp(b)) => *a == *b,
            _ => false,
        }
    }
}

/// Whether two rows are equal, cell by cell.
pub fn equal_rows(a: &Vec<Value>, b: &Vec<Value>) -> (r: bool)
    ensures
        r == rows_alike(values(a@), values(b@)),
{
    let ghost va = values(a@);
    let ghost vb = values(b@);
    if a.len() != b.len() {
        assert(va.len() != vb.len());
        return false;
    }
    let mut i: usize = 0;
    while i < a.len()
        invariant
            i <= a@.len(),
            a@.len() == b@.len(),
            va == values(a@),
            vb == values(b@),
            forall|j: int| 0 <= j < i ==> alike(#[trigger] va[j], vb[j]),
        decreases a@.len() - i,
    {
        assert(va[i as int] == a@[i as int]@ && vb[i as int] == b@[i as int]@);
        if !a[i].equals(&b[i]) {
            assert(!alike(va[i as int], vb[i as int]));
            return false;
        }
        i = i + 1;
    }
    true
}

/// What the values of a row hold.
pub open spec fn values(row: Seq<Value>) -> Seq<ValueV> {
    Seq::new(row.len(), |i: int| row[i]@)
}

/// A copy of a row.
pub fn copy_row(row: &Vec<Value>) -> (r: Vec<Value>)
    ensures
        values(r@) == values(row@),
{
    let mut out: Vec<Value> = Vec::new();
    let mut i: usize = 0;
    while i < row.len()
        invariant
            i <= row@.len(),
            out@.len() == i,
            values(out@) == values(row@).take(i as int),
        decreases row@.len() - i,
    {
        let ghost before = out@;
        let v = row[i].copy();
        out.push(v);
        i = i + 1;
        assert(values(out@) =~= values(before).push(v@));
        assert(values(out@) =~= values(row@).take(i as int));
    }
    assert(values(out@) =~= values(row@));
    out
}

/// An error of the type layer.
#[derive(Debug, Clone, PartialEq, Eq)]
pub struct TypeError {
    /// The category it belongs to.
    pub category: ErrorCategory,
    /// What it says.
    pub text: String,
}

impl TypeError {
    /// The same error.
    pub fn copy(&self) -> (e: TypeError)
        ensures
            e == *self,
    {
        TypeError { category: self.category, text: self.text.clone() }
    }
}

impl CategorizedError for TypeError {
    open spec fn category_of(&self) -> ErrorCategory {
        self.category
    }

    fn category(&self) -> ErrorCategory {
        self.category
    }
}

/// The hexadecimal digit for `d`.
pub open spec fn hex_digit(d: nat) -> char {
    if d < 10 {
        (48 + d) as char
    } else {
        (87 + d) as char
    }
}

/// The hexadecimal digits of bytes `from..to`.
pub open spec fn hex(bytes: Seq<u8>, from: int, to: int) -> Seq<char>
    decreases to - from,
{
    if from >= to {
        Seq::empty()
    } else {
        hex(bytes, from, to - 1).push(hex_digit((bytes[to - 1] / 16) as nat)).push(
            hex_digit((bytes[to - 1] % 16) as nat),
        )
    }
}

/// The canonical text form of a UUID: hexadecimal in groups of 4, 2, 2, 2 and 6
/// bytes.
pub open spec fn uuid_text(u: Seq<u8>) -> Seq<char> {
    hex(u, 0, 4) + seq!['-'] + hex(u, 4, 6) + seq!['-'] + hex(u, 6, 8) + seq!['-'] + hex(u, 8, 10)
        + seq!['-'] + hex(u, 10, 16)
}

/// Whether a character is the hexadecimal digit, in lower case, of a number.
pub open spec fn stands_for(c: char, d: int) -> bool {
    ||| '0' <= c <= '9' && d == c as u32 - '0' as u32
    ||| 'a' <= c <= 'f' && d == c as u32 - 'a' as u32 + 10
}

/// Where the digits of byte `j` of a UUID start in its text.
pub open spec fn place_of(j: int) -> int {
    2 * j + if j < 4 {
        0int
    } else if j < 6 {
        1
    } else if j < 8 {
        2
    } else if j < 10 {
        3
    } else {
        4
    }
}

/// The text of a UUID has thirty-six characters: two digits for each byte, the higher
/// first, and a dash behind the fourth, the sixth, the eighth and the tenth byte.
pub proof fn uuids_are_told_byte_by_byte(u: Seq<u8>)
    requires
        u.len() == 16,
    ensures
        uuid_text(u).len() == 36,
        uuid_text(u)[8] == '-' && uuid_text(u)[13] == '-' && uuid_text(u)[18] == '-' && uuid_text(
            u,
        )[23] == '-',
        forall|j: int|
            0 <= j < 16 ==> stands_for(
                uuid_text(u)[#[trigger] place_of(j)],
                (u[j] / 16) as int,
            ) && stands_for(uuid_text(u)[place_of(j) + 1], (u[j] % 16) as int),
{
    lemma_hex(u, 0, 4);
    lemma_hex(u, 4, 6);
    lemma_hex(u, 6, 8);
    lemma_hex(u, 8, 10);
    lemma_hex(u, 10, 16);
    let text = uuid_text(u);
    assert forall|j: int| 0 <= j < 16 implies stands_for(
        text[#[trigger] place_of(j)],
        (u[j] / 16) as int,
    ) && stands_for(text[place_of(j) + 1], (u[j] % 16) as int) by {
        if j < 4 {
            assert(text[place_of(j)] == hex(u, 0, 4)[2 * (j - 0)]);
            assert(text[place_of(j) + 1] == hex(u, 0, 4)[2 * (j - 0) + 1]);
        } else if j < 6 {
            assert(text[place_of(j)] == hex(u, 4, 6)[2 * (j - 4)]);
            assert(text[place_of(j) + 1] == hex(u, 4, 6)[2 * (j - 4) + 1]);
        } else if j < 8 {
            assert(text[place_of(j)] == hex(u, 6, 8)[2 * (j - 6)]);
            assert(text[place_of(j) + 1] == hex(u, 6, 8)[2 * (j - 6) + 1]);
        } else if j < 10 {
            assert(text[place_of(j)] == hex(u, 8, 10)[2 * (j - 8)]);
            assert(text[place_of(j) + 1] == hex(u, 8, 10)[2 * (j - 8) + 1]);
        } else {
            assert(text[place_of(j)] == hex(u, 10, 16)[2 * (j - 10)]);
            assert(text[place_of(j) + 1] == hex(u, 10, 16)[2 * (j - 10) + 1]);
        }
    }
}

proof fn lemma_hex(bytes: Seq<u8>, from: int, to: int)
    requires
        0 <= from <= to <= bytes.len(),
    ensures
        hex(bytes, from, to).len() == 2 * (to - from),
        forall|j: int|
            from <= j < to ==> stands_for(
                hex(bytes, from, to)[2 * (j - from)],
                (#[trigger] bytes[j] / 16) as int,
            ) && stands_for(hex(bytes, from, to)[2 * (j - from) + 1], (bytes[j] % 16) as int),
    decreases to - from,
{
    if from < to {
        lemma_hex(bytes, from, to - 1);
    }
}

/// The text of a byte is its two digits, the higher first.
pub proof fn bytes_are_told_by_their_digits(b: u8)
    ensures
        hex_byte(b).len() == 2,
        stands_for(hex_byte(b)[0], (b / 16) as int),
        stands_for(hex_byte(b)[1], (b % 16) as int),
{
}

fn push_hex_digit(out: &mut String, d: u8)
    requires
        d < 16,
    ensures
        final(out)@ == old(out)@.push(hex_digit(d as nat)),
{
    proof {
        reveal_strlit("0");
        reveal_strlit("1");
        reveal_strlit("2");
        reveal_strlit("3");
        reveal_strlit("4");
        reveal_strlit("5");
        reveal_strlit("6");
        reveal_strlit("7");
        reveal_strlit("8");
        reveal_strlit("9");
        reveal_strlit("a");
        reveal_strlit("b");
        reveal_strlit("c");
        reveal_strlit("d");
        reveal_strlit("e");
        reveal_strlit("f");
    }
    let s = match d {
        0 => "0",
        1 => "1",
        2 => "2",
        3 => "3",
        4 => "4",
        5 => "5",
        6 => "6",
        7 => "7",
        8 => "8",
        9 => "9",
        10 => "a",
        11 => "b",
        12 => "c",
        13 => "d",
        14 => "e",
        _ => "f",
    };
    assert(s@ =~= seq![hex_digit(d as nat)]);
    out.append(s);
    assert(out@ =~= old(out)@.push(hex_digit(d as nat)));
}

/// The two hexadecimal digits of a byte.
pub open spec fn hex_byte(b: u8) -> Seq<char> {
    seq![hex_digit((b / 16) as nat), hex_digit((b % 16) as nat)]
}

/// Append the two hexadecimal digits of a byte.
pub fn push_hex_byte(out: &mut String, b: u8)
    ensures
        final(out)@ == old(out)@ + hex_byte(b),
{
    push_hex_digit(out, b / 16);
    push_hex_digit(out, b % 16);
    assert(out@ =~= old(out)@ + hex_byte(b));
}

fn push_hex(out: &mut String, bytes: &[u8; 16], from: usize, to: usize)
    requires
        from <= to <= 16,
    ensures
        final(out)@ == old(out)@ + hex(bytes@, from as int, to as int),
{
    let mut i: usize = from;
    assert(out@ =~= old(out)@ + hex(bytes@, from as int, from as int));
    while i < to
        invariant
            from <= i <= to <= 16,
            out@ == old(out)@ + hex(bytes@, from as int, i as int),
        decreases to - i,
    {
        let b = bytes[i];
        push_hex_digit(out, b / 16);
        push_hex_digit(out, b % 16);
        i = i + 1;
        assert(out@ =~= old(out)@ + hex(bytes@, from as int, i as int));
    }
}

/// The canonical text form of a UUID.
pub fn uuid_to_string(u: &[u8; 16]) -> (r: String)
    ensures
        r@ == uuid_text(u@),
{
    proof {
        reveal_strlit("-");
        assert("-"@ =~= seq!['-']);
    }
    let mut out = String::new();
    push_hex(&mut out, u, 0, 4);
    out.append("-");
    push_hex(&mut out, u, 4, 6);
    out.append("-");
    push_hex(&mut out, u, 6, 8);
    out.append("-");
    push_hex(&mut out, u, 8, 10);
    out.append("-");
    push_hex(&mut out, u, 10, 16);
    assert(out@ =~= uuid_text(u@));
    out
}

} // verus!
