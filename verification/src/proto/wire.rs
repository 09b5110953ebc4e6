//! The hardened wire layer: MessagePack bytes ⇄ a bounded [`Doc`] tree.
//!
//! Every protocol message is decoded through [`decode_doc`] first, which
//! enforces [`DecodeLimits`] (message size, nesting depth, node count) before
//! allocating, walks with an explicit depth counter, and rejects the reserved
//! byte `0xC1`, ext types, non-string map keys, duplicate map keys, and trailing
//! bytes.

use vstd::prelude::*;
use vstd::utf8::{decode_utf8, valid_utf8};
use crate::bytes::{
    be_nat, get_be16, get_be32, get_be64, lemma_be_bytes_of_be_nat, lemma_pow256_values, pow256,
    to_vec,
};
use crate::text::from_utf8;
use super::error::{ProtoError, ProtoErrorV, Result};

verus! {

/// Decoder resource limits.
#[derive(Debug, Clone, Copy)]
pub struct DecodeLimits {
    /// Maximum total message size in bytes.
    pub max_bytes: usize,
    /// Maximum container nesting depth.
    pub max_depth: usize,
    /// Maximum total number of nodes (scalars + containers).
    pub max_nodes: usize,
}

impl Default for DecodeLimits {
    fn default() -> (r: Self)
        ensures
            r.max_bytes == 1_048_576,
            r.max_depth == 64,
            r.max_nodes == 100_000,
    {
        DecodeLimits { max_bytes: 1_048_576, max_depth: 64, max_nodes: 100_000 }
    }
}

/// One decoded MessagePack value, shape-checked and within limits.
///
/// Map entries preserve wire order; keys are guaranteed unique strings.
#[derive(Debug, PartialEq, Eq)]
pub enum Doc {
    /// `nil`.
    Null,
    /// `true` / `false`.
    Bool(bool),
    /// Any int family, range-checked into `i64`.
    Int(i64),
    /// `float32` (widened) or `float64`, by the bits of the latter.
    Float(u64),
    /// A UTF-8 string.
    Str(String),
    /// A bin payload.
    Bin(Vec<u8>),
    /// An array.
    Array(Vec<Doc>),
    /// A map with unique string keys, in wire order.
    Dict(Vec<(String, Doc)>),
}

/// What a [`Doc`] holds. A map is its keys and, in the same order, its values.
#[verifier::ext_equal]
pub enum DocV {
    Null,
    Bool(bool),
    Int(i64),
    Float(u64),
    Str(Seq<char>),
    Bin(Seq<u8>),
    Array(Seq<DocV>),
    Dict { keys: Seq<Seq<char>>, vals: Seq<DocV> },
}

/// The keys of map entries.
pub open spec fn entry_keys(entries: Seq<(String, Doc)>) -> Seq<Seq<char>> {
    Seq::new(entries.len(), |i: int| entries[i].0@)
}

/// The values of map entries.
pub open spec fn entry_vals(entries: Seq<(String, Doc)>) -> Seq<DocV> {
    Seq::new(entries.len(), |i: int| entries[i].1@)
}

/// What documents hold.
pub open spec fn docs(items: Seq<Doc>) -> Seq<DocV> {
    Seq::new(items.len(), |i: int| items[i]@)
}

/// The name of a shape.
pub open spec fn shape_name(d: DocV) -> Seq<char> {
    match d {
        DocV::Null => "null"@,
        DocV::Bool(_) => "bool"@,
        DocV::Int(_) => "int"@,
        DocV::Float(_) => "float"@,
        DocV::Str(_) => "string"@,
        DocV::Bin(_) => "bin"@,
        DocV::Array(_) => "array"@,
        DocV::Dict { .. } => "map"@,
    }
}

/// The position of the first of `keys` that is `key`, if there is one.
pub open spec fn position(keys: Seq<Seq<char>>, key: Seq<char>) -> Option<int>
    decreases keys.len(),
{
    if keys.len() == 0 {
        None
    } else if keys[0] == key {
        Some(0)
    } else {
        match position(keys.drop_first(), key) {
            Some(i) => Some(i + 1),
            None => None,
        }
    }
}

pub proof fn lemma_position(keys: Seq<Seq<char>>, key: Seq<char>)
    ensures
        match position(keys, key) {
            Some(i) => 0 <= i < keys.len() && keys[i] == key && forall|j: int|
                0 <= j < i ==> #[trigger] keys[j] != key,
            None => forall|j: int| 0 <= j < keys.len() ==> #[trigger] keys[j] != key,
        },
    decreases keys.len(),
{
    if keys.len() > 0 && keys[0] != key {
        let rest = keys.drop_first();
        lemma_position(rest, key);
        assert forall|j: int| 0 < j < keys.len() implies #[trigger] keys[j] == rest[j - 1] by {}
    }
}

/// The first key that is `key` is found where it is.
pub proof fn lemma_position_at(keys: Seq<Seq<char>>, key: Seq<char>, i: int)
    requires
        0 <= i < keys.len(),
        keys[i] == key,
        forall|j: int| 0 <= j < i ==> #[trigger] keys[j] != key,
    ensures
        position(keys, key) == Some(i),
{
    lemma_position(keys, key);
}

/// A key that is not there is not found.
pub proof fn lemma_position_none(keys: Seq<Seq<char>>, key: Seq<char>)
    requires
        forall|j: int| 0 <= j < keys.len() ==> #[trigger] keys[j] != key,
    ensures
        position(keys, key) == None::<int>,
{
    lemma_position(keys, key);
}

/// Find the first entry with this key.
pub fn find_entry(entries: &Vec<(String, Doc)>, key: &str) -> (r: Option<usize>)
    ensures
        match r {
            Some(i) => position(entry_keys(entries@), key@) == Some(i as int) && i < entries@.len(),
            None => position(entry_keys(entries@), key@) == None::<int>,
        },
{
    let ghost keys = entry_keys(entries@);
    let mut i: usize = 0;
    while i < entries.len()
        invariant
            i <= entries@.len(),
            keys == entry_keys(entries@),
            forall|j: int| 0 <= j < i ==> #[trigger] keys[j] != key@,
        decreases entries@.len() - i,
    {
        assert(keys[i as int] == entries@[i as int].0@);
        if crate::text::same(entries[i].0.as_str(), key) {
            proof {
                lemma_position_at(keys, key@, i as int);
            }
            return Some(i);
        }
        i = i + 1;
    }
    proof {
        lemma_position_none(keys, key@);
    }
    None
}

impl Doc {
    /// What the document holds.
    pub open spec fn view(&self) -> DocV
        decreases self,
    {
        match self {
            Doc::Null => DocV::Null,
            Doc::Bool(b) => DocV::Bool(*b),
            Doc::Int(n) => DocV::Int(*n),
            Doc::Float(f) => DocV::Float(*f),
            Doc::Str(s) => DocV::Str(s@),
            Doc::Bin(b) => DocV::Bin(b@),
            Doc::Array(items) => DocV::Array(
                Seq::new(
                    items@.len(),
                    |i: int|
                        if 0 <= i < items@.len() {
                            items@[i].view()
                        } else {
                            DocV::Null
                        },
                ),
            ),
            Doc::Dict(entries) => DocV::Dict {
                keys: Seq::new(entries@.len(), |i: int| entries@[i].0@),
                vals: Seq::new(
                    entries@.len(),
                    |i: int|
                        if 0 <= i < entries@.len() {
                            entries@[i].1.view()
                        } else {
                            DocV::Null
                        },
                ),
            },
        }
    }

    /// The view of a container is that of its parts.
    pub proof fn lemma_parts(&self)
        ensures
            self matches Doc::Array(items) ==> self@ == DocV::Array(docs(items@)),
            self matches Doc::Dict(entries) ==> self@ == (DocV::Dict {
                keys: entry_keys(entries@),
                vals: entry_vals(entries@),
            }),
    {
        if let Doc::Array(items) = self {
            assert(self@->Array_0 =~= docs(items@));
        }
        if let Doc::Dict(entries) = self {
            assert(self@->keys =~= entry_keys(entries@));
            assert(self@->vals =~= entry_vals(entries@));
        }
    }

    /// A human-readable name for the value's shape (used in errors).
    pub fn shape(&self) -> (r: &'static str)
        ensures
            r@ == shape_name(self@),
    {
        match self {
            Doc::Null => "null",
            Doc::Bool(_) => "bool",
            Doc::Int(_) => "int",
            Doc::Float(_) => "float",
            Doc::Str(_) => "string",
            Doc::Bin(_) => "bin",
            Doc::Array(_) => "array",
            Doc::Dict(_) => "map",
        }
    }

    /// Look up a key in a map `Doc`; `None` for absent keys or non-maps.
    pub fn get(&self, key: &str) -> (r: Option<&Doc>)
        ensures
            match self@ {
                DocV::Dict { keys, vals } => match position(keys, key@) {
                    Some(i) => r is Some && r->Some_0@ == vals[i],
                    None => r is None,
                },
                _ => r is None,
            },
    {
        proof {
            self.lemma_parts();
        }
        match self {
            Doc::Dict(entries) => match find_entry(entries, key) {
                Some(i) => Some(&entries[i].1),
                None => None,
            },
            _ => None,
        }
    }
}

// The wire form.

/// How the length of a payload is given.
pub enum Span {
    /// In the head byte.
    Fixed(u8),
    /// As a big-endian number of this many bytes.
    Wide(u8),
}

/// What a head byte says of the value that follows.
pub enum Head {
    /// A small integer.
    Small(i64),
    /// An unsigned integer of this many bytes.
    Unsigned(u8),
    /// A signed integer of this many bytes.
    Signed(u8),
    /// `nil`.
    Nil,
    /// A truth value.
    Truth(bool),
    /// A float of this many bytes.
    Real(u8),
    /// A string.
    Str(Span),
    /// Bytes.
    Bin(Span),
    /// An array.
    Array(Span),
    /// A map.
    Dict(Span),
    /// An ext type, which is not part of the protocol.
    Ext,
    /// The reserved byte.
    Reserved,
}

/// What a head byte says of the value that follows.
pub open spec fn head_of(b: u8) -> Head {
    if b <= 0x7F {
        Head::Small(b as i64)
    } else if b <= 0x8F {
        Head::Dict(Span::Fixed((b - 0x80) as u8))
    } else if b <= 0x9F {
        Head::Array(Span::Fixed((b - 0x90) as u8))
    } else if b <= 0xBF {
        Head::Str(Span::Fixed((b - 0xA0) as u8))
    } else if b == 0xC0 {
        Head::Nil
    } else if b == 0xC1 {
        Head::Reserved
    } else if b == 0xC2 {
        Head::Truth(false)
    } else if b == 0xC3 {
        Head::Truth(true)
    } else if b == 0xC4 {
        Head::Bin(Span::Wide(1))
    } else if b == 0xC5 {
        Head::Bin(Span::Wide(2))
    } else if b == 0xC6 {
        Head::Bin(Span::Wide(4))
    } else if b <= 0xC9 {
        Head::Ext
    } else if b == 0xCA {
        Head::Real(4)
    } else if b == 0xCB {
        Head::Real(8)
    } else if b == 0xCC {
        Head::Unsigned(1)
    } else if b == 0xCD {
        Head::Unsigned(2)
    } else if b == 0xCE {
        Head::Unsigned(4)
    } else if b == 0xCF {
        Head::Unsigned(8)
    } else if b == 0xD0 {
        Head::Signed(1)
    } else if b == 0xD1 {
        Head::Signed(2)
    } else if b == 0xD2 {
        Head::Signed(4)
    } else if b == 0xD3 {
        Head::Signed(8)
    } else if b <= 0xD8 {
        Head::Ext
    } else if b == 0xD9 {
        Head::Str(Span::Wide(1))
    } else if b == 0xDA {
        Head::Str(Span::Wide(2))
    } else if b == 0xDB {
        Head::Str(Span::Wide(4))
    } else if b == 0xDC {
        Head::Array(Span::Wide(2))
    } else if b == 0xDD {
        Head::Array(Span::Wide(4))
    } else if b == 0xDE {
        Head::Dict(Span::Wide(2))
    } else if b == 0xDF {
        Head::Dict(Span::Wide(4))
    } else {
        Head::Small((b - 0x100) as i64)
    }
}

/// What a head byte says of the value that follows.
fn read_head(b: u8) -> (r: Head)
    ensures
        r == head_of(b),
{
    match b {
        // Ints (all families).
        0x00..=0x7F => Head::Small(b as i64),
        0xE0..=0xFF => Head::Small(b as i64 - 0x100),
        0xCC => Head::Unsigned(1),
        0xCD => Head::Unsigned(2),
        0xCE => Head::Unsigned(4),
        0xCF => Head::Unsigned(8),
        0xD0 => Head::Signed(1),
        0xD1 => Head::Signed(2),
        0xD2 => Head::Signed(4),
        0xD3 => Head::Signed(8),
        // Other scalars.
        0xC0 => Head::Nil,
        0xC2 => Head::Truth(false),
        0xC3 => Head::Truth(true),
        0xCA => Head::Real(4),
        0xCB => Head::Real(8),
        // Strings.
        0xA0..=0xBF => Head::Str(Span::Fixed(b - 0xA0)),
        0xD9 => Head::Str(Span::Wide(1)),
        0xDA => Head::Str(Span::Wide(2)),
        0xDB => Head::Str(Span::Wide(4)),
        // Bins.
        0xC4 => Head::Bin(Span::Wide(1)),
        0xC5 => Head::Bin(Span::Wide(2)),
        0xC6 => Head::Bin(Span::Wide(4)),
        // Arrays.
        0x90..=0x9F => Head::Array(Span::Fixed(b - 0x90)),
        0xDC => Head::Array(Span::Wide(2)),
        0xDD => Head::Array(Span::Wide(4)),
        // Maps.
        0x80..=0x8F => Head::Dict(Span::Fixed(b - 0x80)),
        0xDE => Head::Dict(Span::Wide(2)),
        0xDF => Head::Dict(Span::Wide(4)),
        // Ext types are not part of the protocol; 0xC1 is reserved.
        0xC7..=0xC9 | 0xD4..=0xD8 => Head::Ext,
        0xC1 => Head::Reserved,
    }
}

/// Where a reader stands: the bytes still to come and the nodes still allowed.
pub struct Rest {
    /// The bytes still to come.
    pub bytes: Seq<u8>,
    /// The nodes still allowed.
    pub nodes: nat,
}

/// What reading a number or a payload gives.
pub enum Read<T> {
    /// It was there; this is what follows.
    Got(T, Rest),
    /// It was not.
    Fail(ProtoErrorV),
}

/// Take `n` bytes.
pub open spec fn take(r: Rest, n: nat) -> Read<Seq<u8>> {
    if r.bytes.len() < n {
        Read::Fail(ProtoErrorV::Truncated)
    } else {
        Read::Got(r.bytes.take(n as int), Rest { bytes: r.bytes.skip(n as int), ..r })
    }
}

/// Read a big-endian number of `width` bytes.
pub open spec fn number(r: Rest, width: u8) -> Read<nat> {
    match take(r, width as nat) {
        Read::Got(b, r2) => Read::Got(be_nat(b), r2),
        Read::Fail(e) => Read::Fail(e),
    }
}

/// Read a length.
pub open spec fn length(r: Rest, span: Span) -> Read<nat> {
    match span {
        Span::Fixed(n) => Read::Got(n as nat, r),
        Span::Wide(w) => number(r, w),
    }
}

/// The signed integer that an unsigned one of `width` bytes stands for.
pub open spec fn signed(n: nat, width: u8) -> int {
    if 2 * n >= pow256(width as nat) {
        n - pow256(width as nat)
    } else {
        n as int
    }
}

/// The bits of the 64-bit float with the value that `b` has as a 32-bit float:
/// the exponent moves to the wider bias, the fraction to the high bits. A
/// subnormal number becomes a normal one, and a signaling NaN a quiet one.
pub open spec fn widened(b: nat) -> nat {
    let sign = b / 0x8000_0000;
    let exp = (b / 0x80_0000) % 0x100;
    let frac = b % 0x80_0000;
    let top: nat = sign * 0x8000_0000_0000_0000;
    if exp == 0xFF {
        top + 0x7FF0_0000_0000_0000 + (if 0 < frac < 0x40_0000 {
            frac + 0x40_0000
        } else {
            frac
        }) * 0x2000_0000
    } else if exp == 0 {
        if frac == 0 {
            top
        } else {
            top + normal(frac, 897)
        }
    } else {
        top + (exp + 896) * 0x10_0000_0000_0000 + frac * 0x2000_0000
    }
}

/// Exponent and fraction of a number `frac` / 2^23 at the exponent `exp`,
/// doubled until its leading bit is the implied one.
pub open spec fn normal(frac: nat, exp: nat) -> nat
    decreases exp,
{
    if frac >= 0x80_0000 || exp == 0 {
        (exp * 0x10_0000_0000_0000 + (frac % 0x80_0000) * 0x2000_0000) as nat
    } else {
        normal(frac * 2, (exp - 1) as nat)
    }
}

/// The bits of the 64-bit float with the value that `b` has as a 32-bit float.
pub fn widen(b: u32) -> (r: u64)
    ensures
        r == widened(b as nat),
{
    let sign: u64 = (b / 0x8000_0000) as u64;
    let exp: u64 = ((b / 0x80_0000) % 0x100) as u64;
    let frac: u64 = (b % 0x80_0000) as u64;
    let top: u64 = sign * 0x8000_0000_0000_0000;
    if exp == 0xFF {
        let quiet: u64 = if 0 < frac && frac < 0x40_0000 {
            frac + 0x40_0000
        } else {
            frac
        };
        top + 0x7FF0_0000_0000_0000 + quiet * 0x2000_0000
    } else if exp == 0 {
        if frac == 0 {
            top
        } else {
            let mut m: u64 = frac;
            let mut e: u64 = 897;
            while m < 0x80_0000 && e > 0
                invariant
                    e <= 897,
                    0 < m < 0x100_0000,
                    normal(m as nat, e as nat) == normal(frac as nat, 897),
                decreases e,
            {
                m = m * 2;
                e = e - 1;
            }
            top + (e * 0x10_0000_0000_0000 + (m % 0x80_0000) * 0x2000_0000)
        }
    } else {
        top + (exp + 896) * 0x10_0000_0000_0000 + frac * 0x2000_0000
    }
}

/// Read text of `n` bytes.
pub open spec fn text(r: Rest, n: nat) -> Read<Seq<char>> {
    match take(r, n) {
        Read::Got(b, r2) => if valid_utf8(b) {
            Read::Got(decode_utf8(b), r2)
        } else {
            Read::Fail(ProtoErrorV::InvalidUtf8)
        },
        Read::Fail(e) => Read::Fail(e),
    }
}

/// Charge one node.
pub open spec fn charge(r: Rest) -> Read<()> {
    if r.nodes == 0 {
        Read::Fail(ProtoErrorV::TooManyNodes)
    } else {
        Read::Got((), Rest { nodes: (r.nodes - 1) as nat, ..r })
    }
}

/// Read one value at a nesting depth.
pub open spec fn value(r: Rest, depth: nat, max_depth: nat) -> Read<DocV>
    decreases max_depth + 1 - depth, 1nat, 0nat,
{
    if depth > max_depth {
        Read::Fail(ProtoErrorV::TooDeep { max: max_depth })
    } else {
        match charge(r) {
            Read::Fail(e) => Read::Fail(e),
            Read::Got(_, r1) => match number(r1, 1) {
                Read::Fail(e) => Read::Fail(e),
                Read::Got(b, r2) => match head_of(b as u8) {
                    Head::Small(n) => Read::Got(DocV::Int(n), r2),
                    Head::Unsigned(w) => match number(r2, w) {
                        Read::Fail(e) => Read::Fail(e),
                        Read::Got(n, r3) => if n > i64::MAX {
                            Read::Fail(ProtoErrorV::IntOutOfRange { found: n })
                        } else {
                            Read::Got(DocV::Int(n as i64), r3)
                        },
                    },
                    Head::Signed(w) => match number(r2, w) {
                        Read::Fail(e) => Read::Fail(e),
                        Read::Got(n, r3) => Read::Got(DocV::Int(signed(n, w) as i64), r3),
                    },
                    Head::Nil => Read::Got(DocV::Null, r2),
                    Head::Truth(t) => Read::Got(DocV::Bool(t), r2),
                    Head::Real(w) => match number(r2, w) {
                        Read::Fail(e) => Read::Fail(e),
                        Read::Got(n, r3) => Read::Got(
                            DocV::Float(
                                (if w == 4 {
                                    widened(n)
                                } else {
                                    n
                                }) as u64,
                            ),
                            r3,
                        ),
                    },
                    Head::Str(span) => match length(r2, span) {
                        Read::Fail(e) => Read::Fail(e),
                        Read::Got(n, r3) => match text(r3, n) {
                            Read::Fail(e) => Read::Fail(e),
                            Read::Got(s, r4) => Read::Got(DocV::Str(s), r4),
                        },
                    },
                    Head::Bin(span) => match length(r2, span) {
                        Read::Fail(e) => Read::Fail(e),
                        Read::Got(n, r3) => match take(r3, n) {
                            Read::Fail(e) => Read::Fail(e),
                            Read::Got(b, r4) => Read::Got(DocV::Bin(b), r4),
                        },
                    },
                    Head::Array(span) => match length(r2, span) {
                        Read::Fail(e) => Read::Fail(e),
                        Read::Got(n, r3) => match afford(r3, n) {
                            Some(e) => Read::Fail(e),
                            None => match items(r3, n, depth, max_depth) {
                                Read::Fail(e) => Read::Fail(e),
                                Read::Got(xs, r4) => Read::Got(DocV::Array(xs), r4),
                            },
                        },
                    },
                    Head::Dict(span) => match length(r2, span) {
                        Read::Fail(e) => Read::Fail(e),
                        Read::Got(n, r3) => match afford(r3, 2 * n) {
                            Some(e) => Read::Fail(e),
                            None => match pairs(r3, n, depth, max_depth, Seq::empty()) {
                                Read::Fail(e) => Read::Fail(e),
                                Read::Got((keys, vals), r4) => Read::Got(
                                    DocV::Dict { keys, vals },
                                    r4,
                                ),
                            },
                        },
                    },
                    Head::Ext => Read::Fail(ProtoErrorV::ExtNotAllowed),
                    Head::Reserved => Read::Fail(ProtoErrorV::ReservedByte),
                },
            },
        }
    }
}

/// Whether `n` more nodes could come at all, at a byte each: the error if not.
pub open spec fn afford(r: Rest, n: nat) -> Option<ProtoErrorV> {
    if n > r.bytes.len() {
        Some(ProtoErrorV::Truncated)
    } else if n > r.nodes {
        Some(ProtoErrorV::TooManyNodes)
    } else {
        None
    }
}

/// Read `n` values one level down.
pub open spec fn items(r: Rest, n: nat, depth: nat, max_depth: nat) -> Read<Seq<DocV>>
    decreases max_depth + 1 - depth, 0nat, n,
{
    if n == 0 || depth > max_depth {
        Read::Got(Seq::empty(), r)
    } else {
        match value(r, depth + 1, max_depth) {
            Read::Fail(e) => Read::Fail(e),
            Read::Got(x, r2) => match items(r2, (n - 1) as nat, depth, max_depth) {
                Read::Fail(e) => Read::Fail(e),
                Read::Got(xs, r3) => Read::Got(seq![x] + xs, r3),
            },
        }
    }
}

/// Read a map key.
pub open spec fn key(r: Rest) -> Read<Seq<char>> {
    match charge(r) {
        Read::Fail(e) => Read::Fail(e),
        Read::Got(_, r1) => match number(r1, 1) {
            Read::Fail(e) => Read::Fail(e),
            Read::Got(b, r2) => match head_of(b as u8) {
                Head::Str(span) => match length(r2, span) {
                    Read::Fail(e) => Read::Fail(e),
                    Read::Got(n, r3) => text(r3, n),
                },
                _ => Read::Fail(ProtoErrorV::NonStringKey),
            },
        },
    }
}

/// Read `n` map entries, whose keys are different from each other and from
/// `seen`.
pub open spec fn pairs(
    r: Rest,
    n: nat,
    depth: nat,
    max_depth: nat,
    seen: Seq<Seq<char>>,
) -> Read<(Seq<Seq<char>>, Seq<DocV>)>
    decreases max_depth + 1 - depth, 0nat, n,
{
    if n == 0 || depth > max_depth {
        Read::Got((Seq::empty(), Seq::empty()), r)
    } else {
        match key(r) {
            Read::Fail(e) => Read::Fail(e),
            Read::Got(k, r2) => if seen.contains(k) {
                Read::Fail(ProtoErrorV::DuplicateKey { key: k })
            } else {
                match value(r2, depth + 1, max_depth) {
                    Read::Fail(e) => Read::Fail(e),
                    Read::Got(x, r3) => match pairs(
                        r3,
                        (n - 1) as nat,
                        depth,
                        max_depth,
                        seen.push(k),
                    ) {
                        Read::Fail(e) => Read::Fail(e),
                        Read::Got((ks, xs), r4) => Read::Got((seq![k] + ks, seq![x] + xs), r4),
                    },
                }
            },
        }
    }
}

/// What the bytes of a message are: a document, or what is wrong with them.
pub open spec fn decoded(bytes: Seq<u8>, limits: DecodeLimits) -> core::result::Result<DocV, ProtoErrorV> {
    if bytes.len() > limits.max_bytes {
        Err(ProtoErrorV::MessageTooLarge { len: bytes.len(), max: limits.max_bytes as nat })
    } else {
        match value(
            Rest { bytes, nodes: limits.max_nodes as nat },
            0,
            limits.max_depth as nat,
        ) {
            Read::Fail(e) => Err(e),
            Read::Got(d, r) => if r.bytes.len() > 0 {
                Err(ProtoErrorV::TrailingBytes { count: r.bytes.len() })
            } else {
                Ok(d)
            },
        }
    }
}

/// Whether a result is what `want` says, by views.
pub open spec fn doc_matches(r: Result<Doc>, want: core::result::Result<DocV, ProtoErrorV>) -> bool {
    match r {
        Ok(d) => want == Ok::<DocV, ProtoErrorV>(d@),
        Err(e) => want == Err::<DocV, ProtoErrorV>(e@),
    }
}

struct Reader<'a> {
    rest: &'a [u8],
    nodes_left: usize,
    max_depth: usize,
}

impl<'a> Reader<'a> {
    spec fn view(&self) -> Rest {
        Rest { bytes: self.rest@, nodes: self.nodes_left as nat }
    }

    fn take(&mut self, n: usize) -> (r: Result<&'a [u8]>)
        ensures
            final(self).max_depth == old(self).max_depth,
            final(self).rest@.len() <= old(self).rest@.len(),
            match r {
                Ok(b) => take(old(self)@, n as nat) == Read::Got(b@, final(self)@),
                Err(e) => take(old(self)@, n as nat) == Read::<Seq<u8>>::Fail(e@),
            },
    {
        if self.rest.len() < n {
            return Err(ProtoError::Truncated);
        }
        let all = self.rest;
        let head = &all[0..n];
        self.rest = &all[n..all.len()];
        proof {
            assert(head@ =~= all@.take(n as int));
            assert(self.rest@ =~= all@.skip(n as int));
        }
        Ok(head)
    }

    /// Read a big-endian number of 1, 2, 4 or 8 bytes.
    fn number(&mut self, width: u8) -> (r: Result<u64>)
        requires
            width == 1 || width == 2 || width == 4 || width == 8,
        ensures
            final(self).max_depth == old(self).max_depth,
            final(self).rest@.len() <= old(self).rest@.len(),
            match r {
                Ok(n) => number(old(self)@, width) == Read::Got(n as nat, final(self)@) && n
                    < pow256(width as nat),
                Err(e) => number(old(self)@, width) == Read::<nat>::Fail(e@),
            },
    {
        let b = match self.take(width as usize) {
            Ok(b) => b,
            Err(e) => {
                return Err(e);
            },
        };
        proof {
            lemma_be_bytes_of_be_nat(b@);
        }
        let n: u64 = if width == 1 {
            proof {
                reveal_with_fuel(crate::bytes::le_nat, 2);
                assert(b@.reverse().drop_first() =~= Seq::empty());
            }
            b[0] as u64
        } else if width == 2 {
            assert(b@.subrange(0, 2) =~= b@);
            get_be16(b, 0) as u64
        } else if width == 4 {
            assert(b@.subrange(0, 4) =~= b@);
            get_be32(b, 0) as u64
        } else {
            assert(b@.subrange(0, 8) =~= b@);
            get_be64(b, 0)
        };
        Ok(n)
    }

    /// Charge one node against the budget.
    fn node(&mut self) -> (r: Result<()>)
        ensures
            final(self).max_depth == old(self).max_depth,
            final(self).rest@.len() <= old(self).rest@.len(),
            match r {
                Ok(_) => charge(old(self)@) == Read::Got((), final(self)@),
                Err(e) => charge(old(self)@) == Read::<()>::Fail(e@),
            },
    {
        match self.nodes_left.checked_sub(1) {
            Some(left) => {
                self.nodes_left = left;
                Ok(())
            },
            None => Err(ProtoError::TooManyNodes),
        }
    }

    /// Read a length.
    fn length(&mut self, span: Span) -> (r: Result<usize>)
        requires
            span matches Span::Wide(w) ==> w == 1 || w == 2 || w == 4,
        ensures
            final(self).max_depth == old(self).max_depth,
            final(self).rest@.len() <= old(self).rest@.len(),
            match r {
                Ok(n) => length(old(self)@, span) == Read::Got(n as nat, final(self)@) && n
                    <= 0xFFFF_FFFF,
                Err(e) => length(old(self)@, span) == Read::<nat>::Fail(e@),
            },
    {
        proof {
            lemma_pow256_values();
        }
        match span {
            Span::Fixed(n) => Ok(n as usize),
            Span::Wide(w) => match self.number(w) {
                Ok(n) => Ok(n as usize),
                Err(e) => Err(e),
            },
        }
    }

    /// Read text of `len` bytes.
    fn str_body(&mut self, len: usize) -> (r: Result<String>)
        ensures
            final(self).max_depth == old(self).max_depth,
            final(self).rest@.len() <= old(self).rest@.len(),
            match r {
                Ok(s) => text(old(self)@, len as nat) == Read::Got(s@, final(self)@),
                Err(e) => text(old(self)@, len as nat) == Read::<Seq<char>>::Fail(e@),
            },
    {
        let bytes = match self.take(len) {
            Ok(b) => to_vec(b),
            Err(e) => {
                return Err(e);
            },
        };
        match from_utf8(bytes) {
            Some(s) => Ok(s),
            None => Err(ProtoError::InvalidUtf8),
        }
    }

    /// Check a claimed container item count against what could possibly fit in
    /// the remaining bytes (≥ 1 byte per item) and the node budget, before any
    /// allocation.
    fn check_count(&self, n: usize) -> (r: Result<()>)
        ensures
            match r {
                Ok(_) => afford(self@, n as nat) is None,
                Err(e) => afford(self@, n as nat) == Some(e@),
            },
    {
        if n > self.rest.len() {
            return Err(ProtoError::Truncated);
        }
        if n > self.nodes_left {
            return Err(ProtoError::TooManyNodes);
        }
        Ok(())
    }

    fn value(&mut self, depth: usize) -> (r: Result<Doc>)
        requires
            depth <= old(self).max_depth + 1,
            depth + old(self).rest@.len() <= usize::MAX,
        ensures
            final(self).max_depth == old(self).max_depth,
            final(self).rest@.len() <= old(self).rest@.len(),
            match r {
                Ok(d) => value(old(self)@, depth as nat, old(self).max_depth as nat) == Read::Got(
                    d@,
                    final(self)@,
                ),
                Err(e) => value(old(self)@, depth as nat, old(self).max_depth as nat)
                    == Read::<DocV>::Fail(e@),
            },
        decreases old(self).max_depth + 1 - depth, 1nat,
    {
        if depth > self.max_depth {
            return Err(ProtoError::TooDeep { max: self.max_depth });
        }
        match self.node() {
            Ok(_) => {},
            Err(e) => {
                return Err(e);
            },
        }
        let head = match self.number(1) {
            Ok(b) => b as u8,
            Err(e) => {
                return Err(e);
            },
        };
        proof {
            lemma_pow256_values();
        }
        match read_head(head) {
            Head::Small(n) => Ok(Doc::Int(n)),
            Head::Unsigned(w) => match self.number(w) {
                Ok(n) => if n > 0x7FFF_FFFF_FFFF_FFFF {
                    Err(ProtoError::IntOutOfRange { found: n })
                } else {
                    Ok(Doc::Int(n as i64))
                },
                Err(e) => Err(e),
            },
            Head::Signed(w) => match self.number(w) {
                Ok(n) => Ok(Doc::Int(to_signed(n, w))),
                Err(e) => Err(e),
            },
            Head::Nil => Ok(Doc::Null),
            Head::Truth(t) => Ok(Doc::Bool(t)),
            Head::Real(w) => match self.number(w) {
                Ok(n) => if w == 4 {
                    Ok(Doc::Float(widen(n as u32)))
                } else {
                    Ok(Doc::Float(n))
                },
                Err(e) => Err(e),
            },
            Head::Str(span) => {
                let n = match self.length(span) {
                    Ok(n) => n,
                    Err(e) => {
                        return Err(e);
                    },
                };
                match self.str_body(n) {
                    Ok(s) => Ok(Doc::Str(s)),
                    Err(e) => Err(e),
                }
            },
            Head::Bin(span) => {
                let n = match self.length(span) {
                    Ok(n) => n,
                    Err(e) => {
                        return Err(e);
                    },
                };
                match self.take(n) {
                    Ok(b) => Ok(Doc::Bin(to_vec(b))),
                    Err(e) => Err(e),
                }
            },
            Head::Array(span) => {
                let n = match self.length(span) {
                    Ok(n) => n,
                    Err(e) => {
                        return Err(e);
                    },
                };
                self.array_body(n, depth)
            },
            Head::Dict(span) => {
                let n = match self.length(span) {
                    Ok(n) => n,
                    Err(e) => {
                        return Err(e);
                    },
                };
                self.map_body(n, depth)
            },
            Head::Ext => Err(ProtoError::ExtNotAllowed),
            Head::Reserved => Err(ProtoError::ReservedByte),
        }
    }

    fn array_body(&mut self, n: usize, depth: usize) -> (r: Result<Doc>)
        requires
            depth <= old(self).max_depth,
            depth + 1 + old(self).rest@.len() <= usize::MAX,
        ensures
            final(self).max_depth == old(self).max_depth,
            final(self).rest@.len() <= old(self).rest@.len(),
            match afford(old(self)@, n as nat) {
                Some(e) => r is Err && r->Err_0@ == e,
                None => match r {
                    Ok(d) => d@ is Array && items(
                        old(self)@,
                        n as nat,
                        depth as nat,
                        old(self).max_depth as nat,
                    ) == Read::Got(d@->Array_0, final(self)@),
                    Err(e) => items(
                        old(self)@,
                        n as nat,
                        depth as nat,
                        old(self).max_depth as nat,
                    ) == Read::<Seq<DocV>>::Fail(e@),
                },
            },
        decreases old(self).max_depth + 1 - depth, 0nat,
    {
        match self.check_count(n) {
            Ok(_) => {},
            Err(e) => {
                return Err(e);
            },
        }
        let ghost d = depth as nat;
        let ghost m = self.max_depth as nat;
        let ghost goal = items(self@, n as nat, d, m);
        let mut out: Vec<Doc> = Vec::new();
        let mut i: usize = 0;
        proof {
            assert(goal == prefixed(docs(out@), goal));
        }
        while i < n
            invariant
                i <= n,
                d == depth,
                m == self.max_depth,
                self.max_depth == old(self).max_depth,
                depth <= self.max_depth,
                depth + 1 + self.rest@.len() <= usize::MAX,
                self.rest@.len() <= old(self).rest@.len(),
                goal == items(old(self)@, n as nat, d, m),
                afford(old(self)@, n as nat) is None,
                goal == prefixed(docs(out@), items(self@, (n - i) as nat, d, m)),
            decreases n - i,
        {
            let ghost rest = self@;
            let ghost done = docs(out@);
            match self.value(depth + 1) {
                Ok(x) => {
                    out.push(x);
                    proof {
                        assert(docs(out@) =~= done.push(x@));
                        let tail = items(self@, (n - i - 1) as nat, d, m);
                        if let Read::Got(xs, r3) = tail {
                            assert(done + (seq![x@] + xs) =~= done.push(x@) + xs);
                        }
                    }
                },
                Err(e) => {
                    return Err(e);
                },
            }
            i = i + 1;
        }
        proof {
            assert(docs(out@) + Seq::empty() =~= docs(out@));
        }
        let r = Doc::Array(out);
        proof {
            r.lemma_parts();
        }
        Ok(r)
    }

    fn map_body(&mut self, n: usize, depth: usize) -> (r: Result<Doc>)
        requires
            depth <= old(self).max_depth,
            depth + 1 + old(self).rest@.len() <= usize::MAX,
            n <= 0xFFFF_FFFF,
        ensures
            final(self).max_depth == old(self).max_depth,
            final(self).rest@.len() <= old(self).rest@.len(),
            match afford(old(self)@, 2 * n as nat) {
                Some(e) => r is Err && r->Err_0@ == e,
                None => match r {
                    Ok(d) => d@ is Dict && pairs(
                        old(self)@,
                        n as nat,
                        depth as nat,
                        old(self).max_depth as nat,
                        Seq::empty(),
                    ) == Read::Got((d@->keys, d@->vals), final(self)@),
                    Err(e) => pairs(
                        old(self)@,
                        n as nat,
                        depth as nat,
                        old(self).max_depth as nat,
                        Seq::empty(),
                    ) == Read::<(Seq<Seq<char>>, Seq<DocV>)>::Fail(e@),
                },
            },
        decreases old(self).max_depth + 1 - depth, 0nat,
    {
        // A map entry is a key node and a value node.
        assert(self.rest.len() == self.rest@.len());
        if n > usize::MAX / 2 {
            return Err(ProtoError::Truncated);
        }
        match self.check_count(n * 2) {
            Ok(_) => {},
            Err(e) => {
                return Err(e);
            },
        }
        let ghost d = depth as nat;
        let ghost m = self.max_depth as nat;
        let ghost goal = pairs(self@, n as nat, d, m, Seq::empty());
        let mut entries: Vec<(String, Doc)> = Vec::new();
        let mut i: usize = 0;
        proof {
            assert(entry_keys(entries@) =~= Seq::empty());
            assert(goal == prefixed_pairs(entry_keys(entries@), entry_vals(entries@), goal));
        }
        while i < n
            invariant
                i <= n,
                d == depth,
                m == self.max_depth,
                self.max_depth == old(self).max_depth,
                depth <= self.max_depth,
                depth + 1 + self.rest@.len() <= usize::MAX,
                self.rest@.len() <= old(self).rest@.len(),
                goal == pairs(old(self)@, n as nat, d, m, Seq::empty()),
                afford(old(self)@, 2 * n as nat) is None,
                goal == prefixed_pairs(
                    entry_keys(entries@),
                    entry_vals(entries@),
                    pairs(self@, (n - i) as nat, d, m, entry_keys(entries@)),
                ),
            decreases n - i,
        {
            let ghost ks = entry_keys(entries@);
            let ghost vs = entry_vals(entries@);
            let k = match self.key() {
                Ok(k) => k,
                Err(e) => {
                    return Err(e);
                },
            };
            let seen = find_entry(&entries, k.as_str());
            proof {
                lemma_position(ks, k@);
                if let Some(j) = seen {
                    assert(ks[j as int] == k@);
                }
            }
            if seen.is_some() {
                return Err(ProtoError::DuplicateKey { key: k });
            }
            match self.value(depth + 1) {
                Ok(x) => {
                    let ghost kv = k@;
                    entries.push((k, x));
                    proof {
                        assert(entry_keys(entries@) =~= ks.push(kv));
                        assert(entry_vals(entries@) =~= vs.push(x@));
                        let tail = pairs(self@, (n - i - 1) as nat, d, m, ks.push(kv));
                        if let Read::Got((kt, xt), r4) = tail {
                            assert(ks + (seq![kv] + kt) =~= ks.push(kv) + kt);
                            assert(vs + (seq![x@] + xt) =~= vs.push(x@) + xt);
                        }
                    }
                },
                Err(e) => {
                    return Err(e);
                },
            }
            i = i + 1;
        }
        proof {
            assert(entry_keys(entries@) + Seq::empty() =~= entry_keys(entries@));
            assert(entry_vals(entries@) + Seq::empty() =~= entry_vals(entries@));
        }
        let r = Doc::Dict(entries);
        proof {
            r.lemma_parts();
        }
        Ok(r)
    }

    /// Read a map key, which must be a string.
    fn key(&mut self) -> (r: Result<String>)
        ensures
            final(self).max_depth == old(self).max_depth,
            final(self).rest@.len() <= old(self).rest@.len(),
            match r {
                Ok(s) => key(old(self)@) == Read::Got(s@, final(self)@),
                Err(e) => key(old(self)@) == Read::<Seq<char>>::Fail(e@),
            },
    {
        match self.node() {
            Ok(_) => {},
            Err(e) => {
                return Err(e);
            },
        }
        let head = match self.number(1) {
            Ok(b) => b as u8,
            Err(e) => {
                return Err(e);
            },
        };
        proof {
            lemma_pow256_values();
        }
        match read_head(head) {
            Head::Str(span) => match self.length(span) {
                Ok(n) => self.str_body(n),
                Err(e) => Err(e),
            },
            _ => Err(ProtoError::NonStringKey),
        }
    }
}

/// Values read before, then those of `r`.
spec fn prefixed(done: Seq<DocV>, r: Read<Seq<DocV>>) -> Read<Seq<DocV>> {
    match r {
        Read::Got(xs, rest) => Read::Got(done + xs, rest),
        Read::Fail(e) => Read::Fail(e),
    }
}

/// Entries read before, then those of `r`.
spec fn prefixed_pairs(
    ks: Seq<Seq<char>>,
    vs: Seq<DocV>,
    r: Read<(Seq<Seq<char>>, Seq<DocV>)>,
) -> Read<(Seq<Seq<char>>, Seq<DocV>)> {
    match r {
        Read::Got((kt, xt), rest) => Read::Got((ks + kt, vs + xt), rest),
        Read::Fail(e) => Read::Fail(e),
    }
}

/// The signed integer that an unsigned one of `width` bytes stands for.
fn to_signed(n: u64, width: u8) -> (r: i64)
    requires
        width == 1 || width == 2 || width == 4 || width == 8,
        n < pow256(width as nat),
    ensures
        r == signed(n as nat, width),
{
    proof {
        lemma_pow256_values();
    }
    if width == 8 {
        if n >= 0x8000_0000_0000_0000 {
            -((0xFFFF_FFFF_FFFF_FFFF - n) as i64) - 1
        } else {
            n as i64
        }
    } else {
        let all: i64 = if width == 1 {
            0x100
        } else if width == 2 {
            0x1_0000
        } else {
            0x1_0000_0000
        };
        if 2 * (n as i64) >= all {
            n as i64 - all
        } else {
            n as i64
        }
    }
}

/// Decode exactly one MessagePack value under `limits`.
pub fn decode_doc(bytes: &[u8], limits: &DecodeLimits) -> (r: Result<Doc>)
    ensures
        doc_matches(r, decoded(bytes@, *limits)),
{
    if bytes.len() > limits.max_bytes {
        return Err(ProtoError::MessageTooLarge { len: bytes.len(), max: limits.max_bytes });
    }
    let mut r = Reader {
        rest: bytes,
        nodes_left: limits.max_nodes,
        max_depth: limits.max_depth,
    };
    let doc = match r.value(0) {
        Ok(doc) => doc,
        Err(e) => {
            return Err(e);
        },
    };
    if r.rest.len() > 0 {
        return Err(ProtoError::TrailingBytes { count: r.rest.len() });
    }
    Ok(doc)
}

} // verus!
