//! The page frame: a fixed 4 KiB image with a self-describing header and a
//! CRC32C.
//!
//! Layout (little-endian):
//! ```text
//! offset  size  field
//!  0      4     crc32c of bytes [4..PAGE_SIZE]
//!  4      1     page type
//!  5      1     flags (reserved, 0)
//!  6      2     reserved (0)
//!  8      8     page id (self-identifying; detects misdirected writes)
//! 16      ...   payload (PAGE_PAYLOAD_SIZE bytes)
//! ```

use vstd::prelude::*;
use crate::bytes::{
    copy_into, get_le32, get_le64, le_bytes, le_nat, lemma_le_bytes_len, lemma_le_bytes_of_le_nat,
    lemma_le_nat_of_le_bytes, lemma_pow256_values, push_le, splice,
};
use crate::common::crc::{crc32c, crc32c_of};
use super::error::{CorruptionKind, PagerError, Result};

verus! {

/// The fixed page size in bytes.
pub const PAGE_SIZE: usize = 4096;

/// Bytes of header preceding the payload of every page.
pub const HEADER_SIZE: usize = 16;

/// Usable payload bytes per page.
pub const PAGE_PAYLOAD_SIZE: usize = 4080;

/// Pages 0 and 1 are the reserved double-buffered meta slots; data pages start
/// here.
pub const FIRST_DATA_PAGE: u64 = 2;

/// A full in-memory page image.
pub type Frame = [u8; PAGE_SIZE];

pub const CRC_OFF: usize = 0;

pub const TYPE_OFF: usize = 4;

pub const FLAGS_OFF: usize = 5;

pub const ID_OFF: usize = 8;

/// A page identifier (an index into the file, in page-size units).
#[derive(Debug, Clone, Copy, PartialEq, Eq, PartialOrd, Ord, Hash, Structural)]
pub struct PageId(pub u64);

impl PageId {
    /// Wrap a raw page number.
    pub fn new(raw: u64) -> (id: Self)
        ensures
            id == PageId(raw),
    {
        PageId(raw)
    }

    /// The raw page number.
    pub fn get(self) -> (raw: u64)
        ensures
            raw == self.0,
    {
        self.0
    }
}

/// The kind of data a page holds.
#[derive(Debug, Clone, Copy, PartialEq, Eq, Structural)]
pub enum PageType {
    /// A double-buffered meta page (slots 0 and 1).
    Meta,
    /// A free-list trunk page.
    Freelist,
    /// A generic data page (used by higher layers, e.g. the B+tree).
    Data,
}

/// The type byte of each kind of page.
pub open spec fn type_byte(t: PageType) -> u8 {
    match t {
        PageType::Meta => 1,
        PageType::Freelist => 2,
        PageType::Data => 3,
    }
}

/// The kind of page a type byte stands for.
pub open spec fn type_of_byte(byte: u8) -> Option<PageType> {
    if byte == 1 {
        Some(PageType::Meta)
    } else if byte == 2 {
        Some(PageType::Freelist)
    } else if byte == 3 {
        Some(PageType::Data)
    } else {
        None
    }
}

impl PageType {
    fn to_u8(self) -> (byte: u8)
        ensures
            byte == type_byte(self),
    {
        match self {
            PageType::Meta => 1,
            PageType::Freelist => 2,
            PageType::Data => 3,
        }
    }

    fn from_u8(byte: u8) -> (t: Option<Self>)
        ensures
            t == type_of_byte(byte),
    {
        match byte {
            1 => Some(PageType::Meta),
            2 => Some(PageType::Freelist),
            3 => Some(PageType::Data),
            _ => None,
        }
    }
}

/// An all-zero page image.
pub open spec fn zero_page() -> Seq<u8> {
    Seq::new(PAGE_SIZE as nat, |i: int| 0u8)
}

/// Allocate a zeroed page frame on the heap.
pub fn zeroed() -> (frame: Box<Frame>)
    ensures
        frame@ == zero_page(),
{
    let frame: Frame = [0u8;PAGE_SIZE];
    assert(frame@ =~= zero_page());
    Box::new(frame)
}

/// The 32-bit field at `at`.
pub open spec fn u32_at(s: Seq<u8>, at: int) -> nat {
    le_nat(s.subrange(at, at + 4))
}

/// The 64-bit field at `at`.
pub open spec fn u64_at(s: Seq<u8>, at: int) -> nat {
    le_nat(s.subrange(at, at + 8))
}

/// Fields hold numbers of their width.
pub proof fn lemma_fields_fit(s: Seq<u8>, at: int)
    requires
        0 <= at,
    ensures
        at + 4 <= s.len() ==> u32_at(s, at) <= u32::MAX,
        at + 8 <= s.len() ==> u64_at(s, at) <= u64::MAX,
{
    lemma_pow256_values();
    if at + 4 <= s.len() {
        lemma_le_bytes_of_le_nat(s.subrange(at, at + 4));
    }
    if at + 8 <= s.len() {
        lemma_le_bytes_of_le_nat(s.subrange(at, at + 8));
    }
}

pub fn read_u32(frame: &Frame, at: usize) -> (value: u32)
    requires
        at + 4 <= PAGE_SIZE,
    ensures
        value == u32_at(frame@, at as int),
{
    get_le32(frame.as_slice(), at)
}

pub fn read_u64(frame: &Frame, at: usize) -> (value: u64)
    requires
        at + 8 <= PAGE_SIZE,
    ensures
        value == u64_at(frame@, at as int),
{
    get_le64(frame.as_slice(), at)
}

pub fn write_u32(frame: &mut Frame, at: usize, value: u32)
    requires
        at + 4 <= PAGE_SIZE,
    ensures
        final(frame)@ == splice(old(frame)@, at as int, le_bytes(value as nat, 4)),
{
    let mut data: Vec<u8> = Vec::new();
    push_le(&mut data, value as u64, 4);
    proof {
        lemma_le_bytes_len(value as nat, 4);
        assert(data@ =~= le_bytes(value as nat, 4));
    }
    copy_into(frame, at, data.as_slice());
}

pub fn write_u64(frame: &mut Frame, at: usize, value: u64)
    requires
        at + 8 <= PAGE_SIZE,
    ensures
        final(frame)@ == splice(old(frame)@, at as int, le_bytes(value as nat, 8)),
{
    let mut data: Vec<u8> = Vec::new();
    push_le(&mut data, value, 8);
    proof {
        lemma_le_bytes_len(value as nat, 8);
        assert(data@ =~= le_bytes(value as nat, 8));
    }
    copy_into(frame, at, data.as_slice());
}

/// A field reads back as written, and every field beside it as before.
pub proof fn lemma_field_round_trip(s: Seq<u8>, at: int, value: nat, n: nat)
    requires
        0 <= at,
        at + n <= s.len(),
        value < crate::bytes::pow256(n),
    ensures
        splice(s, at, le_bytes(value, n)).len() == s.len(),
        le_nat(splice(s, at, le_bytes(value, n)).subrange(at, at + n)) == value,
        forall|a: int, b: int|
            #![trigger splice(s, at, le_bytes(value, n)).subrange(a, b)]
            0 <= a <= b <= s.len() && (b <= at || at + n <= a) ==> splice(
                s,
                at,
                le_bytes(value, n),
            ).subrange(a, b) == s.subrange(a, b),
{
    lemma_le_nat_of_le_bytes(value, n);
    let t = splice(s, at, le_bytes(value, n));
    assert(t.subrange(at, at + n) =~= le_bytes(value, n));
    assert forall|a: int, b: int|
        0 <= a <= b <= s.len() && (b <= at || at + n <= a) implies #[trigger] t.subrange(a, b)
        == s.subrange(a, b) by {
        assert(t.subrange(a, b) =~= s.subrange(a, b));
    }
}

/// `<&[u8; N]>::try_from(&[u8])`: views a slice as an array of the same bytes,
/// which succeeds exactly on slices of the array's length.
#[verifier::external_body]
fn slice_as_frame(bytes: &[u8]) -> (frame: Option<&Frame>)
    ensures
        frame is Some <==> bytes@.len() == PAGE_SIZE,
        frame matches Some(f) ==> f@ == bytes@,
{
    <&Frame>::try_from(bytes).ok()
}

/// Interpret a raw buffer as a page frame, returning `Corruption` if it is not
/// exactly [`PAGE_SIZE`] bytes.
pub fn as_frame(bytes: &[u8], page: PageId) -> (r: Result<&Frame>)
    ensures
        bytes@.len() == PAGE_SIZE ==> r is Ok && r->Ok_0@ == bytes@,
        bytes@.len() != PAGE_SIZE ==> r == Err::<&Frame, PagerError>(
            PagerError::Corruption(CorruptionKind::TruncatedPage { page: page.0 }),
        ),
{
    match slice_as_frame(bytes) {
        Some(frame) => Ok(frame),
        None => Err(PagerError::Corruption(CorruptionKind::TruncatedPage { page: page.get() })),
    }
}

/// The type of a page image, by its type byte.
pub open spec fn type_at(s: Seq<u8>) -> Option<PageType> {
    type_of_byte(s[4])
}

/// Read the page type from a frame.
pub fn page_type(frame: &Frame) -> (r: Result<PageType>)
    ensures
        r == (match type_at(frame@) {
            Some(t) => Ok(t),
            None => Err(
                PagerError::Corruption(CorruptionKind::UnknownPageType { byte: frame@[4] }),
            ),
        }),
{
    match PageType::from_u8(frame[TYPE_OFF]) {
        Some(t) => Ok(t),
        None => Err(
            PagerError::Corruption(CorruptionKind::UnknownPageType { byte: frame[TYPE_OFF] }),
        ),
    }
}

/// Read the self-identifying page id from a frame.
pub fn page_id(frame: &Frame) -> (id: u64)
    ensures
        id == u64_at(frame@, 8),
{
    read_u64(frame, ID_OFF)
}

/// The flaw, if any, of a buffer that should be page `id`: a wrong length, a
/// checksum that does not match, or another page's id, in this order.
pub open spec fn page_flaw(s: Seq<u8>, id: u64) -> Option<CorruptionKind> {
    if s.len() != PAGE_SIZE {
        Some(CorruptionKind::TruncatedPage { page: id })
    } else if u32_at(s, 0) != crc32c_of(s.subrange(4, PAGE_SIZE as int)) {
        Some(CorruptionKind::Checksum { page: id })
    } else if u64_at(s, 8) != id {
        Some(CorruptionKind::PageIdMismatch { expected: id, found: u64_at(s, 8) as u64 })
    } else {
        None
    }
}

/// Whether a buffer is a structurally sound image of page `id`.
pub open spec fn sound(s: Seq<u8>, id: u64) -> bool {
    page_flaw(s, id) is None
}

/// Verify a raw buffer is a structurally sound page for `expected`: correct
/// length, matching checksum, and matching self-id. Returns the typed `Frame`.
pub fn verify(bytes: &[u8], expected: PageId) -> (r: Result<&Frame>)
    ensures
        match page_flaw(bytes@, expected.0) {
            None => r is Ok && r->Ok_0@ == bytes@,
            Some(kind) => r == Err::<&Frame, PagerError>(PagerError::Corruption(kind)),
        },
{
    let frame = match as_frame(bytes, expected) {
        Ok(frame) => frame,
        Err(e) => {
            return Err(e);
        },
    };
    let stored = read_u32(frame, CRC_OFF);
    let computed = crc32c(&frame[TYPE_OFF..PAGE_SIZE]);
    if stored != computed {
        return Err(PagerError::Corruption(CorruptionKind::Checksum { page: expected.get() }));
    }
    let id = page_id(frame);
    if id != expected.get() {
        return Err(
            PagerError::Corruption(
                CorruptionKind::PageIdMismatch { expected: expected.get(), found: id },
            ),
        );
    }
    Ok(frame)
}

/// `s` with its header fields set: type, zero flags, id. The checksum is not
/// yet stamped.
pub open spec fn headed(s: Seq<u8>, t: PageType, id: u64) -> Seq<u8> {
    splice(splice(s, 4, seq![type_byte(t), 0u8, 0u8, 0u8]), 8, le_bytes(id as nat, 8))
}

/// `s` as a finished image of page `id`.
pub open spec fn finalized(s: Seq<u8>, t: PageType, id: u64) -> Seq<u8> {
    let h = headed(s, t, id);
    splice(h, 0, le_bytes(crc32c_of(h.subrange(4, PAGE_SIZE as int)) as nat, 4))
}

/// Stamp a frame's header (type, flags, id) and recompute its checksum. Call
/// this last, after the payload is fully written.
pub fn finalize(frame: &mut Frame, page_type: PageType, id: PageId)
    ensures
        final(frame)@ == finalized(old(frame)@, page_type, id.0),
{
    let ghost s = frame@;
    frame[TYPE_OFF] = page_type.to_u8();
    frame[FLAGS_OFF] = 0;
    frame[6] = 0;
    frame[7] = 0;
    assert(frame@ =~= splice(s, 4, seq![type_byte(page_type), 0u8, 0u8, 0u8]));
    write_u64(frame, ID_OFF, id.get());
    let crc = crc32c(&frame[TYPE_OFF..PAGE_SIZE]);
    write_u32(frame, CRC_OFF, crc);
}

/// Write `payload` into a frame's payload region, returning
/// [`PagerError::PayloadTooLarge`] if it does not fit.
pub fn set_payload(frame: &mut Frame, payload: &[u8]) -> (r: Result<()>)
    ensures
        payload@.len() <= PAGE_PAYLOAD_SIZE ==> r == Ok::<(), PagerError>(()) && final(frame)@
            == splice(old(frame)@, HEADER_SIZE as int, payload@),
        payload@.len() > PAGE_PAYLOAD_SIZE ==> *final(frame) == *old(frame) && r == Err::<
            (),
            PagerError,
        >(
            PagerError::PayloadTooLarge { len: payload@.len() as usize, max: PAGE_PAYLOAD_SIZE },
        ),
{
    if payload.len() > PAGE_PAYLOAD_SIZE {
        return Err(PagerError::PayloadTooLarge { len: payload.len(), max: PAGE_PAYLOAD_SIZE });
    }
    copy_into(frame, HEADER_SIZE, payload);
    Ok(())
}

/// The image a page write of `payload` stores: the payload, zeros after it,
/// under a finished header.
pub open spec fn page_image(t: PageType, id: u64, payload: Seq<u8>) -> Seq<u8> {
    finalized(splice(zero_page(), HEADER_SIZE as int, payload), t, id)
}

/// Finishing any page image makes it a sound image of its page, of the stamped
/// type, and leaves the payload as it was.
pub proof fn finalize_then_verify(s: Seq<u8>, t: PageType, id: u64)
    requires
        s.len() == PAGE_SIZE,
    ensures
        finalized(s, t, id).len() == PAGE_SIZE,
        sound(finalized(s, t, id), id),
        type_at(finalized(s, t, id)) == Some(t),
        finalized(s, t, id).subrange(HEADER_SIZE as int, PAGE_SIZE as int) == s.subrange(
            HEADER_SIZE as int,
            PAGE_SIZE as int,
        ),
{
    lemma_pow256_values();
    let h = headed(s, t, id);
    let f = finalized(s, t, id);
    let crc = crc32c_of(h.subrange(4, PAGE_SIZE as int));
    let typed = splice(s, 4, seq![type_byte(t), 0u8, 0u8, 0u8]);
    lemma_field_round_trip(typed, 8, id as nat, 8);
    lemma_field_round_trip(h, 0, crc as nat, 4);
    assert(f.subrange(4, PAGE_SIZE as int) == h.subrange(4, PAGE_SIZE as int));
    assert(f.subrange(8, 16) == h.subrange(8, 16));
    assert(f[4] == f.subrange(4, PAGE_SIZE as int)[0]);
    assert(h.subrange(4, PAGE_SIZE as int)[0] == h[4]);
    assert(h.subrange(4, 8) == typed.subrange(4, 8));
    assert(h[4] == h.subrange(4, 8)[0]);
    assert(typed[4] == typed.subrange(4, 8)[0]);
    assert(f.subrange(16, PAGE_SIZE as int) == h.subrange(16, PAGE_SIZE as int));
    assert(h.subrange(16, PAGE_SIZE as int) == typed.subrange(16, PAGE_SIZE as int));
    assert(typed.subrange(16, PAGE_SIZE as int) =~= s.subrange(16, PAGE_SIZE as int));
}

/// A finished image of one page is refused where another page is expected.
pub proof fn misdirected_write_is_detected(s: Seq<u8>, t: PageType, id: u64, other: u64)
    requires
        s.len() == PAGE_SIZE,
        id != other,
    ensures
        page_flaw(finalized(s, t, id), other) == Some(
            CorruptionKind::PageIdMismatch { expected: other, found: id },
        ),
{
    finalize_then_verify(s, t, id);
}

/// The payload a page write stored is what its sound image holds.
pub proof fn page_image_holds_the_payload(t: PageType, id: u64, payload: Seq<u8>)
    requires
        payload.len() <= PAGE_PAYLOAD_SIZE,
    ensures
        page_image(t, id, payload).len() == PAGE_SIZE,
        sound(page_image(t, id, payload), id),
        type_at(page_image(t, id, payload)) == Some(t),
        page_image(t, id, payload).subrange(
            HEADER_SIZE as int,
            HEADER_SIZE + payload.len(),
        ) == payload,
{
    let s = splice(zero_page(), HEADER_SIZE as int, payload);
    finalize_then_verify(s, t, id);
    let f = finalized(s, t, id);
    let tail = f.subrange(HEADER_SIZE as int, PAGE_SIZE as int);
    assert(f.subrange(HEADER_SIZE as int, HEADER_SIZE + payload.len()) =~= tail.subrange(
        0,
        payload.len() as int,
    ));
    assert(s.subrange(HEADER_SIZE as int, PAGE_SIZE as int).subrange(0, payload.len() as int)
        =~= payload);
}

} // verus!
