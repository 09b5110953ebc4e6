//! The double-buffered meta page.
//!
//! Pages 0 and 1 each hold a meta image. A commit writes the *inactive* slot
//! and syncs, then promotes it; recovery adopts the checksum-valid slot with
//! the highest committed transaction id.

use vstd::prelude::*;
use crate::bytes::{
    bytes_eq, copy_into, le_bytes, lemma_le_bytes_len, lemma_le_nat_of_le_bytes,
    lemma_pow256_values, push_all, push_le, splice,
};
use super::error::{CorruptionKind, PagerError, Result};
use super::page::{
    read_u32, read_u64, u32_at, u64_at, Frame, PageId, FIRST_DATA_PAGE, HEADER_SIZE, PAGE_SIZE,
};

verus! {

/// The format version this build reads and writes.
pub const FORMAT_VERSION: u32 = 1;

pub const MAGIC_OFF: usize = 16;

pub const VERSION_OFF: usize = 24;

pub const PAGE_SIZE_OFF: usize = 28;

pub const TXN_OFF: usize = 32;

pub const PAGE_COUNT_OFF: usize = 40;

pub const FREE_HEAD_OFF: usize = 48;

pub const FREE_LEN_OFF: usize = 56;

pub const CATALOG_OFF: usize = 64;

/// File-format magic, `OTF-EDB` and the format generation.
pub open spec fn magic() -> Seq<u8> {
    seq![0x4fu8, 0x54u8, 0x46u8, 0x2du8, 0x45u8, 0x44u8, 0x42u8, 0x01u8]
}

fn magic_bytes() -> (m: [u8; 8])
    ensures
        m@ == magic(),
{
    let m: [u8; 8] = [0x4fu8, 0x54u8, 0x46u8, 0x2du8, 0x45u8, 0x44u8, 0x42u8, 0x01u8];
    assert(m@ =~= magic());
    m
}

/// The committed root state recorded in a meta page.
#[derive(Debug, Clone, Copy, PartialEq, Eq, Structural)]
pub struct Meta {
    /// Format version of the file.
    pub format_version: u32,
    /// Page size in bytes (must equal [`PAGE_SIZE`]).
    pub page_size: u32,
    /// Monotonic committed transaction id.
    pub txn_id: u64,
    /// Total number of pages the file accounts for (allocation high-water mark).
    pub page_count: u64,
    /// Head of the free-list trunk chain (`None` if empty).
    pub freelist_head: Option<PageId>,
    /// Number of free page ids stored across the trunk chain.
    pub freelist_len: u64,
    /// Root of the system catalog (`None` until the catalog exists).
    pub catalog_root: Option<PageId>,
}

/// An optional page id as a number: 0 stands for none.
pub open spec fn opt_number(id: Option<PageId>) -> u64 {
    match id {
        Some(p) => p.0,
        None => 0,
    }
}

/// The optional page id a number stands for.
pub open spec fn number_opt(value: u64) -> Option<PageId> {
    if value == 0 {
        None
    } else {
        Some(PageId(value))
    }
}

fn opt_to_u64(id: Option<PageId>) -> (value: u64)
    ensures
        value == opt_number(id),
{
    match id {
        Some(p) => p.get(),
        None => 0,
    }
}

pub fn u64_to_opt(value: u64) -> (id: Option<PageId>)
    ensures
        id == number_opt(value),
{
    if value == 0 {
        None
    } else {
        Some(PageId::new(value))
    }
}

/// The bytes that follow the header of a meta page.
pub open spec fn meta_bytes(m: Meta) -> Seq<u8> {
    magic() + le_bytes(m.format_version as nat, 4) + le_bytes(m.page_size as nat, 4) + le_bytes(
        m.txn_id as nat,
        8,
    ) + le_bytes(m.page_count as nat, 8) + le_bytes(opt_number(m.freelist_head) as nat, 8)
        + le_bytes(m.freelist_len as nat, 8) + le_bytes(opt_number(m.catalog_root) as nat, 8)
}

/// The meta of a freshly created, empty database.
pub open spec fn initial_meta() -> Meta {
    Meta {
        format_version: 1,
        page_size: 4096,
        txn_id: 0,
        page_count: 2,
        freelist_head: None,
        freelist_len: 0,
        catalog_root: None,
    }
}

/// The meta that a page image holds, or why it holds none.
pub open spec fn meta_in(s: Seq<u8>, slot: u64) -> Result<Meta> {
    if s.subrange(16, 24) != magic() {
        Err(PagerError::Corruption(CorruptionKind::BadMagic))
    } else if u32_at(s, 24) != FORMAT_VERSION {
        Err(
            PagerError::UnsupportedVersion {
                found: u32_at(s, 24) as u32,
                supported: FORMAT_VERSION,
            },
        )
    } else if u32_at(s, 28) != PAGE_SIZE {
        Err(PagerError::Corruption(CorruptionKind::BadPageSize { found: u32_at(s, 28) as u32 }))
    } else if u64_at(s, 40) < FIRST_DATA_PAGE {
        Err(PagerError::Corruption(CorruptionKind::BadMeta { slot }))
    } else {
        Ok(
            Meta {
                format_version: FORMAT_VERSION,
                page_size: 4096,
                txn_id: u64_at(s, 32) as u64,
                page_count: u64_at(s, 40) as u64,
                freelist_head: number_opt(u64_at(s, 48) as u64),
                freelist_len: u64_at(s, 56) as u64,
                catalog_root: number_opt(u64_at(s, 64) as u64),
            },
        )
    }
}

impl Meta {
    /// The meta of a freshly created, empty database: pages 0 and 1 reserved.
    pub fn initial() -> (m: Self)
        ensures
            m == initial_meta(),
    {
        Meta {
            format_version: FORMAT_VERSION,
            page_size: 4096,
            txn_id: 0,
            page_count: FIRST_DATA_PAGE,
            freelist_head: None,
            freelist_len: 0,
            catalog_root: None,
        }
    }

    /// Encode this meta into a freshly zeroed frame's payload. The caller must
    /// still finalize the frame (which stamps the checksum).
    pub fn encode(&self, frame: &mut Frame)
        ensures
            final(frame)@ == splice(old(frame)@, HEADER_SIZE as int, meta_bytes(*self)),
    {
        let mut data: Vec<u8> = Vec::new();
        let magic_arr = magic_bytes();
        push_all(&mut data, magic_arr.as_slice());
        push_le(&mut data, self.format_version as u64, 4);
        push_le(&mut data, self.page_size as u64, 4);
        push_le(&mut data, self.txn_id, 8);
        push_le(&mut data, self.page_count, 8);
        push_le(&mut data, opt_to_u64(self.freelist_head), 8);
        push_le(&mut data, self.freelist_len, 8);
        push_le(&mut data, opt_to_u64(self.catalog_root), 8);
        proof {
            lemma_meta_bytes_len(*self);
            assert(data@ =~= meta_bytes(*self));
        }
        copy_into(frame, HEADER_SIZE, data.as_slice());
    }

    /// Decode and validate a meta page read from `slot` (0 or 1).
    pub fn decode(frame: &Frame, slot: PageId) -> (r: Result<Self>)
        ensures
            r == meta_in(frame@, slot.0),
    {
        let magic_arr = magic_bytes();
        if !bytes_eq(&frame[MAGIC_OFF..MAGIC_OFF + 8], magic_arr.as_slice()) {
            return Err(PagerError::Corruption(CorruptionKind::BadMagic));
        }
        let format_version = read_u32(frame, VERSION_OFF);
        if format_version != FORMAT_VERSION {
            return Err(
                PagerError::UnsupportedVersion { found: format_version, supported: FORMAT_VERSION },
            );
        }
        let page_size = read_u32(frame, PAGE_SIZE_OFF);
        if page_size as usize != PAGE_SIZE {
            return Err(PagerError::Corruption(CorruptionKind::BadPageSize { found: page_size }));
        }
        let meta = Meta {
            format_version,
            page_size,
            txn_id: read_u64(frame, TXN_OFF),
            page_count: read_u64(frame, PAGE_COUNT_OFF),
            freelist_head: u64_to_opt(read_u64(frame, FREE_HEAD_OFF)),
            freelist_len: read_u64(frame, FREE_LEN_OFF),
            catalog_root: u64_to_opt(read_u64(frame, CATALOG_OFF)),
        };
        // A page_count below the two reserved meta slots is structurally impossible.
        if meta.page_count < FIRST_DATA_PAGE {
            return Err(PagerError::Corruption(CorruptionKind::BadMeta { slot: slot.get() }));
        }
        Ok(meta)
    }
}

pub proof fn lemma_meta_bytes_len(m: Meta)
    ensures
        meta_bytes(m).len() == 56,
{
    lemma_le_bytes_len(m.format_version as nat, 4);
    lemma_le_bytes_len(m.page_size as nat, 4);
    lemma_le_bytes_len(m.txn_id as nat, 8);
    lemma_le_bytes_len(m.page_count as nat, 8);
    lemma_le_bytes_len(opt_number(m.freelist_head) as nat, 8);
    lemma_le_bytes_len(m.freelist_len as nat, 8);
    lemma_le_bytes_len(opt_number(m.catalog_root) as nat, 8);
}

/// Whether a meta is one that a page can record and give back: this build's
/// format, and no page id 0 standing for a page.
pub open spec fn recordable(m: Meta) -> bool {
    &&& m.format_version == FORMAT_VERSION
    &&& m.page_size == 4096
    &&& m.page_count >= FIRST_DATA_PAGE
    &&& m.freelist_head != Some(PageId(0))
    &&& m.catalog_root != Some(PageId(0))
}

/// What a page records of a meta reads back as that meta.
pub proof fn meta_round_trip(s: Seq<u8>, m: Meta, slot: u64)
    requires
        s.len() == PAGE_SIZE,
        s.subrange(HEADER_SIZE as int, HEADER_SIZE + 56) == meta_bytes(m),
        recordable(m),
    ensures
        meta_in(s, slot) == Ok::<Meta, PagerError>(m),
{
    lemma_meta_bytes_len(m);
    lemma_pow256_values();
    let b = meta_bytes(m);
    lemma_le_nat_of_le_bytes(m.format_version as nat, 4);
    lemma_le_nat_of_le_bytes(m.page_size as nat, 4);
    lemma_le_nat_of_le_bytes(m.txn_id as nat, 8);
    lemma_le_nat_of_le_bytes(m.page_count as nat, 8);
    lemma_le_nat_of_le_bytes(opt_number(m.freelist_head) as nat, 8);
    lemma_le_nat_of_le_bytes(m.freelist_len as nat, 8);
    lemma_le_nat_of_le_bytes(opt_number(m.catalog_root) as nat, 8);
    assert forall|j: int| 16 <= j < 72 implies #[trigger] s[j] == b[j - 16] by {
        assert(s.subrange(16, 72)[j - 16] == s[j]);
    }
    assert(s.subrange(16, 24) =~= magic());
    assert(s.subrange(24, 28) =~= le_bytes(m.format_version as nat, 4));
    assert(s.subrange(28, 32) =~= le_bytes(m.page_size as nat, 4));
    assert(s.subrange(32, 40) =~= le_bytes(m.txn_id as nat, 8));
    assert(s.subrange(40, 48) =~= le_bytes(m.page_count as nat, 8));
    assert(s.subrange(48, 56) =~= le_bytes(opt_number(m.freelist_head) as nat, 8));
    assert(s.subrange(56, 64) =~= le_bytes(m.freelist_len as nat, 8));
    assert(s.subrange(64, 72) =~= le_bytes(opt_number(m.catalog_root) as nat, 8));
}

} // verus!
