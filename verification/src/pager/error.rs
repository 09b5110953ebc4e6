//! What can go wrong in the pager.

use vstd::prelude::*;
use crate::common::{CategorizedError, ErrorCategory, IoError};
use crate::text::{around, decimal, numbered, numbered_two};

verus! {

/// Result alias for pager operations.
pub type Result<T> = std::result::Result<T, PagerError>;

/// Errors raised by the pager.
#[derive(Debug)]
#[non_exhaustive]
pub enum PagerError {
    /// An underlying I/O failure from the backend.
    Io(IoError),
    /// On-disk data failed an integrity check; it is never served as data.
    Corruption(CorruptionKind),
    /// The file was written by an unsupported format version.
    UnsupportedVersion {
        /// The version found in the file.
        found: u32,
        /// The version this build supports.
        supported: u32,
    },
    /// A page id outside the currently allocated range was referenced.
    PageOutOfRange {
        /// The offending page id.
        id: u64,
        /// The current allocation high-water mark.
        page_count: u64,
    },
    /// A payload larger than a page's usable space was supplied.
    PayloadTooLarge {
        /// The supplied payload length.
        len: usize,
        /// The maximum payload size.
        max: usize,
    },
}

impl CategorizedError for PagerError {
    open spec fn category_of(&self) -> ErrorCategory {
        match self {
            PagerError::Io(_) => ErrorCategory::Io,
            PagerError::Corruption(_) => ErrorCategory::Corruption,
            PagerError::UnsupportedVersion { .. } => ErrorCategory::Corruption,
            PagerError::PageOutOfRange { .. } => ErrorCategory::NotFound,
            PagerError::PayloadTooLarge { .. } => ErrorCategory::Validation,
        }
    }

    fn category(&self) -> (c: ErrorCategory) {
        match self {
            PagerError::Io(e) => e.category(),
            PagerError::Corruption(_) => ErrorCategory::Corruption,
            PagerError::UnsupportedVersion { .. } => ErrorCategory::Corruption,
            PagerError::PageOutOfRange { .. } => ErrorCategory::NotFound,
            PagerError::PayloadTooLarge { .. } => ErrorCategory::Validation,
        }
    }
}

/// The specific way a page or structure was found to be corrupt.
#[derive(Debug, Clone, Copy, PartialEq, Eq, Structural)]
#[non_exhaustive]
#[allow(inconsistent_fields)]
pub enum CorruptionKind {
    /// A buffer was not exactly one page in length.
    TruncatedPage {
        /// The page being read.
        page: u64,
    },
    /// A page's stored checksum did not match its contents.
    Checksum {
        /// The page that failed.
        page: u64,
    },
    /// A page's self-id did not match where it was read from.
    PageIdMismatch {
        /// The id expected from the read offset.
        expected: u64,
        /// The id stored in the page.
        found: u64,
    },
    /// A page's type byte was not a known value.
    UnknownPageType {
        /// The unrecognized byte.
        byte: u8,
    },
    /// A meta page lacked the format magic.
    BadMagic,
    /// A meta page declared a page size this build does not use.
    BadPageSize {
        /// The page size found.
        found: u32,
    },
    /// A meta slot was structurally invalid.
    BadMeta {
        /// The slot (0 or 1).
        slot: u64,
    },
    /// Neither meta slot was valid on open.
    NoValidMeta,
    /// A free-list entry referenced a page outside the valid range.
    FreelistOutOfRange {
        /// The offending id.
        id: u64,
    },
    /// The free-list trunk chain contained a cycle.
    FreelistCycle {
        /// The id revisited.
        id: u64,
    },
    /// A free-list trunk page was not of type `Freelist`.
    FreelistBadType {
        /// The trunk id.
        id: u64,
    },
    /// A free-list trunk declared more entries than fit in a page.
    FreelistBadCount {
        /// The trunk id.
        id: u64,
    },
    /// The same page id appeared twice in the free list.
    FreelistDuplicate {
        /// The duplicated id.
        id: u64,
    },
    /// The walked free-list length disagreed with the meta record.
    FreelistLenMismatch {
        /// Ids counted by walking the chain.
        counted: u64,
        /// The length recorded in the meta page.
        recorded: u64,
    },
}

impl CorruptionKind {
    /// The text of it.
    pub open spec fn text(self) -> Seq<char> {
        match self {
            CorruptionKind::TruncatedPage { page } => "truncated page "@ + decimal(page as nat),
            CorruptionKind::Checksum { page } => {
                "checksum mismatch on page "@ + decimal(page as nat)
            },
            CorruptionKind::PageIdMismatch { expected, found } => {
                "page id mismatch: expected "@ + decimal(expected as nat) + ", found "@
                    + decimal(found as nat)
            },
            CorruptionKind::UnknownPageType { byte } => {
                "unknown page type byte "@ + decimal(byte as nat)
            },
            CorruptionKind::BadMagic => "bad file magic"@,
            CorruptionKind::BadPageSize { found } => {
                "unexpected page size "@ + decimal(found as nat)
            },
            CorruptionKind::BadMeta { slot } => "invalid meta slot "@ + decimal(slot as nat),
            CorruptionKind::NoValidMeta => "no valid meta page"@,
            CorruptionKind::FreelistOutOfRange { id } => {
                "free-list entry "@ + decimal(id as nat) + " out of range"@
            },
            CorruptionKind::FreelistCycle { id } => "free-list cycle at "@ + decimal(id as nat),
            CorruptionKind::FreelistBadType { id } => {
                "free-list page "@ + decimal(id as nat) + " has wrong type"@
            },
            CorruptionKind::FreelistBadCount { id } => {
                "free-list trunk "@ + decimal(id as nat) + " has an invalid count"@
            },
            CorruptionKind::FreelistDuplicate { id } => {
                "duplicate free-list entry "@ + decimal(id as nat)
            },
            CorruptionKind::FreelistLenMismatch { counted, recorded } => {
                "free-list length mismatch: counted "@ + decimal(counted as nat) + ", recorded "@
                    + decimal(recorded as nat)
            },
        }
    }

    /// What was found, as text.
    pub fn to_text(&self) -> (r: String)
        ensures
            r@ == self.text(),
    {
        match self {
            CorruptionKind::TruncatedPage { page } => numbered("truncated page ", *page),
            CorruptionKind::Checksum { page } => numbered("checksum mismatch on page ", *page),
            CorruptionKind::PageIdMismatch { expected, found } => {
                numbered_two("page id mismatch: expected ", *expected, ", found ", *found)
            },
            CorruptionKind::UnknownPageType { byte } => {
                numbered("unknown page type byte ", *byte as u64)
            },
            CorruptionKind::BadMagic => "bad file magic".to_owned(),
            CorruptionKind::BadPageSize { found } => {
                numbered("unexpected page size ", *found as u64)
            },
            CorruptionKind::BadMeta { slot } => numbered("invalid meta slot ", *slot),
            CorruptionKind::NoValidMeta => "no valid meta page".to_owned(),
            CorruptionKind::FreelistOutOfRange { id } => {
                around("free-list entry ", *id, " out of range")
            },
            CorruptionKind::FreelistCycle { id } => numbered("free-list cycle at ", *id),
            CorruptionKind::FreelistBadType { id } => {
                around("free-list page ", *id, " has wrong type")
            },
            CorruptionKind::FreelistBadCount { id } => {
                around("free-list trunk ", *id, " has an invalid count")
            },
            CorruptionKind::FreelistDuplicate { id } => numbered("duplicate free-list entry ", *id),
            CorruptionKind::FreelistLenMismatch { counted, recorded } => numbered_two(
                "free-list length mismatch: counted ",
                *counted,
                ", recorded ",
                *recorded,
            ),
        }
    }
}

/// A failing store is an I/O error, bytes that cannot be or that another version wrote are
/// corruption, a page that is not there is not found, and a payload that is too large is
/// invalid.
pub proof fn categories_tell_what_failed(e: PagerError)
    ensures
        e is Io ==> e.category_of() == ErrorCategory::Io,
        e is Corruption || e is UnsupportedVersion ==> e.category_of()
            == ErrorCategory::Corruption,
        e is PageOutOfRange ==> e.category_of() == ErrorCategory::NotFound,
        e is PayloadTooLarge ==> e.category_of() == ErrorCategory::Validation,
{
}

} // verus!
