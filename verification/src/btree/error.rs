//! What can go wrong in the B+tree.

use vstd::prelude::*;
use crate::common::{CategorizedError, ErrorCategory};
use crate::pager::{CorruptionKind, PagerError};
use crate::text::{around, decimal, numbered, numbered_two};

verus! {

/// Result alias for B+tree operations.
pub type Result<T> = std::result::Result<T, BTreeError>;

/// Errors raised by the B+tree.
#[derive(Debug)]
#[non_exhaustive]
pub enum BTreeError {
    /// An error from the underlying pager.
    Pager(PagerError),
    /// On-disk node bytes or tree structure failed an integrity check.
    Corruption(Corruption),
    /// A single key/value entry is too large to fit a node (there are no
    /// overflow pages). The caller must use a smaller value.
    EntryTooLarge {
        /// The encoded cell size that was rejected.
        entry: usize,
        /// The maximum cell size a node can hold.
        max: usize,
    },
}

impl CategorizedError for BTreeError {
    open spec fn category_of(&self) -> ErrorCategory {
        match self {
            BTreeError::Pager(e) => e.category_of(),
            BTreeError::Corruption(_) => ErrorCategory::Corruption,
            BTreeError::EntryTooLarge { .. } => ErrorCategory::ResourceLimit,
        }
    }

    fn category(&self) -> (c: ErrorCategory) {
        match self {
            BTreeError::Pager(e) => e.category(),
            BTreeError::Corruption(_) => ErrorCategory::Corruption,
            BTreeError::EntryTooLarge { .. } => ErrorCategory::ResourceLimit,
        }
    }
}

/// The specific way B+tree node bytes or structure were found to be invalid.
#[derive(Debug, Clone, Copy, PartialEq, Eq, Structural)]
#[non_exhaustive]
pub enum Corruption {
    /// A page's raw bytes failed a pager-level check while decoding a node.
    Node(CorruptionKind),
    /// A node's kind byte was neither leaf nor internal.
    UnknownNodeKind {
        /// The page the node was read from.
        page: u64,
        /// The unrecognized kind byte.
        byte: u8,
    },
    /// A node's keys were not strictly ascending.
    KeysNotSorted {
        /// The offending page.
        page: u64,
    },
    /// An internal node referenced a child page outside the legal range.
    BadChild {
        /// The internal page.
        page: u64,
        /// The illegal child id.
        child: u64,
    },
    /// Leaves were not all at the same depth.
    UnevenLeafDepth,
    /// A separator key disagreed with the key range of the child it guards.
    SeparatorMismatch {
        /// The internal page whose separator was wrong.
        page: u64,
    },
    /// A non-root node held fewer bytes than the minimum fill.
    Underfull {
        /// The underfull page.
        page: u64,
    },
    /// An internal node had fewer than two children.
    EmptyInternal {
        /// The offending page.
        page: u64,
    },
}

impl Corruption {
    /// The text of it.
    pub open spec fn text(self) -> Seq<char> {
        match self {
            Corruption::Node(k) => k.text(),
            Corruption::UnknownNodeKind { page, byte } => {
                "unknown node kind "@ + decimal(byte as nat) + " on page "@ + decimal(page as nat)
            },
            Corruption::KeysNotSorted { page } => "unsorted keys on page "@ + decimal(page as nat),
            Corruption::BadChild { page, child } => {
                "page "@ + decimal(page as nat) + " references out-of-range child "@
                    + decimal(child as nat)
            },
            Corruption::UnevenLeafDepth => "leaves at differing depths"@,
            Corruption::SeparatorMismatch { page } => {
                "separator/child-range mismatch on page "@ + decimal(page as nat)
            },
            Corruption::Underfull { page } => {
                "non-root page "@ + decimal(page as nat) + " is underfull"@
            },
            Corruption::EmptyInternal { page } => {
                "internal page "@ + decimal(page as nat) + " has fewer than two children"@
            },
        }
    }

    /// What was found, as text.
    pub fn to_text(&self) -> (r: String)
        ensures
            r@ == self.text(),
    {
        match self {
            Corruption::Node(k) => k.to_text(),
            Corruption::UnknownNodeKind { page, byte } => {
                numbered_two("unknown node kind ", *byte as u64, " on page ", *page)
            },
            Corruption::KeysNotSorted { page } => numbered("unsorted keys on page ", *page),
            Corruption::BadChild { page, child } => {
                numbered_two("page ", *page, " references out-of-range child ", *child)
            },
            Corruption::UnevenLeafDepth => "leaves at differing depths".to_owned(),
            Corruption::SeparatorMismatch { page } => {
                numbered("separator/child-range mismatch on page ", *page)
            },
            Corruption::Underfull { page } => around("non-root page ", *page, " is underfull"),
            Corruption::EmptyInternal { page } => {
                around("internal page ", *page, " has fewer than two children")
            },
        }
    }
}

/// A tree that cannot be is corruption, an entry that is too large meets a limit, and an
/// error of the pager stays what it is there.
pub proof fn categories_tell_what_failed(e: BTreeError)
    ensures
        e is Corruption ==> e.category_of() == ErrorCategory::Corruption,
        e is EntryTooLarge ==> e.category_of() == ErrorCategory::ResourceLimit,
        e matches BTreeError::Pager(x) ==> e.category_of() == x.category_of(),
{
}

} // verus!
