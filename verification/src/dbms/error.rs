//! The single public error type.

use vstd::prelude::*;
use crate::btree::error::BTreeError;
use crate::catalog::error::CatalogError;
use crate::common::error::{CategorizedError, ErrorCategory};
use crate::common::io::IoError;
use crate::index::{IndexError, TxnError};
use crate::pager::PagerError;
use crate::proto::error::ProtoError;
use crate::value::TypeError;
use super::result::DecodeError;

verus! {

/// An error of the query layer.
#[derive(Debug)]
#[non_exhaustive]
pub enum QueryError {
    /// An error from the transaction layer.
    Txn(TxnError),
    /// An error of its own.
    Own {
        /// The category it belongs to.
        category: ErrorCategory,
        /// What it says.
        text: String,
    },
}

impl CategorizedError for QueryError {
    open spec fn category_of(&self) -> ErrorCategory {
        match self {
            QueryError::Txn(e) => e.category_of(),
            QueryError::Own { category, .. } => *category,
        }
    }

    fn category(&self) -> ErrorCategory {
        match self {
            QueryError::Txn(e) => e.category(),
            QueryError::Own { category, .. } => *category,
        }
    }
}

/// The single public error type. Every layer's error folds into one of these
/// variants and keeps its category.
#[derive(Debug)]
#[non_exhaustive]
pub enum Error {
    /// A low-level I/O error (opening or sizing the backing file).
    Io(IoError),
    /// An error from the pager.
    Pager(PagerError),
    /// An error from the B+tree.
    BTree(BTreeError),
    /// An error from the transaction layer.
    Txn(TxnError),
    /// An error from the type/encoding layer.
    Type(TypeError),
    /// An error from the catalog layer.
    Catalog(CatalogError),
    /// An error from the index layer.
    Index(IndexError),
    /// An error from the protocol layer.
    Proto(ProtoError),
    /// An error from the query layer.
    Query(QueryError),
    /// Decoding a result cell as the wrong type or an unknown column.
    Decode(DecodeError),
    /// A misuse of the public API (e.g. creating over a non-empty file).
    Usage(&'static str),
}

impl CategorizedError for Error {
    open spec fn category_of(&self) -> ErrorCategory {
        match self {
            Error::Io(e) => e.category_of(),
            Error::Pager(e) => e.category_of(),
            Error::BTree(e) => e.category_of(),
            Error::Txn(e) => e.category_of(),
            Error::Type(e) => e.category_of(),
            Error::Catalog(e) => e.category_of(),
            Error::Index(e) => e.category_of(),
            Error::Proto(e) => e.category_of(),
            Error::Query(e) => e.category_of(),
            Error::Decode(e) => e.category_of(),
            Error::Usage(_) => ErrorCategory::Validation,
        }
    }

    fn category(&self) -> ErrorCategory {
        match self {
            Error::Io(e) => e.category(),
            Error::Pager(e) => e.category(),
            Error::BTree(e) => e.category(),
            Error::Txn(e) => e.category(),
            Error::Type(e) => e.category(),
            Error::Catalog(e) => e.category(),
            Error::Index(e) => e.category(),
            Error::Proto(e) => e.category(),
            Error::Query(e) => e.category(),
            Error::Decode(e) => e.category(),
            Error::Usage(_) => ErrorCategory::Validation,
        }
    }
}

/// Result alias for the public API.
pub type Result<T> = std::result::Result<T, Error>;

/// An error keeps its category however many layers it passes.
pub proof fn categories_survive_folding(io: IoError)
    ensures
        Error::Pager(PagerError::Io(io)).category_of() == io.category_of(),
        Error::BTree(BTreeError::Pager(PagerError::Io(io))).category_of() == io.category_of(),
        Error::Catalog(CatalogError::BTree(BTreeError::Pager(PagerError::Io(io)))).category_of()
            == io.category_of(),
{
}

} // verus!
