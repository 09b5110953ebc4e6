//! Errors of the catalog layer.

use vstd::prelude::*;
use crate::common::error::{CategorizedError, ErrorCategory};
use crate::index::{IndexError, TxnError};
use crate::btree::error::BTreeError;
use crate::value::{TypeError, TypeKind};
use crate::text::{decimal, numbered};
use crate::value::{hex_byte, push_hex_byte};

verus! {

/// How stored catalog bytes can be malformed.
#[derive(Debug, Clone, Copy, PartialEq, Eq, Structural)]
#[non_exhaustive]
pub enum CatalogCorruption {
    /// The bytes end mid-record.
    Truncated,
    /// An unknown format version.
    BadVersion {
        /// The version byte found.
        version: u8,
    },
    /// An unknown tag byte.
    BadTag {
        /// The offending tag.
        tag: u8,
    },
    /// An embedded value failed to decode.
    BadValue,
    /// A string is not valid UTF-8.
    InvalidUtf8,
    /// CHECK nesting beyond the stored-format limit.
    DepthExceeded,
    /// Bytes left over after the record.
    TrailingBytes,
    /// A required companion entry (table root) is missing.
    MissingEntry,
    /// A stored row has more cells than the schema has columns.
    RowWiderThanSchema,
}

/// Errors raised by the catalog layer.
#[derive(Debug)]
#[non_exhaustive]
#[allow(inconsistent_fields)]
pub enum CatalogError {
    /// An error from the underlying transaction layer.
    Txn(TxnError),
    /// An error from the type/encoding layer.
    Type(TypeError),
    /// An error from the index layer.
    Index(IndexError),
    /// An error from the tree layer: an entry that could never fit a node.
    BTree(BTreeError),
    /// Stored catalog bytes are corrupt.
    Corrupt(CatalogCorruption),
    /// A schema definition is invalid.
    InvalidSchema {
        /// What rule the definition broke.
        reason: String,
    },
    /// `create table` for a name that already exists.
    TableExists {
        /// The conflicting table name.
        table: String,
    },
    /// The named table does not exist.
    UnknownTable {
        /// The missing table name.
        table: String,
    },
    /// `drop table` while another table's foreign key references it.
    TableReferenced {
        /// The referenced table.
        table: String,
        /// The referencing table.
        by: String,
        /// The foreign key.
        constraint: String,
    },
    /// The named column does not exist.
    UnknownColumn {
        /// The table searched.
        table: String,
        /// The missing column name.
        column: String,
    },
    /// The same column was provided twice in one row.
    DuplicateColumn {
        /// The repeated column name.
        column: String,
    },
    /// An explicit write to an engine-managed column (rowversion, `on_update:
    /// now`).
    EngineManagedColumn {
        /// The engine-managed column.
        column: String,
    },
    /// An update tried to change a primary-key column (immutable in v1).
    PkImmutable {
        /// The PK column.
        column: String,
    },
    /// No row exists at the given primary key.
    RowNotFound {
        /// The table searched.
        table: String,
    },
    /// A NULL reached a NOT NULL column.
    NotNull {
        /// The table written.
        table: String,
        /// The NOT NULL column.
        column: String,
    },
    /// A value's type does not match the column's declared type.
    TypeMismatch {
        /// The table written.
        table: String,
        /// The mistyped column.
        column: String,
        /// The declared type.
        expected: TypeKind,
        /// What arrived instead.
        found: String,
    },
    /// A primary-key collision.
    DuplicateKey {
        /// The table written.
        table: String,
    },
    /// A unique-index collision (including the implicit index backing a `unique`
    /// column).
    UniqueViolation {
        /// The table written.
        table: String,
        /// The violated unique index.
        index: String,
    },
    /// A foreign key without a parent row.
    ForeignKeyViolation {
        /// The referencing table.
        table: String,
        /// The foreign key.
        constraint: String,
    },
    /// A parent row that children still reference.
    ReferencedByChildren {
        /// The referencing table.
        table: String,
        /// The foreign key.
        constraint: String,
    },
    /// `create index` for a name that already exists on the table.
    IndexExists {
        /// The table.
        table: String,
        /// The conflicting index name.
        index: String,
    },
    /// The named index does not exist on the table.
    UnknownIndex {
        /// The table searched.
        table: String,
        /// The missing index name.
        index: String,
    },
    /// An index disagrees with its base table (corruption or a maintenance bug).
    IndexOutOfSync {
        /// The table.
        table: String,
        /// The inconsistent index.
        index: String,
    },
    /// A CHECK constraint evaluated to false.
    CheckViolation {
        /// The table written.
        table: String,
        /// Which check (by definition order).
        index: usize,
    },
    /// A rejection raised by a caller-supplied write policy.
    Policy {
        /// The category the policy reported.
        category: ErrorCategory,
        /// What the policy said.
        text: String,
    },
}

/// What a [`CatalogError`] says.
#[allow(inconsistent_fields)]
pub enum CatalogErrorV {
    Txn(TxnError),
    Type(TypeError),
    Index(IndexError),
    BTree(BTreeError),
    Corrupt(CatalogCorruption),
    InvalidSchema { reason: Seq<char> },
    TableExists { table: Seq<char> },
    UnknownTable { table: Seq<char> },
    TableReferenced { table: Seq<char>, by: Seq<char>, constraint: Seq<char> },
    UnknownColumn { table: Seq<char>, column: Seq<char> },
    DuplicateColumn { column: Seq<char> },
    EngineManagedColumn { column: Seq<char> },
    PkImmutable { column: Seq<char> },
    RowNotFound { table: Seq<char> },
    NotNull { table: Seq<char>, column: Seq<char> },
    TypeMismatch {
        table: Seq<char>,
        column: Seq<char>,
        expected: TypeKind,
        found: Seq<char>,
    },
    DuplicateKey { table: Seq<char> },
    UniqueViolation { table: Seq<char>, index: Seq<char> },
    ForeignKeyViolation { table: Seq<char>, constraint: Seq<char> },
    ReferencedByChildren { table: Seq<char>, constraint: Seq<char> },
    IndexExists { table: Seq<char>, index: Seq<char> },
    UnknownIndex { table: Seq<char>, index: Seq<char> },
    IndexOutOfSync { table: Seq<char>, index: Seq<char> },
    CheckViolation { table: Seq<char>, index: nat },
    Policy { category: ErrorCategory, text: Seq<char> },
}

impl View for CatalogError {
    type V = CatalogErrorV;

    open spec fn view(&self) -> CatalogErrorV {
        match self {
            CatalogError::Txn(e) => CatalogErrorV::Txn(*e),
            CatalogError::Type(e) => CatalogErrorV::Type(*e),
            CatalogError::Index(e) => CatalogErrorV::Index(*e),
            CatalogError::BTree(e) => CatalogErrorV::BTree(*e),
            CatalogError::Corrupt(c) => CatalogErrorV::Corrupt(*c),
            CatalogError::InvalidSchema { reason } => CatalogErrorV::InvalidSchema {
                reason: reason@,
            },
            CatalogError::TableExists { table } => CatalogErrorV::TableExists { table: table@ },
            CatalogError::UnknownTable { table } => CatalogErrorV::UnknownTable { table: table@ },
            CatalogError::TableReferenced { table, by, constraint } => CatalogErrorV::TableReferenced {
                table: table@,
                by: by@,
                constraint: constraint@,
            },
            CatalogError::UnknownColumn { table, column } => CatalogErrorV::UnknownColumn {
                table: table@,
                column: column@,
            },
            CatalogError::DuplicateColumn { column } => CatalogErrorV::DuplicateColumn {
                column: column@,
            },
            CatalogError::EngineManagedColumn { column } => CatalogErrorV::EngineManagedColumn {
                column: column@,
            },
            CatalogError::PkImmutable { column } => CatalogErrorV::PkImmutable { column: column@ },
            CatalogError::RowNotFound { table } => CatalogErrorV::RowNotFound { table: table@ },
            CatalogError::NotNull { table, column } => CatalogErrorV::NotNull {
                table: table@,
                column: column@,
            },
            CatalogError::TypeMismatch { table, column, expected, found } => CatalogErrorV::TypeMismatch {
                table: table@,
                column: column@,
                expected: *expected,
                found: found@,
            },
            CatalogError::DuplicateKey { table } => CatalogErrorV::DuplicateKey { table: table@ },
            CatalogError::UniqueViolation { table, index } => CatalogErrorV::UniqueViolation {
                table: table@,
                index: index@,
            },
            CatalogError::ForeignKeyViolation { table, constraint } => CatalogErrorV::ForeignKeyViolation {
                table: table@,
                constraint: constraint@,
            },
            CatalogError::ReferencedByChildren { table, constraint } => CatalogErrorV::ReferencedByChildren {
                table: table@,
                constraint: constraint@,
            },
            CatalogError::IndexExists { table, index } => CatalogErrorV::IndexExists {
                table: table@,
                index: index@,
            },
            CatalogError::UnknownIndex { table, index } => CatalogErrorV::UnknownIndex {
                table: table@,
                index: index@,
            },
            CatalogError::IndexOutOfSync { table, index } => CatalogErrorV::IndexOutOfSync {
                table: table@,
                index: index@,
            },
            CatalogError::CheckViolation { table, index } => CatalogErrorV::CheckViolation {
                table: table@,
                index: *index as nat,
            },
            CatalogError::Policy { category, text } => CatalogErrorV::Policy {
                category: *category,
                text: text@,
            },
        }
    }
}

impl CategorizedError for CatalogError {
    open spec fn category_of(&self) -> ErrorCategory {
        match self {
            CatalogError::Txn(e) => e.category_of(),
            CatalogError::Type(e) => e.category_of(),
            CatalogError::Index(e) => e.category_of(),
            CatalogError::BTree(e) => e.category_of(),
            CatalogError::Corrupt(_) => ErrorCategory::Corruption,
            CatalogError::InvalidSchema { .. } => ErrorCategory::Validation,
            CatalogError::TableExists { .. } => ErrorCategory::Validation,
            CatalogError::UnknownColumn { .. } => ErrorCategory::Validation,
            CatalogError::DuplicateColumn { .. } => ErrorCategory::Validation,
            CatalogError::EngineManagedColumn { .. } => ErrorCategory::Validation,
            CatalogError::PkImmutable { .. } => ErrorCategory::Validation,
            CatalogError::IndexExists { .. } => ErrorCategory::Validation,
            CatalogError::UnknownTable { .. } => ErrorCategory::NotFound,
            CatalogError::RowNotFound { .. } => ErrorCategory::NotFound,
            CatalogError::UnknownIndex { .. } => ErrorCategory::NotFound,
            CatalogError::IndexOutOfSync { .. } => ErrorCategory::Corruption,
            CatalogError::TableReferenced { .. } => ErrorCategory::Constraint,
            CatalogError::NotNull { .. } => ErrorCategory::Constraint,
            CatalogError::TypeMismatch { .. } => ErrorCategory::Validation,
            CatalogError::DuplicateKey { .. } => ErrorCategory::Constraint,
            CatalogError::UniqueViolation { .. } => ErrorCategory::Constraint,
            CatalogError::ForeignKeyViolation { .. } => ErrorCategory::Constraint,
            CatalogError::ReferencedByChildren { .. } => ErrorCategory::Constraint,
            CatalogError::CheckViolation { .. } => ErrorCategory::Constraint,
            CatalogError::Policy { category, .. } => *category,
        }
    }

    fn category(&self) -> ErrorCategory {
        match self {
            CatalogError::Txn(e) => e.category(),
            CatalogError::Type(e) => e.category(),
            CatalogError::Index(e) => e.category(),
            CatalogError::BTree(e) => e.category(),
            CatalogError::Corrupt(_) => ErrorCategory::Corruption,
            CatalogError::InvalidSchema { .. } => ErrorCategory::Validation,
            CatalogError::TableExists { .. } => ErrorCategory::Validation,
            CatalogError::UnknownColumn { .. } => ErrorCategory::Validation,
            CatalogError::DuplicateColumn { .. } => ErrorCategory::Validation,
            CatalogError::EngineManagedColumn { .. } => ErrorCategory::Validation,
            CatalogError::PkImmutable { .. } => ErrorCategory::Validation,
            CatalogError::IndexExists { .. } => ErrorCategory::Validation,
            CatalogError::UnknownTable { .. } => ErrorCategory::NotFound,
            CatalogError::RowNotFound { .. } => ErrorCategory::NotFound,
            CatalogError::UnknownIndex { .. } => ErrorCategory::NotFound,
            CatalogError::IndexOutOfSync { .. } => ErrorCategory::Corruption,
            CatalogError::TableReferenced { .. } => ErrorCategory::Constraint,
            CatalogError::NotNull { .. } => ErrorCategory::Constraint,
            CatalogError::TypeMismatch { .. } => ErrorCategory::Validation,
            CatalogError::DuplicateKey { .. } => ErrorCategory::Constraint,
            CatalogError::UniqueViolation { .. } => ErrorCategory::Constraint,
            CatalogError::ForeignKeyViolation { .. } => ErrorCategory::Constraint,
            CatalogError::ReferencedByChildren { .. } => ErrorCategory::Constraint,
            CatalogError::CheckViolation { .. } => ErrorCategory::Constraint,
            CatalogError::Policy { category, .. } => *category,
        }
    }
}

/// Result alias for catalog operations.
pub type Result<T> = std::result::Result<T, CatalogError>;

/// What a rule gives, by views.
pub type Res<T> = core::result::Result<T, CatalogErrorV>;

/// Whether a result is what `want` says, by views.
pub open spec fn agrees<T: View>(r: Result<T>, want: Res<T::V>) -> bool {
    match r {
        Ok(x) => want == Ok::<T::V, CatalogErrorV>(x@),
        Err(e) => want == Err::<T::V, CatalogErrorV>(e@),
    }
}

/// Whether a result without a value is what `want` says: the error, if there is
/// one.
pub open spec fn passes(r: Result<()>, want: Option<CatalogErrorV>) -> bool {
    match r {
        Ok(_) => want is None,
        Err(e) => want == Some(e@),
    }
}

/// The error for an invalid definition.
pub open spec fn invalid_v(reason: Seq<char>) -> CatalogErrorV {
    CatalogErrorV::InvalidSchema { reason }
}

pub(crate) fn invalid(reason: &str) -> (r: CatalogError)
    ensures
        r@ == invalid_v(reason@),
{
    CatalogError::InvalidSchema { reason: reason.to_owned() }
}

fn tag_text(tag: u8) -> (r: String)
    ensures
        r@ == "unknown catalog tag 0x"@ + hex_byte(tag),
{
    let mut out = "unknown catalog tag 0x".to_owned();
    push_hex_byte(&mut out, tag);
    out
}

impl CatalogCorruption {
    /// The text of it.
    pub open spec fn text(self) -> Seq<char> {
        match self {
            CatalogCorruption::Truncated => "catalog bytes are truncated"@,
            CatalogCorruption::BadVersion { version } => {
                "unknown catalog format version "@ + decimal(version as nat)
            },
            CatalogCorruption::BadTag { tag } => "unknown catalog tag 0x"@ + hex_byte(tag),
            CatalogCorruption::BadValue => "embedded value failed to decode"@,
            CatalogCorruption::InvalidUtf8 => "catalog string is not valid UTF-8"@,
            CatalogCorruption::DepthExceeded => "stored check nests too deeply"@,
            CatalogCorruption::TrailingBytes => "trailing bytes after catalog record"@,
            CatalogCorruption::MissingEntry => "a table's root entry is missing"@,
            CatalogCorruption::RowWiderThanSchema => "stored row is wider than the schema"@,
        }
    }

    /// What was found, as text.
    pub fn to_text(&self) -> (r: String)
        ensures
            r@ == self.text(),
    {
        match self {
            CatalogCorruption::Truncated => "catalog bytes are truncated".to_owned(),
            CatalogCorruption::BadVersion { version } => {
                numbered("unknown catalog format version ", *version as u64)
            },
            CatalogCorruption::BadTag { tag } => tag_text(*tag),
            CatalogCorruption::BadValue => "embedded value failed to decode".to_owned(),
            CatalogCorruption::InvalidUtf8 => "catalog string is not valid UTF-8".to_owned(),
            CatalogCorruption::DepthExceeded => "stored check nests too deeply".to_owned(),
            CatalogCorruption::TrailingBytes => "trailing bytes after catalog record".to_owned(),
            CatalogCorruption::MissingEntry => "a table's root entry is missing".to_owned(),
            CatalogCorruption::RowWiderThanSchema => {
                "stored row is wider than the schema".to_owned()
            },
        }
    }
}

/// What breaks a rule of the data is a violated constraint, what is asked for and not there
/// is not found, stored bytes that cannot be are corruption, and what asks for the impossible
/// is invalid; an error of another layer stays what it is there.
pub proof fn categories_tell_what_was_refused(e: CatalogError)
    ensures
        e is NotNull || e is DuplicateKey || e is UniqueViolation || e is CheckViolation
            || e is ForeignKeyViolation || e is ReferencedByChildren || e is TableReferenced
            ==> e.category_of() == ErrorCategory::Constraint,
        e is UnknownTable || e is UnknownIndex || e is RowNotFound ==> e.category_of()
            == ErrorCategory::NotFound,
        e is Corrupt || e is IndexOutOfSync ==> e.category_of() == ErrorCategory::Corruption,
        e is InvalidSchema || e is TableExists || e is IndexExists || e is UnknownColumn
            || e is DuplicateColumn || e is EngineManagedColumn || e is PkImmutable
            || e is TypeMismatch ==> e.category_of() == ErrorCategory::Validation,
        e matches CatalogError::Txn(x) ==> e.category_of() == x.category_of(),
        e matches CatalogError::Type(x) ==> e.category_of() == x.category_of(),
        e matches CatalogError::Index(x) ==> e.category_of() == x.category_of(),
        e matches CatalogError::BTree(x) ==> e.category_of() == x.category_of(),
        e matches CatalogError::Policy { category, .. } ==> e.category_of() == category,
{
}

} // verus!
