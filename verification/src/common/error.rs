//! The shared error taxonomy.

use vstd::prelude::*;

verus! {

/// The actionable error categories the engine surfaces.
#[derive(Debug, Clone, Copy, PartialEq, Eq, Hash, Structural)]
#[non_exhaustive]
pub enum ErrorCategory {
    /// Malformed or oversized query, type error, or safety-rule violation.
    Validation,
    /// Primary-key, unique, check or not-null violation.
    Constraint,
    /// Optimistic version mismatch (the first committer wins).
    Conflict,
    /// A required row, table, or index was not found.
    NotFound,
    /// A checksum failed; corrupt data is surfaced, never served.
    Corruption,
    /// A per-query resource cap was exceeded.
    ResourceLimit,
    /// An underlying I/O failure.
    Io,
}

/// The identifier of a category.
pub open spec fn category_name(c: ErrorCategory) -> Seq<char> {
    match c {
        ErrorCategory::Validation => "validation"@,
        ErrorCategory::Constraint => "constraint"@,
        ErrorCategory::Conflict => "conflict"@,
        ErrorCategory::NotFound => "not_found"@,
        ErrorCategory::Corruption => "corruption"@,
        ErrorCategory::ResourceLimit => "resource_limit"@,
        ErrorCategory::Io => "io"@,
    }
}

impl ErrorCategory {
    /// A stable, lowercase identifier for the category.
    pub fn as_str(self) -> (s: &'static str)
        ensures
            s@ == category_name(self),
    {
        match self {
            ErrorCategory::Validation => "validation",
            ErrorCategory::Constraint => "constraint",
            ErrorCategory::Conflict => "conflict",
            ErrorCategory::NotFound => "not_found",
            ErrorCategory::Corruption => "corruption",
            ErrorCategory::ResourceLimit => "resource_limit",
            ErrorCategory::Io => "io",
        }
    }
}

/// No two categories share an identifier.
pub proof fn category_names_are_distinct(a: ErrorCategory, b: ErrorCategory)
    requires
        category_name(a) == category_name(b),
    ensures
        a == b,
{
    reveal_strlit("validation");
    reveal_strlit("constraint");
    reveal_strlit("conflict");
    reveal_strlit("not_found");
    reveal_strlit("corruption");
    reveal_strlit("resource_limit");
    reveal_strlit("io");
    let x = category_name(a);
    let y = category_name(b);
    assert(x.len() == y.len());
    assert(x[0] == y[0] && x[1] == y[1]);
    assert(x.len() > 2 ==> x[2] == y[2] && x[3] == y[3]);
}

/// Implemented by every layer's error so that it maps onto exactly one
/// category without losing its typed identity.
pub trait CategorizedError {
    /// The category of this error.
    spec fn category_of(&self) -> ErrorCategory;

    /// The taxonomy category this error belongs to.
    fn category(&self) -> (c: ErrorCategory)
        ensures
            c == self.category_of(),
    ;
}

} // verus!
