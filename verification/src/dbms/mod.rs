//! The public face of the database: one error type, typed access to results, the
//! paging cursor, and the reports of the tools.

pub mod error;
pub mod result;
pub mod inspect;
pub mod cursor;

pub use self::cursor::{Cursor, Page};
pub use self::error::{Error, QueryError, Result};
pub use self::inspect::{Inspection, IntegrityReport, TableInfo};
pub use self::result::{DecodeError, Response, Row};
