//! Catalog, schema and constraints: tables over the ordered store.
//!
//! A table definition is validated, stored in the catalog tree and read back; rows
//! are materialized, checked and staged against it; and what is staged comes to a
//! plan of tree operations that keeps every index in step with its base table. How
//! values compare, encode and decode is the value layer's business: its answers come
//! in as arguments.

pub mod error;
pub mod schema;
pub mod check;
pub mod validate;
pub mod form;
pub mod codec;
pub mod stored;
pub mod store;
pub mod row;
pub mod fk;
pub mod probe;
pub mod read;
pub mod write;
pub mod plan;
pub mod apply;
pub mod trees;
pub mod tables;
pub mod named;
pub mod policy;
pub mod job;
pub mod meaning;
pub mod cells;
pub mod refs;
pub mod valid;
pub mod series;
pub mod effects;
pub mod ddl;
pub mod audit;
pub mod unique;
pub mod outcomes;
pub mod altered;

pub use self::check::Relation;
pub use self::codec::{decode_table, Decoded};
pub use self::error::{CatalogCorruption, CatalogError, Result};
pub use self::form::encode_table;
pub use self::plan::Plan;
pub use self::schema::{
    implicit_index_name, CheckExpr, CmpOp, ColumnDef, DefaultSpec, ForeignKey, IndexDef, RefAction,
    TableDef, UpdatePolicy,
};
pub use self::write::{Batch, Keyed, Move};
