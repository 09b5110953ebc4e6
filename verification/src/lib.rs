//! An embedded relational database engine: a checksummed, atomically
//! committing page store, a copy-on-write B+tree over it, the catalog and
//! constraint rules of its tables, and the wire protocol of its clients.

pub mod bytes;
pub mod order;
pub mod text;
pub mod views;
pub mod value;
pub mod common;
pub mod pager;
pub mod btree;
pub mod proto;
pub mod index;
pub mod catalog;
pub mod dbms;
pub mod cli;
pub mod layout;
