//! Copy-on-write B+tree: the ordered map underlying tables and indexes.
//!
//! A mutation copies the touched path to a new root and leaves the old root
//! (and every page it reaches) untouched, so a reader holding an earlier root
//! keeps seeing a consistent snapshot. The tree never frees pages itself: the
//! superseded page ids are returned with each edit.

pub mod error;
pub mod node;
pub mod model;
pub mod parts;
pub mod store;
pub mod check;
pub mod tree;
pub mod grow;
pub mod insert;
pub mod shrink;
pub mod delete;
pub mod api;
pub mod sound;
pub mod range;
pub mod cursor;
pub mod ordered;
pub mod grove;
pub mod plant;
pub mod durable;
pub mod life;
pub mod survey;

pub use self::cursor::{Cursor, Item};
pub use self::error::{BTreeError, Corruption, Result};
pub use self::insert::check_entry;
pub use self::node::Node;
pub use self::range::Direction;
pub use self::tree::{BTree, Edit, TreeStats};
