//! Fixed-size paged storage: the page format and its checksums, the page
//! cache, the double-buffered meta pages, and the free-page allocator.

pub mod error;
pub mod page;
pub mod meta;
pub mod freelist;
pub mod cache;
pub mod state;
pub mod pager;
pub mod laws;
pub mod chain;

pub use self::error::{CorruptionKind, PagerError, Result};
pub use self::meta::Meta;
pub use self::page::{
    Frame, PageId, PageType, FIRST_DATA_PAGE, HEADER_SIZE, PAGE_PAYLOAD_SIZE, PAGE_SIZE,
};
pub use self::pager::{Pager, DEFAULT_CACHE_BYTES};
pub use self::state::PagerStats;
