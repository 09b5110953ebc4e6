//! Foundations shared by every layer: the error taxonomy, injectable time,
//! randomness and block storage, and the checksum.

pub mod clock;
pub mod crc;
pub mod error;
pub mod io;
pub mod rng;

pub use self::clock::{Clock, ManualClock, SystemClock};
pub use self::crc::crc32c;
pub use self::error::{CategorizedError, ErrorCategory};
pub use self::io::{FaultInjectingBackend, FaultPoint, IoBackend, IoError, IoResult, MemoryBackend};
pub use self::rng::{Rng, SeededRng};
