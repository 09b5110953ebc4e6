//! The foundations: clocks, randomness, stores, fault injection, the checksum.

use std::collections::HashSet;

use otf::common::clock::micros_from_distance;
use otf::common::{
    crc32c, CategorizedError, Clock, ErrorCategory, FaultInjectingBackend, FaultPoint, IoBackend,
    IoError, ManualClock, MemoryBackend, Rng, SeededRng, SystemClock,
};

#[test]
fn manual_clock_advances_and_sets() {
    let mut clock = ManualClock::new(10);
    assert_eq!(clock.now_micros(), 10);
    clock.advance(5);
    assert_eq!(clock.now_micros(), 15);
    clock.set(100);
    assert_eq!(clock.now_micros(), 100);
}

#[test]
fn system_clock_is_positive_and_monotonicish() {
    let clock = SystemClock;
    let a = clock.now_micros();
    let b = clock.now_micros();
    assert!(a > 0);
    assert!(b >= a);
}

#[test]
fn the_system_clock_counts_microseconds_since_the_epoch() {
    // Later than the start of 2024 and earlier than the year 2200.
    let now = SystemClock.now_micros();
    assert!(now > 1_704_067_200_000_000);
    assert!(now < 7_258_118_400_000_000);
}

#[test]
fn distances_saturate_at_the_ends() {
    assert_eq!(micros_from_distance(Ok(7)), 7);
    assert_eq!(micros_from_distance(Err(7)), -7);
    assert_eq!(micros_from_distance(Ok(u128::MAX)), i64::MAX);
}

fn round_trip<B: IoBackend>(store: &mut B) {
    store.write_at(0, b"hello world").unwrap();
    store.sync().unwrap();
    assert_eq!(store.len().unwrap(), 11);

    let mut buf = [0u8; 5];
    store.read_at(6, &mut buf).unwrap();
    assert_eq!(&buf, b"world");

    // Sparse write grows the store and zero-fills the gap.
    store.write_at(20, b"!").unwrap();
    assert_eq!(store.len().unwrap(), 21);
    let mut gap = [0xFFu8; 4];
    store.read_at(12, &mut gap).unwrap();
    assert_eq!(gap, [0, 0, 0, 0]);

    store.truncate(5).unwrap();
    assert_eq!(store.len().unwrap(), 5);
}

#[test]
fn memory_backend_round_trip() {
    let mut store = MemoryBackend::new();
    round_trip(&mut store);
}

#[test]
fn a_fault_injecting_store_round_trips_too() {
    let mut store = FaultInjectingBackend::new(MemoryBackend::new());
    round_trip(&mut store);
    assert_eq!(store.into_inner().snapshot(), b"hello".to_vec());
}

#[test]
fn memory_backend_reads_past_end_are_rejected() {
    let mut store = MemoryBackend::new();
    store.write_at(0, b"abc").unwrap();
    let mut buf = [0u8; 4];
    let err = store.read_at(0, &mut buf).unwrap_err();
    assert_eq!(err.category(), ErrorCategory::Io);
    assert!(matches!(err, IoError::OutOfBounds { .. }));
}

#[test]
fn memory_backend_from_bytes_and_snapshot() {
    let store = MemoryBackend::from_bytes(vec![1, 2, 3]);
    assert_eq!(store.snapshot(), vec![1, 2, 3]);
}

#[test]
fn fault_injection_trips_once_at_the_chosen_occurrence() {
    let mut store = FaultInjectingBackend::new(MemoryBackend::new());
    store.arm(FaultPoint::Write, 2);

    store.write_at(0, b"a").unwrap(); // 1st write ok
    let err = store.write_at(1, b"b").unwrap_err(); // 2nd write trips
    assert!(matches!(
        err,
        IoError::Injected {
            point: FaultPoint::Write,
            occurrence: 2
        }
    ));
    store.write_at(2, b"c").unwrap(); // 3rd write ok again
}

#[test]
fn fault_injection_can_be_disarmed() {
    let mut store = FaultInjectingBackend::new(MemoryBackend::new());
    store.arm(FaultPoint::Sync, 1);
    store.disarm();
    store.sync().unwrap();
}

#[test]
fn an_injected_read_leaves_the_store_alone() {
    let mut store = FaultInjectingBackend::new(MemoryBackend::from_bytes(vec![1, 2, 3]));
    store.arm(FaultPoint::Read, 1);
    let mut buf = [0u8; 2];
    let err = store.read_at(0, &mut buf).unwrap_err();
    assert!(matches!(err, IoError::Injected { point: FaultPoint::Read, occurrence: 1 }));
    store.read_at(0, &mut buf).unwrap();
    assert_eq!(buf, [1, 2]);
    assert_eq!(store.into_inner().snapshot(), vec![1, 2, 3]);
}

#[test]
fn same_seed_same_stream() {
    let mut a = SeededRng::new(7);
    let mut b = SeededRng::new(7);
    for _ in 0..1000 {
        assert_eq!(a.next_u64(), b.next_u64());
    }
}

#[test]
fn different_seed_diverges() {
    let mut a = SeededRng::new(1);
    let mut b = SeededRng::new(2);
    assert_ne!(a.next_u64(), b.next_u64());
}

#[test]
fn no_immediate_collisions() {
    let mut rng = SeededRng::new(99);
    let mut seen = HashSet::new();
    for _ in 0..10_000 {
        assert!(seen.insert(rng.next_u64()), "unexpected early collision");
    }
}

#[test]
fn the_stream_from_seed_zero_is_splitmix() {
    let mut rng = SeededRng::new(0);
    assert_eq!(rng.next_u64(), 0xE220_A839_7B1D_CDAF);
    assert_eq!(rng.next_u64(), 0x6E78_9E6A_A1B9_65F4);
}

#[test]
fn known_vectors() {
    assert_eq!(crc32c(b""), 0x0000_0000);
    assert_eq!(crc32c(b"123456789"), 0xE306_9283);
}

#[test]
fn detects_single_bit_flips() {
    let a = crc32c(b"the quick brown fox");
    let b = crc32c(b"the quick brown fox.");
    assert_ne!(a, b);
}

#[test]
fn categories_have_their_names() {
    assert_eq!(ErrorCategory::Validation.as_str(), "validation");
    assert_eq!(ErrorCategory::Constraint.as_str(), "constraint");
    assert_eq!(ErrorCategory::Conflict.as_str(), "conflict");
    assert_eq!(ErrorCategory::Io.as_str(), "io");
    assert_eq!(FaultPoint::Read.as_str(), "read");
    assert_eq!(FaultPoint::Write.as_str(), "write");
    assert_eq!(FaultPoint::Sync.as_str(), "sync");
}

#[test]
fn an_error_that_was_not_injected_is_the_wrapped_stores_own() {
    let mut store = FaultInjectingBackend::new(MemoryBackend::from_bytes(vec![1, 2, 3]));
    store.arm(FaultPoint::Read, 2);
    let mut buf = [0u8; 4];
    let err = store.read_at(1, &mut buf).unwrap_err();
    assert!(matches!(err, IoError::OutOfBounds { .. }));
    // It counted: the next read is the one that trips.
    let err = store.read_at(0, &mut buf[..1]).unwrap_err();
    assert!(matches!(err, IoError::Injected { point: FaultPoint::Read, occurrence: 2 }));
    store.read_at(0, &mut buf[..3]).unwrap();
    assert_eq!(&buf[..3], &[1, 2, 3]);
}
