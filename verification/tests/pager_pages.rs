//! Pages, metas, trunks and the page cache.

use std::sync::Arc;

use otf::common::crc32c;
use otf::pager::cache::PageCache;
use otf::pager::freelist::{count, id_at, next, set_count, set_id_at, set_next, CAPACITY, IDS_OFF};
use otf::pager::meta::{FORMAT_VERSION, MAGIC_OFF};
use otf::pager::page::{
    finalize, page_id, page_type, read_u32, read_u64, set_payload, verify, write_u32, write_u64,
    zeroed, CRC_OFF, TYPE_OFF,
};
use otf::pager::{
    CorruptionKind, Frame, Meta, PageId, PageType, PagerError, HEADER_SIZE, PAGE_PAYLOAD_SIZE,
    PAGE_SIZE,
};

fn frame(id: u64) -> Arc<Frame> {
    let mut f = zeroed();
    finalize(&mut f, PageType::Data, PageId::new(id));
    Arc::from(f)
}

#[test]
fn evicts_clean_lru_first() {
    // Budget for two pages.
    let mut cache = PageCache::new(2 * PAGE_SIZE);
    cache.insert(2, frame(2), false);
    cache.insert(3, frame(3), false);
    let _ = cache.get(2); // touch 2 → 3 is now LRU
    cache.insert(4, frame(4), false); // over budget → evict 3
    assert!(cache.contains(2));
    assert!(cache.contains(4));
    assert!(!cache.contains(3));
    assert_eq!(cache.len(), 2);
}

#[test]
fn dirty_pages_are_pinned_over_budget() {
    let mut cache = PageCache::new(PAGE_SIZE); // budget for one page
    cache.insert(2, frame(2), true);
    cache.insert(3, frame(3), true);
    // Both dirty → neither evicted even though over budget.
    assert_eq!(cache.len(), 2);
    assert_eq!(cache.dirty_pages().len(), 2);
    cache.clear_dirty();
    // Now clean; next insert can evict down to budget.
    cache.insert(4, frame(4), false);
    assert_eq!(cache.len(), 1);
}

#[test]
fn capacity_fits_within_the_page() {
    assert!(IDS_OFF + CAPACITY as usize * 8 <= PAGE_SIZE);
    assert_eq!(CAPACITY, 508);
}

#[test]
fn trunk_fields_round_trip() {
    let mut frame = zeroed();
    set_next(&mut frame, 12);
    set_count(&mut frame, 2);
    set_id_at(&mut frame, 0, 100);
    set_id_at(&mut frame, 1, 200);
    assert_eq!(next(&frame), 12);
    assert_eq!(count(&frame), 2);
    assert_eq!(id_at(&frame, 0), 100);
    assert_eq!(id_at(&frame, 1), 200);
}

fn sample() -> Meta {
    Meta {
        format_version: FORMAT_VERSION,
        page_size: PAGE_SIZE as u32,
        txn_id: 42,
        page_count: 17,
        freelist_head: Some(PageId::new(9)),
        freelist_len: 3,
        catalog_root: Some(PageId::new(5)),
    }
}

#[test]
fn encode_decode_round_trip() {
    let meta = sample();
    let mut frame = zeroed();
    meta.encode(&mut frame);
    finalize(&mut frame, PageType::Meta, PageId::new(0));
    let frame = verify(&frame[..], PageId::new(0)).unwrap();
    assert_eq!(Meta::decode(frame, PageId::new(0)).unwrap(), meta);
}

#[test]
fn bad_magic_is_rejected() {
    let mut frame = zeroed();
    sample().encode(&mut frame);
    frame[MAGIC_OFF] ^= 0xFF;
    finalize(&mut frame, PageType::Meta, PageId::new(0));
    let frame = verify(&frame[..], PageId::new(0)).unwrap();
    assert!(matches!(
        Meta::decode(frame, PageId::new(0)).unwrap_err(),
        PagerError::Corruption(CorruptionKind::BadMagic)
    ));
}

#[test]
fn unsupported_version_is_reported() {
    let mut meta = sample();
    meta.format_version = 999;
    let mut frame = zeroed();
    meta.encode(&mut frame);
    finalize(&mut frame, PageType::Meta, PageId::new(0));
    let frame = verify(&frame[..], PageId::new(0)).unwrap();
    assert!(matches!(
        Meta::decode(frame, PageId::new(0)).unwrap_err(),
        PagerError::UnsupportedVersion {
            found: 999,
            supported: 1
        }
    ));
}

#[test]
fn finalize_then_verify_round_trips() {
    let mut frame = zeroed();
    set_payload(&mut frame, b"hello payload").unwrap();
    finalize(&mut frame, PageType::Data, PageId::new(7));
    let verified = verify(&frame[..], PageId::new(7)).unwrap();
    assert_eq!(page_type(verified).unwrap(), PageType::Data);
    assert_eq!(page_id(verified), 7);
    assert_eq!(&verified[HEADER_SIZE..HEADER_SIZE + 13], b"hello payload");
}

#[test]
fn corrupted_checksum_is_detected() {
    let mut frame = zeroed();
    finalize(&mut frame, PageType::Data, PageId::new(3));
    frame[100] ^= 0xFF; // flip a payload byte
    let err = verify(&frame[..], PageId::new(3)).unwrap_err();
    assert!(matches!(
        err,
        PagerError::Corruption(CorruptionKind::Checksum { page: 3 })
    ));
}

#[test]
fn misdirected_write_is_detected() {
    let mut frame = zeroed();
    finalize(&mut frame, PageType::Data, PageId::new(5));
    let err = verify(&frame[..], PageId::new(6)).unwrap_err();
    assert!(matches!(
        err,
        PagerError::Corruption(CorruptionKind::PageIdMismatch {
            expected: 6,
            found: 5
        })
    ));
}

#[test]
fn wrong_length_is_rejected_not_panicked() {
    let short = vec![0u8; 100];
    let err = verify(&short, PageId::new(2)).unwrap_err();
    assert!(matches!(
        err,
        PagerError::Corruption(CorruptionKind::TruncatedPage { page: 2 })
    ));
}

#[test]
fn unknown_page_type_is_rejected() {
    let mut frame = zeroed();
    finalize(&mut frame, PageType::Data, PageId::new(2));
    frame[TYPE_OFF] = 99;
    // Re-checksum so the type byte is what fails, not the CRC.
    let crc = crc32c(&frame[TYPE_OFF..]);
    write_u32(&mut frame, CRC_OFF, crc);
    let verified = verify(&frame[..], PageId::new(2)).unwrap();
    assert!(matches!(
        page_type(verified).unwrap_err(),
        PagerError::Corruption(CorruptionKind::UnknownPageType { byte: 99 })
    ));
}

#[test]
fn a_page_carries_the_checksum_of_all_that_follows_it() {
    let mut frame = zeroed();
    set_payload(&mut frame, b"x").unwrap();
    finalize(&mut frame, PageType::Freelist, PageId::new(0x0102_0304));
    assert_eq!(read_u32(&frame, CRC_OFF), crc32c(&frame[4..]));
    assert_eq!(frame[4], 2);
    assert_eq!(read_u64(&frame, 8), 0x0102_0304);
    assert_eq!(page_type(&frame).unwrap(), PageType::Freelist);
}

#[test]
fn numbers_are_little_endian() {
    let mut frame = zeroed();
    write_u64(&mut frame, 16, 0x0807_0605_0403_0201);
    assert_eq!(&frame[16..24], &[1, 2, 3, 4, 5, 6, 7, 8]);
}

#[test]
fn an_oversized_payload_is_refused() {
    let mut frame = zeroed();
    assert!(set_payload(&mut frame, &vec![1u8; PAGE_PAYLOAD_SIZE]).is_ok());
    assert!(matches!(
        set_payload(&mut frame, &vec![1u8; PAGE_PAYLOAD_SIZE + 1]),
        Err(PagerError::PayloadTooLarge { .. })
    ));
}

#[test]
fn the_first_meta_has_only_its_two_slots() {
    let meta = Meta::initial();
    assert_eq!(meta.page_count, 2);
    assert_eq!(meta.txn_id, 0);
    assert_eq!(meta.freelist_head, None);
    assert_eq!(meta.catalog_root, None);
    let mut frame = zeroed();
    meta.encode(&mut frame);
    assert_eq!(&frame[MAGIC_OFF..MAGIC_OFF + 8], b"OTF-EDB\x01");
}

#[test]
fn a_foreign_page_size_is_rejected() {
    let mut meta = sample();
    meta.page_size = 8192;
    let mut frame = zeroed();
    meta.encode(&mut frame);
    assert!(matches!(
        Meta::decode(&frame, PageId::new(0)),
        Err(PagerError::Corruption(CorruptionKind::BadPageSize { found: 8192 }))
    ));
}

#[test]
fn entries_leave_in_the_order_of_their_last_use() {
    let mut cache = PageCache::new(3 * PAGE_SIZE);
    for id in [2, 3, 4] {
        cache.insert(id, frame(id), false);
    }
    for id in [3, 2, 4, 3] {
        assert!(cache.get(id).is_some());
    }
    // Last used: 2, then 4, then 3.
    for (new, gone) in [(5, 2), (6, 4), (7, 3), (8, 5)] {
        cache.insert(new, frame(new), false);
        assert!(cache.contains(new));
        assert!(!cache.contains(gone));
        assert_eq!(cache.len(), 3);
    }
}
