//! Free-page list: a linked chain of trunk pages holding free page ids.
//!
//! A trunk page's payload is `next: u64` (the next trunk, 0 = end), `count: u32`
//! (ids stored here), then `count` little-endian `u64` ids.
//!
//! This is only the durable serialization of the free set: the authoritative
//! set lives in memory in the pager, and the chain is rebuilt into fresh,
//! crash-safe pages at each commit rather than mutated in place.

use vstd::prelude::*;
use crate::bytes::{le_bytes, splice};
use super::page::{read_u32, read_u64, u32_at, u64_at, write_u32, write_u64, Frame, PAGE_SIZE};

verus! {

pub const NEXT_OFF: usize = 16;

pub const COUNT_OFF: usize = 24;

pub const IDS_OFF: usize = 28;

/// Maximum number of free ids a single trunk page can hold.
pub const CAPACITY: u32 = 508;

/// As many ids as fit are stored, and no more would fit.
pub proof fn capacity_fits_within_the_page()
    ensures
        IDS_OFF + CAPACITY * 8 <= PAGE_SIZE,
        IDS_OFF + (CAPACITY + 1) * 8 > PAGE_SIZE,
{
}

/// The trunk after this one.
pub open spec fn next_of(s: Seq<u8>) -> nat {
    u64_at(s, 16)
}

/// How many ids a trunk stores.
pub open spec fn count_of(s: Seq<u8>) -> nat {
    u32_at(s, 24)
}

/// The `i`-th id of a trunk.
pub open spec fn id_of(s: Seq<u8>, i: int) -> nat {
    u64_at(s, 28 + i * 8)
}

pub fn next(frame: &Frame) -> (value: u64)
    ensures
        value == next_of(frame@),
{
    read_u64(frame, NEXT_OFF)
}

pub fn set_next(frame: &mut Frame, value: u64)
    ensures
        final(frame)@ == splice(old(frame)@, 16, le_bytes(value as nat, 8)),
{
    write_u64(frame, NEXT_OFF, value);
}

pub fn count(frame: &Frame) -> (value: u32)
    ensures
        value == count_of(frame@),
{
    read_u32(frame, COUNT_OFF)
}

pub fn set_count(frame: &mut Frame, value: u32)
    ensures
        final(frame)@ == splice(old(frame)@, 24, le_bytes(value as nat, 4)),
{
    write_u32(frame, COUNT_OFF, value);
}

pub fn id_at(frame: &Frame, index: u32) -> (value: u64)
    requires
        index < CAPACITY,
    ensures
        value == id_of(frame@, index as int),
{
    read_u64(frame, IDS_OFF + index as usize * 8)
}

pub fn set_id_at(frame: &mut Frame, index: u32, value: u64)
    requires
        index < CAPACITY,
    ensures
        final(frame)@ == splice(old(frame)@, 28 + index * 8, le_bytes(value as nat, 8)),
{
    write_u64(frame, IDS_OFF + index as usize * 8, value);
}

} // verus!
