//! Injectable block storage.
//!
//! Every byte the engine persists flows through [`IoBackend`], a small
//! offset-addressed read/write/sync abstraction.

use vstd::prelude::*;
use crate::bytes::{copy_into, to_vec};
use super::error::{CategorizedError, ErrorCategory};

verus! {

/// Result alias for backend operations.
pub type IoResult<T> = Result<T, IoError>;

/// A failure from an [`IoBackend`].
#[derive(Debug)]
#[non_exhaustive]
pub enum IoError {
    /// An error reported by the underlying backing store, in its own words.
    Backend(String),
    /// A deliberately injected fault.
    Injected {
        /// Which operation was tripped.
        point: FaultPoint,
        /// The 1-based occurrence count at which it tripped.
        occurrence: u64,
    },
    /// An access that would read or address past the end of the store.
    OutOfBounds {
        /// Starting byte offset of the access.
        offset: u64,
        /// Number of bytes requested.
        requested: u64,
        /// Current size of the backing store.
        size: u64,
    },
}

impl CategorizedError for IoError {
    open spec fn category_of(&self) -> ErrorCategory {
        ErrorCategory::Io
    }

    fn category(&self) -> (c: ErrorCategory) {
        ErrorCategory::Io
    }
}

/// `s` cut, or extended by zeros, to `len` bytes.
pub open spec fn resized(s: Seq<u8>, len: int) -> Seq<u8> {
    Seq::new(
        len as nat,
        |i: int|
            if i < s.len() {
                s[i]
            } else {
                0u8
            },
    )
}

/// `s` after `data` was written at `at`; a gap before `at` reads as zeros.
pub open spec fn written(s: Seq<u8>, at: int, data: Seq<u8>) -> Seq<u8> {
    let len = if s.len() >= at + data.len() {
        s.len() as int
    } else {
        at + data.len()
    };
    Seq::new(
        len as nat,
        |i: int|
            if at <= i < at + data.len() {
                data[i - at]
            } else if i < s.len() {
                s[i]
            } else {
                0u8
            },
    )
}

/// What a write of `data` at `at` that failed may leave of `s`: nothing is
/// lost, and each byte is the old one (or a zero of the gap) or the new one.
pub open spec fn torn(s: Seq<u8>, at: int, data: Seq<u8>, t: Seq<u8>) -> bool {
    &&& s.len() <= t.len() <= written(s, at, data).len()
    &&& forall|i: int| #![trigger t[i]]
        0 <= i < t.len() ==> t[i] == resized(s, t.len() as int)[i] || t[i] == written(
            s,
            at,
            data,
        )[i]
}

/// What may be durable of a store, `d` having been durable, while its contents went from
/// `before` to `after`: each byte is one that was durable, or one of the contents, or a
/// zero of new room, and no byte is lost that all of them have.
pub open spec fn settling(d: Seq<u8>, before: Seq<u8>, after: Seq<u8>, e: Seq<u8>) -> bool {
    &&& e.len() >= d.len() || e.len() >= before.len() || e.len() >= after.len()
    &&& e.len() <= d.len() || e.len() <= before.len() || e.len() <= after.len()
    &&& forall|i: int| #![trigger e[i]]
        0 <= i < e.len() ==> {
            ||| i < d.len() && e[i] == d[i]
            ||| i < before.len() && e[i] == before[i]
            ||| i < after.len() && e[i] == after[i]
            ||| i >= d.len() && e[i] == 0
        }
}

/// What a store is asked to do, of what may change it.
pub enum StoreOp {
    /// Read so many bytes from an offset on.
    Read {
        /// The offset.
        at: u64,
        /// How many bytes.
        len: nat,
    },
    /// Write bytes at an offset.
    Write {
        /// The offset.
        at: u64,
        /// The bytes.
        data: Seq<u8>,
    },
    /// Make what was written durable.
    Sync,
    /// Resize to so many bytes.
    Truncate(u64),
}

/// The error of an operation, if it failed.
pub open spec fn failure<T>(r: IoResult<T>) -> Option<IoError> {
    match r {
        Ok(_) => None,
        Err(e) => Some(e),
    }
}

/// Whether `b` is the store `a` after these operations, one after the other and all of them
/// successful.
pub open spec fn reaches<B: IoBackend>(a: B, ops: Seq<StoreOp>, b: B) -> bool
    decreases ops.len(),
{
    if ops.len() == 0 {
        a == b
    } else {
        exists|m: B|
            reaches(a, ops.drop_last(), m) && #[trigger] m.does(ops.last(), &b, None)
    }
}

/// One more operation.
pub proof fn lemma_reaches_push<B: IoBackend>(a: B, ops: Seq<StoreOp>, m: B, op: StoreOp, b: B)
    requires
        reaches(a, ops, m),
        m.does(op, &b, None),
    ensures
        reaches(a, ops.push(op), b),
{
    let all = ops.push(op);
    assert(all.drop_last() =~= ops);
    assert(reaches(a, all.drop_last(), m) && m.does(all.last(), &b, None));
}

/// An offset-addressed block store. Reads and writes are positional and do not
/// maintain a cursor.
pub trait IoBackend {
    /// The bytes of the store. A store outside the verified code cannot say here which
    /// bytes it holds; what is proved of one holds as far as it does what these contracts
    /// say of the bytes that it stands for, and of what it would hold after a crash.
    open spec fn contents(&self) -> Seq<u8> {
        Seq::empty()
    }

    /// The bytes that the store would hold after a crash at this moment: those of the
    /// last sync, with whatever of later changes has already reached the medium.
    open spec fn durable(&self) -> Seq<u8> {
        Seq::empty()
    }

    /// Whether the store is known to fail no operation that its size and the
    /// address space allow.
    open spec fn fault_free(&self) -> bool {
        false
    }

    /// Whether this store, asked to do `op`, may become `after` and fail so, or not at
    /// all. A store that says nothing of itself may do anything.
    open spec fn does(&self, op: StoreOp, after: &Self, failed: Option<IoError>) -> bool {
        true
    }

    /// Fill `buf` with bytes starting at `offset`. Errors if the range is not
    /// fully backed.
    fn read_at(&mut self, offset: u64, buf: &mut [u8]) -> (r: IoResult<()>)
        ensures
            old(self).does(
                StoreOp::Read { at: offset, len: old(buf)@.len() },
                &*final(self),
                failure(r),
            ),
            final(self).contents() == old(self).contents(),
            final(self).durable() == old(self).durable(),
            final(buf)@.len() == old(buf)@.len(),
            old(self).fault_free() ==> final(self).fault_free(),
            r is Ok ==> offset + old(buf)@.len() <= old(self).contents().len() && final(buf)@
                == old(self).contents().subrange(offset as int, offset + old(buf)@.len()),
            old(self).fault_free() && offset + old(buf)@.len() <= old(self).contents().len()
                ==> r is Ok,
    ;

    /// Write `data` starting at `offset`, growing the store if needed.
    fn write_at(&mut self, offset: u64, data: &[u8]) -> (r: IoResult<()>)
        ensures
            old(self).does(
                StoreOp::Write { at: offset, data: data@ },
                &*final(self),
                failure(r),
            ),
            old(self).fault_free() ==> final(self).fault_free(),
            r is Ok ==> final(self).contents() == written(
                old(self).contents(),
                offset as int,
                data@,
            ),
            r is Err ==> torn(old(self).contents(), offset as int, data@, final(self).contents()),
            settling(
                old(self).durable(),
                old(self).contents(),
                final(self).contents(),
                final(self).durable(),
            ),
            old(self).fault_free() && offset + data@.len() <= usize::MAX ==> r is Ok,
    ;

    /// Flush all prior writes durably to the backing store.
    fn sync(&mut self) -> (r: IoResult<()>)
        ensures
            old(self).does(StoreOp::Sync, &*final(self), failure(r)),
            final(self).contents() == old(self).contents(),
            r is Ok ==> final(self).durable() == final(self).contents(),
            settling(
                old(self).durable(),
                old(self).contents(),
                final(self).contents(),
                final(self).durable(),
            ),
            old(self).fault_free() ==> final(self).fault_free() && r is Ok,
    ;

    /// The current size of the store in bytes.
    fn len(&self) -> (r: IoResult<u64>)
        ensures
            r matches Ok(n) ==> n == self.contents().len(),
            self.fault_free() ==> r is Ok,
    ;

    /// Whether the store is empty.
    fn is_empty(&self) -> (r: IoResult<bool>)
        ensures
            r matches Ok(b) ==> b == (self.contents().len() == 0),
            self.fault_free() ==> r is Ok,
    {
        match self.len() {
            Ok(n) => Ok(n == 0),
            Err(e) => Err(e),
        }
    }

    /// Resize the store to exactly `len` bytes (truncating or zero-extending).
    fn truncate(&mut self, len: u64) -> (r: IoResult<()>)
        ensures
            old(self).does(StoreOp::Truncate(len), &*final(self), failure(r)),
            old(self).fault_free() ==> final(self).fault_free(),
            r is Ok ==> final(self).contents() == resized(old(self).contents(), len as int),
            r is Err ==> final(self).contents() == old(self).contents(),
            settling(
                old(self).durable(),
                old(self).contents(),
                final(self).contents(),
                final(self).durable(),
            ),
            old(self).fault_free() && len <= usize::MAX ==> r is Ok,
    ;
}

/// An in-memory [`IoBackend`] backed by a growable byte buffer.
#[derive(Debug)]
pub struct MemoryBackend {
    data: Vec<u8>,
}

impl Default for MemoryBackend {
    fn default() -> (store: Self)
        ensures
            store@ == Seq::<u8>::empty(),
    {
        MemoryBackend { data: Vec::new() }
    }
}

impl View for MemoryBackend {
    type V = Seq<u8>;

    closed spec fn view(&self) -> Seq<u8> {
        self.data@
    }
}

/// Grows or cuts `data` to `len` bytes, new ones zero.
fn resize_zeroed(data: &mut Vec<u8>, len: usize)
    ensures
        final(data)@ == resized(old(data)@, len as int),
{
    let ghost before = data@;
    if len <= data.len() {
        data.truncate(len);
    } else {
        data.resize(len, 0u8);
    }
    assert(data@ =~= resized(before, len as int));
}

impl MemoryBackend {
    /// Create an empty in-memory store.
    pub fn new() -> (store: Self)
        ensures
            store@ == Seq::<u8>::empty(),
    {
        MemoryBackend { data: Vec::new() }
    }

    /// Create an in-memory store pre-populated with `bytes`.
    pub fn from_bytes(bytes: Vec<u8>) -> (store: Self)
        ensures
            store@ == bytes@,
    {
        MemoryBackend { data: bytes }
    }

    /// Take a copy of the current contents.
    pub fn snapshot(&self) -> (bytes: Vec<u8>)
        ensures
            bytes@ == self@,
    {
        to_vec(self.data.as_slice())
    }
}

impl IoBackend for MemoryBackend {
    open spec fn contents(&self) -> Seq<u8> {
        self@
    }

    /// Memory has no medium behind it: what it holds is what it keeps.
    open spec fn durable(&self) -> Seq<u8> {
        self@
    }

    open spec fn fault_free(&self) -> bool {
        true
    }

    /// Memory does what it is asked, or refuses what it cannot address.
    open spec fn does(&self, op: StoreOp, after: &Self, failed: Option<IoError>) -> bool {
        match op {
            StoreOp::Read { at, len } => after@ == self@ && failed == (if at + len > self@.len() {
                Some(
                    IoError::OutOfBounds {
                        offset: at,
                        requested: len as u64,
                        size: self@.len() as u64,
                    },
                )
            } else {
                None
            }),
            StoreOp::Write { at, data } => if at + data.len() > usize::MAX {
                after@ == self@ && failed == Some(
                    IoError::OutOfBounds {
                        offset: at,
                        requested: data.len() as u64,
                        size: self@.len() as u64,
                    },
                )
            } else {
                after@ == written(self@, at as int, data) && failed is None
            },
            StoreOp::Sync => after@ == self@ && failed is None,
            StoreOp::Truncate(len) => if len > usize::MAX {
                after@ == self@ && failed == Some(
                    IoError::OutOfBounds { offset: 0, requested: len, size: 0 },
                )
            } else {
                after@ == resized(self@, len as int) && failed is None
            },
        }
    }

    fn read_at(&mut self, offset: u64, buf: &mut [u8]) -> (r: IoResult<()>)
        ensures
            r is Err ==> final(buf)@ == old(buf)@ && r == Err::<(), IoError>(
                IoError::OutOfBounds {
                    offset,
                    requested: old(buf)@.len() as u64,
                    size: old(self)@.len() as u64,
                },
            ),
    {
        let requested: u64 = buf.len() as u64;
        let size: u64 = self.data.len() as u64;
        match offset.checked_add(requested) {
            None => Err(IoError::OutOfBounds { offset, requested, size }),
            Some(end) => {
                if end > size {
                    return Err(IoError::OutOfBounds { offset, requested, size });
                }
                let start: usize = offset as usize;
                let n: usize = buf.len();
                copy_into(buf, 0, vstd::slice::slice_subrange(self.data.as_slice(), start, start + n));
                assert(buf@ =~= self.data@.subrange(start as int, start + n));
                Ok(())
            },
        }
    }

    fn write_at(&mut self, offset: u64, data: &[u8]) -> (r: IoResult<()>)
        ensures
            r is Err ==> *final(self) == *old(self) && r == Err::<(), IoError>(
                IoError::OutOfBounds {
                    offset,
                    requested: data@.len() as u64,
                    size: old(self)@.len() as u64,
                },
            ),
    {
        let requested: u64 = data.len() as u64;
        let size: u64 = self.data.len() as u64;
        let end = match offset.checked_add(requested) {
            None => {
                return Err(IoError::OutOfBounds { offset, requested, size });
            },
            Some(end) => end,
        };
        if end > usize::MAX as u64 {
            return Err(IoError::OutOfBounds { offset, requested, size });
        }
        let ghost before = self.data@;
        let start: usize = offset as usize;
        if self.data.len() < end as usize {
            resize_zeroed(&mut self.data, end as usize);
        }
        let dst = self.data.as_mut_slice();
        copy_into(dst, start, data);
        assert(self.data@ =~= written(before, offset as int, data@));
        Ok(())
    }

    fn sync(&mut self) -> (r: IoResult<()>)
        ensures
            *final(self) == *old(self),
    {
        Ok(())
    }

    fn len(&self) -> (r: IoResult<u64>) {
        Ok(self.data.len() as u64)
    }

    fn truncate(&mut self, len: u64) -> (r: IoResult<()>)
        ensures
            r is Err ==> r == Err::<(), IoError>(
                IoError::OutOfBounds { offset: 0, requested: len, size: 0 },
            ),
    {
        if len > usize::MAX as u64 {
            return Err(IoError::OutOfBounds { offset: 0, requested: len, size: 0 });
        }
        resize_zeroed(&mut self.data, len as usize);
        Ok(())
    }
}

/// The operation an injected fault targets.
#[derive(Debug, Clone, Copy, PartialEq, Eq, Structural)]
pub enum FaultPoint {
    /// A [`IoBackend::read_at`] call.
    Read,
    /// A [`IoBackend::write_at`] call.
    Write,
    /// A [`IoBackend::sync`] call.
    Sync,
}

/// The name of a fault point.
pub open spec fn point_name(p: FaultPoint) -> Seq<char> {
    match p {
        FaultPoint::Read => "read"@,
        FaultPoint::Write => "write"@,
        FaultPoint::Sync => "sync"@,
    }
}

impl FaultPoint {
    /// The operation's name.
    pub fn as_str(self) -> (s: &'static str)
        ensures
            s@ == point_name(self),
    {
        match self {
            FaultPoint::Read => "read",
            FaultPoint::Write => "write",
            FaultPoint::Sync => "sync",
        }
    }
}

/// Which kind an operation is counted as; resizing is not counted.
pub open spec fn point_of(op: StoreOp) -> Option<FaultPoint> {
    match op {
        StoreOp::Read { .. } => Some(FaultPoint::Read),
        StoreOp::Write { .. } => Some(FaultPoint::Write),
        StoreOp::Sync => Some(FaultPoint::Sync),
        StoreOp::Truncate(_) => None,
    }
}

/// Wraps an [`IoBackend`] and fails a chosen operation occurrence.
///
/// Arm a single trip point with [`arm`](Self::arm); the Nth matching operation
/// (1-based) then returns [`IoError::Injected`]. Operations of each kind are
/// counted independently.
#[derive(Debug)]
pub struct FaultInjectingBackend<B: IoBackend> {
    inner: B,
    armed: Option<(FaultPoint, u64)>,
    reads: u64,
    writes: u64,
    syncs: u64,
}

impl<B: IoBackend> FaultInjectingBackend<B> {
    /// The wrapped store.
    pub closed spec fn wrapped(&self) -> B {
        self.inner
    }

    /// The armed fault, if any.
    pub closed spec fn armed_at(&self) -> Option<(FaultPoint, u64)> {
        self.armed
    }

    /// How many operations of `point` have been counted.
    pub closed spec fn count(&self, point: FaultPoint) -> u64 {
        match point {
            FaultPoint::Read => self.reads,
            FaultPoint::Write => self.writes,
            FaultPoint::Sync => self.syncs,
        }
    }

    /// Whether the next operation of `point` is the armed one.
    pub open spec fn trips(&self, point: FaultPoint) -> bool {
        self.armed_at() == Some((point, self.count(point).wrapping_add(1)))
    }

    /// The count of `p` once an operation of `point` has been counted.
    pub open spec fn count_next(&self, point: FaultPoint, p: FaultPoint) -> u64 {
        if p == point {
            self.count(p).wrapping_add(1)
        } else {
            self.count(p)
        }
    }

    /// Whether `after` is this store with one more operation of `point`
    /// counted, whatever the wrapped store did.
    pub open spec fn counted(&self, point: FaultPoint, after: Self) -> bool {
        &&& after.armed_at() == self.armed_at()
        &&& after.count(FaultPoint::Read) == self.count_next(point, FaultPoint::Read)
        &&& after.count(FaultPoint::Write) == self.count_next(point, FaultPoint::Write)
        &&& after.count(FaultPoint::Sync) == self.count_next(point, FaultPoint::Sync)
    }

    /// The error of a tripped operation.
    pub open spec fn tripped(&self, point: FaultPoint) -> IoError {
        IoError::Injected { point, occurrence: self.count(point).wrapping_add(1) }
    }

    /// Wrap `inner` with no fault armed.
    pub fn new(inner: B) -> (store: Self)
        ensures
            store.wrapped() == inner,
            store.armed_at() is None,
            forall|p: FaultPoint| #[trigger] store.count(p) == 0,
    {
        FaultInjectingBackend { inner, armed: None, reads: 0, writes: 0, syncs: 0 }
    }

    /// Arm a fault on the `occurrence`-th (1-based) operation of `point`.
    /// Replaces any previously armed trip point.
    pub fn arm(&mut self, point: FaultPoint, occurrence: u64)
        ensures
            final(self).wrapped() == old(self).wrapped(),
            final(self).armed_at() == Some((point, occurrence)),
            forall|p: FaultPoint| #[trigger] final(self).count(p) == old(self).count(p),
    {
        self.armed = Some((point, occurrence));
    }

    /// Clear any armed fault.
    pub fn disarm(&mut self)
        ensures
            final(self).wrapped() == old(self).wrapped(),
            final(self).armed_at() is None,
            forall|p: FaultPoint| #[trigger] final(self).count(p) == old(self).count(p),
    {
        self.armed = None;
    }

    /// Reset all per-operation occurrence counters to zero, so a subsequent
    /// [`arm`](Self::arm) targets operations relative to this point.
    pub fn reset_counters(&mut self)
        ensures
            final(self).wrapped() == old(self).wrapped(),
            final(self).armed_at() == old(self).armed_at(),
            forall|p: FaultPoint| #[trigger] final(self).count(p) == 0,
    {
        self.reads = 0;
        self.writes = 0;
        self.syncs = 0;
    }

    /// Consume the wrapper and return the inner backend.
    pub fn into_inner(self) -> (inner: B)
        ensures
            inner == self.wrapped(),
    {
        self.inner
    }

    /// Count one operation of `point`; an error if it is the armed one.
    fn check(&mut self, point: FaultPoint) -> (r: IoResult<()>)
        ensures
            old(self).counted(point, *final(self)),
            final(self).wrapped() == old(self).wrapped(),
            r == (if old(self).trips(point) {
                Err::<(), IoError>(old(self).tripped(point))
            } else {
                Ok(())
            }),
    {
        let occurrence: u64 = match point {
            FaultPoint::Read => {
                self.reads = self.reads.wrapping_add(1);
                self.reads
            },
            FaultPoint::Write => {
                self.writes = self.writes.wrapping_add(1);
                self.writes
            },
            FaultPoint::Sync => {
                self.syncs = self.syncs.wrapping_add(1);
                self.syncs
            },
        };
        if let Some((armed_point, armed_occ)) = self.armed {
            if armed_point == point && armed_occ == occurrence {
                return Err(IoError::Injected { point, occurrence });
            }
        }
        Ok(())
    }
}

impl<B: IoBackend> IoBackend for FaultInjectingBackend<B> {
    open spec fn contents(&self) -> Seq<u8> {
        self.wrapped().contents()
    }

    open spec fn durable(&self) -> Seq<u8> {
        self.wrapped().durable()
    }

    open spec fn fault_free(&self) -> bool {
        self.armed_at() is None && self.wrapped().fault_free()
    }

    /// An operation that is armed fails and goes no further; any other is the wrapped
    /// store's own, with whatever comes of it.
    open spec fn does(&self, op: StoreOp, after: &Self, failed: Option<IoError>) -> bool {
        match point_of(op) {
            Some(point) => {
                &&& self.counted(point, *after)
                &&& if self.trips(point) {
                    after.wrapped() == self.wrapped() && failed == Some(self.tripped(point))
                } else {
                    self.wrapped().does(op, &after.wrapped(), failed)
                }
            },
            None => {
                &&& after.armed_at() == self.armed_at()
                &&& forall|p: FaultPoint| #[trigger] after.count(p) == self.count(p)
                &&& self.wrapped().does(op, &after.wrapped(), failed)
            },
        }
    }

    fn read_at(&mut self, offset: u64, buf: &mut [u8]) -> (r: IoResult<()>)
        ensures
            old(self).counted(FaultPoint::Read, *final(self)),
            old(self).trips(FaultPoint::Read) ==> r == Err::<(), IoError>(
                old(self).tripped(FaultPoint::Read),
            ) && final(self).wrapped() == old(self).wrapped() && final(buf)@ == old(buf)@,
            !old(self).trips(FaultPoint::Read) && old(self).wrapped().fault_free() && offset + old(
                buf,
            )@.len() <= old(self).contents().len() ==> r is Ok,
    {
        match self.check(FaultPoint::Read) {
            Err(e) => Err(e),
            Ok(_) => self.inner.read_at(offset, buf),
        }
    }

    fn write_at(&mut self, offset: u64, data: &[u8]) -> (r: IoResult<()>)
        ensures
            old(self).counted(FaultPoint::Write, *final(self)),
            old(self).trips(FaultPoint::Write) ==> r == Err::<(), IoError>(
                old(self).tripped(FaultPoint::Write),
            ) && final(self).wrapped() == old(self).wrapped(),
            !old(self).trips(FaultPoint::Write) && old(self).wrapped().fault_free() && offset
                + data@.len() <= usize::MAX ==> r is Ok,
    {
        match self.check(FaultPoint::Write) {
            Err(e) => {
                assert(torn(
                    old(self).contents(),
                    offset as int,
                    data@,
                    self.inner.contents(),
                ));
                Err(e)
            },
            Ok(_) => self.inner.write_at(offset, data),
        }
    }

    fn sync(&mut self) -> (r: IoResult<()>)
        ensures
            old(self).counted(FaultPoint::Sync, *final(self)),
            old(self).trips(FaultPoint::Sync) ==> r == Err::<(), IoError>(
                old(self).tripped(FaultPoint::Sync),
            ) && final(self).wrapped() == old(self).wrapped(),
            !old(self).trips(FaultPoint::Sync) && old(self).wrapped().fault_free() ==> r is Ok,
    {
        match self.check(FaultPoint::Sync) {
            Err(e) => Err(e),
            Ok(_) => self.inner.sync(),
        }
    }

    fn len(&self) -> (r: IoResult<u64>) {
        self.inner.len()
    }

    fn truncate(&mut self, len: u64) -> (r: IoResult<()>)
        ensures
            final(self).armed_at() == old(self).armed_at(),
            forall|p: FaultPoint| #[trigger] final(self).count(p) == old(self).count(p),
    {
        self.inner.truncate(len)
    }
}

/// What was written at `at` is what a read there gives back.
pub proof fn read_gives_back_the_write(s: Seq<u8>, at: int, data: Seq<u8>)
    requires
        0 <= at,
    ensures
        written(s, at, data).subrange(at, at + data.len()) == data,
{
    assert(written(s, at, data).subrange(at, at + data.len()) =~= data);
}

/// A write leaves every byte outside its range as it was.
pub proof fn write_leaves_the_rest(s: Seq<u8>, at: int, data: Seq<u8>, i: int)
    requires
        0 <= i < s.len(),
        !(at <= i < at + data.len()),
    ensures
        written(s, at, data)[i] == s[i],
{
}

/// A write makes the store no longer than it has to be, and what lies between its old end
/// and the write reads as zeros. Cutting a store keeps its front, and growing it adds zeros.
pub proof fn gaps_read_as_zeros(s: Seq<u8>, at: int, data: Seq<u8>, len: nat)
    requires
        0 <= at,
    ensures
        written(s, at, data).len() >= s.len(),
        written(s, at, data).len() >= at + data.len(),
        written(s, at, data).len() == s.len() || written(s, at, data).len() == at + data.len(),
        forall|i: int| s.len() <= i < at ==> #[trigger] written(s, at, data)[i] == 0,
        resized(s, len as int).len() == len,
        forall|i: int| 0 <= i < len && i < s.len() ==> #[trigger] resized(s, len as int)[i] == s[i],
        forall|i: int| s.len() <= i < len ==> #[trigger] resized(s, len as int)[i] == 0,
{
}

/// How many of the first `n` operations are of `point`.
pub open spec fn occurrences(ops: Seq<StoreOp>, point: FaultPoint, n: nat) -> nat
    decreases n,
{
    if n == 0 || n > ops.len() {
        0
    } else {
        occurrences(ops, point, (n - 1) as nat) + (if point_of(ops[n - 1]) == Some(point) {
            1nat
        } else {
            0nat
        })
    }
}

/// Whether a store went through these operations, with these outcomes: `stores[i]` is the
/// store before the `i`-th of them.
pub open spec fn ran<B: IoBackend>(
    stores: Seq<FaultInjectingBackend<B>>,
    ops: Seq<StoreOp>,
    failures: Seq<Option<IoError>>,
) -> bool {
    &&& stores.len() == ops.len() + 1
    &&& failures.len() == ops.len()
    &&& forall|i: int|
        0 <= i < ops.len() ==> #[trigger] stores[i].does(ops[i], &stores[i + 1], failures[i])
}

proof fn lemma_counts_run<B: IoBackend>(
    stores: Seq<FaultInjectingBackend<B>>,
    ops: Seq<StoreOp>,
    failures: Seq<Option<IoError>>,
    p: FaultPoint,
    n: nat,
)
    requires
        ran(stores, ops, failures),
        stores[0].count(p) == 0,
        ops.len() <= u64::MAX,
        n <= ops.len(),
    ensures
        stores[n as int].count(p) == occurrences(ops, p, n),
        occurrences(ops, p, n) <= n,
        stores[n as int].armed_at() == stores[0].armed_at(),
    decreases n,
{
    if n > 0 {
        lemma_counts_run(stores, ops, failures, p, (n - 1) as nat);
        assert(stores[n - 1].does(ops[n - 1], &stores[n - 1 + 1], failures[n - 1]));
        match p {
            FaultPoint::Read => {},
            FaultPoint::Write => {},
            FaultPoint::Sync => {},
        }
    }
}

/// Over a whole run of operations, with the counters reset and a fault armed on the
/// `n`-th of `point`, exactly that operation fails by injection, with that error, and does
/// not reach the wrapped store; every other one is the wrapped store's own, whatever comes
/// of it, be the store one that fails or not.
pub proof fn armed_fault_strikes_once<B: IoBackend>(
    stores: Seq<FaultInjectingBackend<B>>,
    ops: Seq<StoreOp>,
    failures: Seq<Option<IoError>>,
    point: FaultPoint,
    n: u64,
    i: int,
)
    requires
        ran(stores, ops, failures),
        ops.len() <= u64::MAX,
        forall|p: FaultPoint| #[trigger] stores[0].count(p) == 0,
        stores[0].armed_at() == Some((point, n)),
        0 <= i < ops.len(),
    ensures
        if point_of(ops[i]) == Some(point) && occurrences(ops, point, (i + 1) as nat) == n {
            failures[i] == Some(IoError::Injected { point, occurrence: n })
                && stores[i + 1].wrapped() == stores[i].wrapped()
        } else {
            stores[i].wrapped().does(ops[i], &stores[i + 1].wrapped(), failures[i])
        },
{
    assert(stores[i].does(ops[i], &stores[i + 1], failures[i]));
    match point_of(ops[i]) {
        Some(p) => {
            lemma_counts_run(stores, ops, failures, p, i as nat);
        },
        None => {
            lemma_counts_run(stores, ops, failures, point, i as nat);
        },
    }
}

} // verus!
