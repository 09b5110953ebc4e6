//! In-memory B+tree nodes and their on-page byte encoding.
//!
//! A node lives in the payload region of one `Data` page. Because the tree is
//! copy-on-write, a modification never edits a page in place: it decodes a node,
//! produces a new in-memory [`Node`], and writes it to a freshly allocated page.
//!
//! Payload layout (little-endian), where `p` is the page payload:
//! ```text
//! leaf:      p[0]=0  p[1]=0  p[2..4]=count   then count x (klen u16, key, vlen u16, val)
//! internal:  p[0]=1  p[1]=0  p[2..4]=count   p[4..12]=children[0]
//!            then count x (klen u16, key, child u64)   (children = count+1 total)
//! ```

use vstd::prelude::*;
use crate::bytes::{
    bytes_eq, get_le16, get_le64, le_bytes, le_nat, lemma_le_bytes_len, lemma_le_bytes_of_le_nat,
    lemma_le_nat_of_le_bytes, lemma_pow256_values, push_all, push_le, to_vec,
};
use crate::order::{
    ascending, find_lower, find_upper, is_before, lemma_ascending_steps, lemma_lower_bound,
    lower_bound, strings, upper_bound, before,
};
use crate::pager::{CorruptionKind, PageId};
use super::error::{BTreeError, Corruption, Result};

verus! {

/// Kind byte of a leaf.
pub const KIND_LEAF: u8 = 0;

/// Kind byte of an internal node.
pub const KIND_INTERNAL: u8 = 1;

/// Header bytes before a leaf's entries: kind, reserved, count.
pub const HDR_LEAF: usize = 4;

/// Header bytes before an internal node's separators: leaf header + leftmost child.
pub const HDR_INTERNAL: usize = 12;

/// Usable payload bytes for a node (the page payload region).
pub const CAP: usize = 4080;

/// A node is underfull (and must be rebalanced unless it is the root) when it
/// uses less than this many bytes.
pub const MIN_FILL: usize = 1020;

/// The largest a single encoded entry/separator cell may be. Capping each cell
/// at half the (header-adjusted) capacity guarantees any two cells share a page,
/// so a split always yields two non-empty halves that each fit.
pub const MAX_CELL: usize = 2034;

/// The sizes are those the layout gives.
pub proof fn node_sizes()
    ensures
        CAP == crate::pager::PAGE_PAYLOAD_SIZE,
        MIN_FILL == CAP / 4,
        MAX_CELL == (CAP - HDR_INTERNAL) / 2,
{
}

/// A decoded B+tree node.
#[derive(Debug, Clone, PartialEq, Eq)]
pub enum Node {
    /// A leaf: parallel, key-sorted `keys`/`vals`.
    Leaf {
        /// Keys, strictly ascending.
        keys: Vec<Vec<u8>>,
        /// Values, positionally paired with `keys`.
        vals: Vec<Vec<u8>>,
    },
    /// An internal node: `children.len() == keys.len() + 1`. `keys[i]` is the
    /// smallest key reachable through `children[i + 1]`.
    Internal {
        /// Separator keys, strictly ascending.
        keys: Vec<Vec<u8>>,
        /// Child page ids; one more than `keys`.
        children: Vec<PageId>,
    },
}

/// What a [`Node`] holds.
#[verifier::ext_equal]
pub enum NodeV {
    /// A leaf's keys and values.
    Leaf { keys: Seq<Seq<u8>>, vals: Seq<Seq<u8>> },
    /// An internal node's separators and children.
    Internal { keys: Seq<Seq<u8>>, children: Seq<PageId> },
}

impl View for Node {
    type V = NodeV;

    open spec fn view(&self) -> NodeV {
        match self {
            Node::Leaf { keys, vals } => NodeV::Leaf { keys: strings(keys@), vals: strings(vals@) },
            Node::Internal { keys, children } => NodeV::Internal {
                keys: strings(keys@),
                children: children@,
            },
        }
    }
}

impl NodeV {
    /// The keys or separators.
    pub open spec fn keys(self) -> Seq<Seq<u8>> {
        match self {
            NodeV::Leaf { keys, .. } => keys,
            NodeV::Internal { keys, .. } => keys,
        }
    }

    /// How many keys or separators there are.
    pub open spec fn count(self) -> nat {
        self.keys().len()
    }

    /// Whether the parts fit together: a value for each key, and one child more
    /// than there are separators.
    pub open spec fn fits_together(self) -> bool {
        match self {
            NodeV::Leaf { keys, vals } => vals.len() == keys.len(),
            NodeV::Internal { keys, children } => children.len() == keys.len() + 1,
        }
    }

    /// The bytes before the cells.
    pub open spec fn header(self) -> nat {
        match self {
            NodeV::Leaf { .. } => HDR_LEAF as nat,
            NodeV::Internal { .. } => HDR_INTERNAL as nat,
        }
    }

    /// The size of cell `i`.
    pub open spec fn cell(self, i: int) -> nat {
        match self {
            NodeV::Leaf { keys, vals } => 4 + keys[i].len() + vals[i].len(),
            NodeV::Internal { keys, .. } => 10 + keys[i].len(),
        }
    }

    /// The size of the first `n` cells.
    pub open spec fn cells(self, n: nat) -> nat
        decreases n,
    {
        if n == 0 {
            0
        } else {
            self.cells((n - 1) as nat) + self.cell(n - 1)
        }
    }

    /// The encoded size.
    pub open spec fn size(self) -> nat {
        self.header() + self.cells(self.count())
    }

    /// What the encoded bytes are.
    pub open spec fn bytes(self) -> Seq<u8> {
        match self {
            NodeV::Leaf { keys, .. } => seq![KIND_LEAF, 0u8] + le_bytes(keys.len(), 2)
                + self.cell_bytes(keys.len()),
            NodeV::Internal { keys, children } => seq![KIND_INTERNAL, 0u8] + le_bytes(
                keys.len(),
                2,
            ) + le_bytes(children[0].0 as nat, 8) + self.cell_bytes(keys.len()),
        }
    }

    /// The bytes of the first `n` cells.
    pub open spec fn cell_bytes(self, n: nat) -> Seq<u8>
        decreases n,
    {
        if n == 0 {
            Seq::empty()
        } else {
            let head = self.cell_bytes((n - 1) as nat);
            match self {
                NodeV::Leaf { keys, vals } => head + le_bytes(keys[n - 1].len(), 2) + keys[n - 1]
                    + le_bytes(vals[n - 1].len(), 2) + vals[n - 1],
                NodeV::Internal { keys, children } => head + le_bytes(keys[n - 1].len(), 2) + keys[n
                    - 1] + le_bytes(children[n as int].0 as nat, 8),
            }
        }
    }

    /// The node's cells after those on the left of a split at `m`: the size of
    /// the right half. The promoted separator of an internal node is in neither
    /// half.
    pub open spec fn right_cells(self, m: int) -> int {
        self.cells(self.count()) - self.cells(m as nat) - (if self is Internal {
            self.cell(m) as int
        } else {
            0
        })
    }

    /// Whether both halves of a split at `m` fit a page.
    pub open spec fn split_fits(self, m: int) -> bool {
        &&& self.header() + self.cells(m as nat) <= CAP
        &&& self.header() + self.right_cells(m) <= CAP
    }

    /// How unequal the halves of a split at `m` are.
    pub open spec fn skew(self, m: int) -> int {
        let d = self.cells(m as nat) - self.right_cells(m);
        if d >= 0 {
            d
        } else {
            -d
        }
    }

    /// The best split among the first `m`: the first of the least unequal ones
    /// that fit; 0 if none fits.
    pub open spec fn best_split(self, m: int) -> int
        decreases m,
    {
        if m <= 0 {
            0
        } else {
            let b = self.best_split(m - 1);
            if self.split_fits(m) && (b == 0 || self.skew(m) < self.skew(b)) {
                m
            } else {
                b
            }
        }
    }

    /// Where a split parts the node.
    pub open spec fn split_point(self) -> int {
        let b = self.best_split(self.count() - 1);
        if b == 0 {
            1
        } else {
            b
        }
    }

    /// The left half of a split at `m`.
    pub open spec fn left_of(self, m: int) -> NodeV {
        match self {
            NodeV::Leaf { keys, vals } => NodeV::Leaf { keys: keys.take(m), vals: vals.take(m) },
            NodeV::Internal { keys, children } => NodeV::Internal {
                keys: keys.take(m),
                children: children.take(m + 1),
            },
        }
    }

    /// The right half of a split at `m`.
    pub open spec fn right_of(self, m: int) -> NodeV {
        match self {
            NodeV::Leaf { keys, vals } => NodeV::Leaf { keys: keys.skip(m), vals: vals.skip(m) },
            NodeV::Internal { keys, children } => NodeV::Internal {
                keys: keys.skip(m + 1),
                children: children.skip(m + 1),
            },
        }
    }
}

/// Two adjacent siblings in one node; an internal separator descends between
/// them. Siblings of different kinds do not occur: the left one is kept.
pub open spec fn merged(left: NodeV, separator: Seq<u8>, right: NodeV) -> NodeV {
    match (left, right) {
        (NodeV::Leaf { keys: lk, vals: lv }, NodeV::Leaf { keys: rk, vals: rv }) => NodeV::Leaf {
            keys: lk + rk,
            vals: lv + rv,
        },
        (
            NodeV::Internal { keys: lk, children: lc },
            NodeV::Internal { keys: rk, children: rc },
        ) => NodeV::Internal { keys: lk.push(separator) + rk, children: lc + rc },
        _ => left,
    }
}

/// The byte string at `pos` behind its 16-bit length, if the bytes reach.
pub open spec fn sized(p: Seq<u8>, pos: int) -> Option<Seq<u8>> {
    if pos + 2 > p.len() {
        None
    } else {
        let n = le_nat(p.subrange(pos, pos + 2));
        if pos + 2 + n > p.len() {
            None
        } else {
            Some(p.subrange(pos + 2, pos + 2 + n))
        }
    }
}

/// Node bytes that end too soon.
pub open spec fn truncated(page: u64) -> Corruption {
    Corruption::Node(CorruptionKind::TruncatedPage { page })
}

/// Read `n` more leaf cells from `pos`; `keys` and `vals` have been read.
pub open spec fn leaf_from(
    p: Seq<u8>,
    page: u64,
    pos: int,
    n: nat,
    keys: Seq<Seq<u8>>,
    vals: Seq<Seq<u8>>,
) -> std::result::Result<NodeV, Corruption>
    decreases n,
{
    if n == 0 {
        if ascending(keys) {
            Ok(NodeV::Leaf { keys, vals })
        } else {
            Err(Corruption::KeysNotSorted { page })
        }
    } else {
        match sized(p, pos) {
            None => Err(truncated(page)),
            Some(k) => match sized(p, pos + 2 + k.len()) {
                None => Err(truncated(page)),
                Some(v) => leaf_from(
                    p,
                    page,
                    pos + 4 + k.len() + v.len(),
                    (n - 1) as nat,
                    keys.push(k),
                    vals.push(v),
                ),
            },
        }
    }
}

/// The child id at `pos`, which must be a data page.
pub open spec fn child_from(p: Seq<u8>, page: u64, pos: int) -> std::result::Result<
    PageId,
    Corruption,
> {
    if pos + 8 > p.len() {
        Err(truncated(page))
    } else {
        let raw = le_nat(p.subrange(pos, pos + 8)) as u64;
        if raw < 2 {
            Err(Corruption::BadChild { page, child: raw })
        } else {
            Ok(PageId(raw))
        }
    }
}

/// Read `n` more internal cells from `pos`; `keys` and `children` have been
/// read.
pub open spec fn internal_from(
    p: Seq<u8>,
    page: u64,
    pos: int,
    n: nat,
    keys: Seq<Seq<u8>>,
    children: Seq<PageId>,
) -> std::result::Result<NodeV, Corruption>
    decreases n,
{
    if n == 0 {
        if ascending(keys) {
            Ok(NodeV::Internal { keys, children })
        } else {
            Err(Corruption::KeysNotSorted { page })
        }
    } else {
        match sized(p, pos) {
            None => Err(truncated(page)),
            Some(k) => match child_from(p, page, pos + 2 + k.len()) {
                Err(e) => Err(e),
                Ok(c) => internal_from(
                    p,
                    page,
                    pos + 10 + k.len(),
                    (n - 1) as nat,
                    keys.push(k),
                    children.push(c),
                ),
            },
        }
    }
}

/// The node that payload bytes hold, or why they hold none.
pub open spec fn decoded(p: Seq<u8>, page: u64) -> std::result::Result<NodeV, Corruption> {
    if p.len() < 4 {
        Err(truncated(page))
    } else {
        let n = le_nat(p.subrange(2, 4));
        if p[0] == KIND_LEAF {
            leaf_from(p, page, 4, n, Seq::empty(), Seq::empty())
        } else if p[0] == KIND_INTERNAL {
            match child_from(p, page, 4) {
                Err(e) => Err(e),
                Ok(c) => internal_from(p, page, 12, n, Seq::empty(), seq![c]),
            }
        } else {
            Err(Corruption::UnknownNodeKind { page, byte: p[0] })
        }
    }
}

/// A decode result by what its node holds.
pub open spec fn decode_view(r: Result<Node>) -> std::result::Result<NodeV, BTreeError> {
    match r {
        Ok(n) => Ok(n@),
        Err(e) => Err(e),
    }
}

/// A corruption as an error.
pub open spec fn as_error(r: std::result::Result<NodeV, Corruption>) -> std::result::Result<
    NodeV,
    BTreeError,
> {
    match r {
        Ok(n) => Ok(n),
        Err(c) => Err(BTreeError::Corruption(c)),
    }
}

/// A bounds-checked reader over a page payload. Every accessor fails with a
/// typed corruption error on a short or hostile buffer.
struct Reader<'a> {
    buf: &'a [u8],
    pos: usize,
    page: u64,
}

impl<'a> Reader<'a> {
    spec fn ok(&self) -> bool {
        self.pos <= self.buf@.len()
    }

    /// Whether `after` is this reader `n` bytes further.
    spec fn moved(&self, n: int, after: Reader<'a>) -> bool {
        &&& after.buf@ == self.buf@
        &&& after.page == self.page
        &&& after.pos == self.pos + n
        &&& after.ok()
    }

    fn new(buf: &'a [u8], page: PageId) -> (r: Self)
        ensures
            r.buf@ == buf@,
            r.pos == 0,
            r.page == page.0,
    {
        Reader { buf, pos: 0, page: page.get() }
    }

    fn take(&mut self, n: usize) -> (r: Result<&'a [u8]>)
        requires
            old(self).ok(),
        ensures
            match r {
                Ok(s) => old(self).pos + n <= old(self).buf@.len() && s@ == old(
                    self,
                ).buf@.subrange(old(self).pos as int, old(self).pos + n) && old(self).moved(
                    n as int,
                    *final(self),
                ),
                Err(e) => old(self).pos + n > old(self).buf@.len() && e == BTreeError::Corruption(
                    truncated(old(self).page),
                ),
            },
    {
        let left: usize = self.buf.len() - self.pos;
        if n > left {
            return Err(
                BTreeError::Corruption(
                    Corruption::Node(CorruptionKind::TruncatedPage { page: self.page }),
                ),
            );
        }
        let s = vstd::slice::slice_subrange(self.buf, self.pos, self.pos + n);
        self.pos = self.pos + n;
        Ok(s)
    }

    fn byte(&mut self) -> (r: Result<u8>)
        requires
            old(self).ok(),
        ensures
            match r {
                Ok(b) => old(self).pos + 1 <= old(self).buf@.len() && b == old(self).buf@[old(
                    self,
                ).pos as int] && old(self).moved(1, *final(self)),
                Err(e) => old(self).pos + 1 > old(self).buf@.len() && e == BTreeError::Corruption(
                    truncated(old(self).page),
                ),
            },
    {
        match self.take(1) {
            Ok(s) => Ok(s[0]),
            Err(e) => Err(e),
        }
    }

    fn short(&mut self) -> (r: Result<u16>)
        requires
            old(self).ok(),
        ensures
            match r {
                Ok(v) => old(self).pos + 2 <= old(self).buf@.len() && v == le_nat(
                    old(self).buf@.subrange(old(self).pos as int, old(self).pos + 2),
                ) && old(self).moved(2, *final(self)),
                Err(e) => old(self).pos + 2 > old(self).buf@.len() && e == BTreeError::Corruption(
                    truncated(old(self).page),
                ),
            },
    {
        match self.take(2) {
            Ok(s) => {
                assert(s@.subrange(0, 2) =~= s@);
                Ok(get_le16(s, 0))
            },
            Err(e) => Err(e),
        }
    }

    fn long(&mut self) -> (r: Result<u64>)
        requires
            old(self).ok(),
        ensures
            match r {
                Ok(v) => old(self).pos + 8 <= old(self).buf@.len() && v == le_nat(
                    old(self).buf@.subrange(old(self).pos as int, old(self).pos + 8),
                ) && old(self).moved(8, *final(self)),
                Err(e) => old(self).pos + 8 > old(self).buf@.len() && e == BTreeError::Corruption(
                    truncated(old(self).page),
                ),
            },
    {
        match self.take(8) {
            Ok(s) => {
                assert(s@.subrange(0, 8) =~= s@);
                Ok(get_le64(s, 0))
            },
            Err(e) => Err(e),
        }
    }

    fn bytes_u16(&mut self) -> (r: Result<&'a [u8]>)
        requires
            old(self).ok(),
        ensures
            match r {
                Ok(s) => sized(old(self).buf@, old(self).pos as int) == Some(s@) && old(self).moved(
                    2 + s@.len() as int,
                    *final(self),
                ),
                Err(e) => sized(old(self).buf@, old(self).pos as int) is None && e
                    == BTreeError::Corruption(truncated(old(self).page)),
            },
    {
        let n = match self.short() {
            Ok(n) => n,
            Err(e) => {
                return Err(e);
            },
        };
        self.take(n as usize)
    }

    /// Read a child page id, which must be in the legal range.
    fn child_id(&mut self) -> (r: Result<PageId>)
        requires
            old(self).ok(),
        ensures
            match child_from(old(self).buf@, old(self).page, old(self).pos as int) {
                Ok(c) => r == Ok::<PageId, BTreeError>(c) && old(self).moved(8, *final(self)),
                Err(c) => r == Err::<PageId, BTreeError>(BTreeError::Corruption(c)),
            },
    {
        match self.long() {
            Err(e) => Err(e),
            Ok(raw) => {
                if raw < 2 {
                    return Err(
                        BTreeError::Corruption(
                            Corruption::BadChild { page: self.page, child: raw },
                        ),
                    );
                }
                Ok(PageId::new(raw))
            },
        }
    }
}

/// Verify keys are strictly ascending (rejects unsorted/duplicate on-disk data).
fn check_ascending(keys: &Vec<Vec<u8>>) -> (r: bool)
    ensures
        r == ascending(strings(keys@)),
{
    let ghost ks = strings(keys@);
    let mut i: usize = 1;
    while i < keys.len()
        invariant
            1 <= i,
            ks == strings(keys@),
            i <= keys@.len() || keys@.len() <= 1,
            forall|j: int| 0 <= j < i - 1 && j < keys@.len() - 1 ==> before(
                #[trigger] ks[j],
                ks[j + 1],
            ),
        decreases keys@.len() - i,
    {
        assert(ks[i - 1] == keys@[i - 1]@ && ks[i as int] == keys@[i as int]@);
        if !is_before(keys[i - 1].as_slice(), keys[i].as_slice()) {
            assert(!before(ks[i - 1], ks[i as int]));
            return false;
        }
        i = i + 1;
    }
    proof {
        lemma_ascending_steps(ks);
    }
    true
}

/// Copies of the byte strings from `from` to `to`.
pub fn copy_strings(v: &Vec<Vec<u8>>, from: usize, to: usize) -> (r: Vec<Vec<u8>>)
    requires
        from <= to <= v@.len(),
    ensures
        strings(r@) == strings(v@).subrange(from as int, to as int),
{
    let mut out: Vec<Vec<u8>> = Vec::new();
    let mut i: usize = from;
    while i < to
        invariant
            from <= i <= to <= v@.len(),
            strings(out@) == strings(v@).subrange(from as int, i as int),
        decreases to - i,
    {
        let ghost before_push = out@;
        out.push(to_vec(v[i].as_slice()));
        i = i + 1;
        assert(strings(out@) =~= strings(before_push).push(v@[i - 1]@));
        assert(strings(v@).subrange(from as int, i as int) =~= strings(v@).subrange(
            from as int,
            i - 1,
        ).push(v@[i - 1]@));
    }
    out
}

/// The page ids from `from` to `to`.
pub fn copy_ids(v: &Vec<PageId>, from: usize, to: usize) -> (r: Vec<PageId>)
    requires
        from <= to <= v@.len(),
    ensures
        r@ == v@.subrange(from as int, to as int),
{
    let mut out: Vec<PageId> = Vec::new();
    let mut i: usize = from;
    while i < to
        invariant
            from <= i <= to <= v@.len(),
            out@ == v@.subrange(from as int, i as int),
        decreases to - i,
    {
        out.push(v[i]);
        i = i + 1;
        assert(out@ =~= v@.subrange(from as int, i as int));
    }
    out
}

proof fn lemma_cells_monotone(n: NodeV, a: nat, b: nat)
    requires
        a <= b,
    ensures
        n.cells(a) <= n.cells(b),
    decreases b,
{
    if a < b {
        lemma_cells_monotone(n, a, (b - 1) as nat);
    }
}

impl Node {
    /// An empty leaf (the shape of a freshly created tree's root).
    pub fn empty_leaf() -> (n: Node)
        ensures
            n@ == (NodeV::Leaf { keys: Seq::empty(), vals: Seq::empty() }),
    {
        let n = Node::Leaf { keys: Vec::new(), vals: Vec::new() };
        assert(n@ =~= NodeV::Leaf { keys: Seq::empty(), vals: Seq::empty() });
        n
    }

    /// Number of keys held (kv pairs for a leaf, separators for an internal).
    pub fn key_count(&self) -> (n: usize)
        ensures
            n == self@.count(),
    {
        match self {
            Node::Leaf { keys, .. } => keys.len(),
            Node::Internal { keys, .. } => keys.len(),
        }
    }

    fn header_len(&self) -> (n: usize)
        ensures
            n == self@.header(),
    {
        match self {
            Node::Leaf { .. } => HDR_LEAF,
            Node::Internal { .. } => HDR_INTERNAL,
        }
    }

    /// The size of entry/separator `i`'s encoded cell.
    fn cell_len(&self, i: usize) -> (n: usize)
        requires
            self@.fits_together(),
            i < self@.count(),
            self@.cell(i as int) <= usize::MAX,
        ensures
            n == self@.cell(i as int),
    {
        match self {
            Node::Leaf { keys, vals } => {
                assert(strings(keys@)[i as int] == keys@[i as int]@);
                assert(strings(vals@)[i as int] == vals@[i as int]@);
                2 + keys[i].len() + 2 + vals[i].len()
            },
            Node::Internal { keys, .. } => {
                assert(strings(keys@)[i as int] == keys@[i as int]@);
                2 + keys[i].len() + 8
            },
        }
    }

    /// Total encoded byte length.
    pub fn encoded_len(&self) -> (n: usize)
        requires
            self@.fits_together(),
            self@.size() <= usize::MAX,
        ensures
            n == self@.size(),
    {
        let mut n: usize = self.header_len();
        let count = self.key_count();
        let mut i: usize = 0;
        while i < count
            invariant
                i <= count,
                count == self@.count(),
                self@.fits_together(),
                self@.size() <= usize::MAX,
                n == self@.header() + self@.cells(i as nat),
            decreases count - i,
        {
            proof {
                lemma_cells_monotone(self@, (i + 1) as nat, count as nat);
            }
            n = n + self.cell_len(i);
            i = i + 1;
        }
        n
    }

    /// Whether this node would not fit in a page.
    pub fn is_overfull(&self) -> (r: bool)
        requires
            self@.fits_together(),
            self@.size() <= usize::MAX,
        ensures
            r == (self@.size() > CAP),
    {
        self.encoded_len() > CAP
    }

    /// Whether this node is below the minimum fill (callers exempt the root).
    pub fn is_underfull(&self) -> (r: bool)
        requires
            self@.fits_together(),
            self@.size() <= usize::MAX,
        ensures
            r == (self@.size() < MIN_FILL),
    {
        self.encoded_len() < MIN_FILL
    }

    /// Encode this node into its on-page payload bytes.
    pub fn encode(&self) -> (out: Vec<u8>)
        requires
            self@.fits_together(),
        ensures
            out@ == self@.bytes(),
    {
        let mut out: Vec<u8> = Vec::new();
        match self {
            Node::Leaf { keys, vals } => {
                out.push(KIND_LEAF);
                out.push(0);
                push_le(&mut out, keys.len() as u64, 2);
                let ghost head = out@;
                assert(head =~= seq![KIND_LEAF, 0u8] + le_bytes(keys@.len(), 2));
                assert(head + self@.cell_bytes(0) =~= head);
                let mut i: usize = 0;
                while i < keys.len()
                    invariant
                        i <= keys@.len(),
                        vals@.len() == keys@.len(),
                        self@ == (NodeV::Leaf { keys: strings(keys@), vals: strings(vals@) }),
                        out@ == head + self@.cell_bytes(i as nat),
                    decreases keys@.len() - i,
                {
                    let ghost o = out@;
                    assert(strings(keys@)[i as int] == keys@[i as int]@);
                    assert(strings(vals@)[i as int] == vals@[i as int]@);
                    push_le(&mut out, keys[i].len() as u64, 2);
                    push_all(&mut out, keys[i].as_slice());
                    push_le(&mut out, vals[i].len() as u64, 2);
                    push_all(&mut out, vals[i].as_slice());
                    i = i + 1;
                    assert(out@ =~= head + self@.cell_bytes(i as nat));
                }
            },
            Node::Internal { keys, children } => {
                out.push(KIND_INTERNAL);
                out.push(0);
                push_le(&mut out, keys.len() as u64, 2);
                push_le(&mut out, children[0].get(), 8);
                let ghost head = out@;
                assert(head =~= seq![KIND_INTERNAL, 0u8] + le_bytes(keys@.len(), 2) + le_bytes(
                    children@[0].0 as nat,
                    8,
                ));
                assert(head + self@.cell_bytes(0) =~= head);
                let mut i: usize = 0;
                while i < keys.len()
                    invariant
                        i <= keys@.len(),
                        children@.len() == keys@.len() + 1,
                        self@ == (NodeV::Internal { keys: strings(keys@), children: children@ }),
                        out@ == head + self@.cell_bytes(i as nat),
                    decreases keys@.len() - i,
                {
                    assert(strings(keys@)[i as int] == keys@[i as int]@);
                    push_le(&mut out, keys[i].len() as u64, 2);
                    push_all(&mut out, keys[i].as_slice());
                    push_le(&mut out, children[i + 1].get(), 8);
                    i = i + 1;
                    assert(out@ =~= head + self@.cell_bytes(i as nat));
                }
            },
        }
        out
    }

    /// Decode a node from a page payload, rejecting any malformed bytes with a
    /// typed [`Corruption`] error.
    pub fn decode(payload: &[u8], page: PageId) -> (r: Result<Node>)
        ensures
            decode_view(r) == as_error(decoded(payload@, page.0)),
    {
        let mut r = Reader::new(payload, page);
        let kind = match r.byte() {
            Ok(v) => v,
            Err(e) => {
                return Err(e);
            },
        };
        match r.byte() {
            Ok(_) => {},
            Err(e) => {
                return Err(e);
            },
        }
        let count = match r.short() {
            Ok(v) => v,
            Err(e) => {
                return Err(e);
            },
        };
        let ghost goal = decoded(payload@, page.0);
        if kind == KIND_LEAF {
            let mut keys: Vec<Vec<u8>> = Vec::new();
            let mut vals: Vec<Vec<u8>> = Vec::new();
            assert(strings(keys@) =~= Seq::empty());
            assert(strings(vals@) =~= Seq::empty());
            let mut i: u16 = 0;
            while i < count
                invariant
                    i <= count,
                    r.ok(),
                    r.buf@ == payload@,
                    r.page == page.0,
                    goal == decoded(payload@, page.0),
                    goal == leaf_from(
                        payload@,
                        page.0,
                        r.pos as int,
                        (count - i) as nat,
                        strings(keys@),
                        strings(vals@),
                    ),
                decreases count - i,
            {
                let k = match r.bytes_u16() {
                    Ok(v) => v,
                    Err(e) => {
                        return Err(e);
                    },
                };
                let v = match r.bytes_u16() {
                    Ok(v) => v,
                    Err(e) => {
                        return Err(e);
                    },
                };
                let ghost keys0 = keys@;
                let ghost vals0 = vals@;
                keys.push(to_vec(k));
                vals.push(to_vec(v));
                i = i + 1;
                assert(strings(keys@) =~= strings(keys0).push(k@));
                assert(strings(vals@) =~= strings(vals0).push(v@));
            }
            if !check_ascending(&keys) {
                return Err(
                    BTreeError::Corruption(Corruption::KeysNotSorted { page: page.get() }),
                );
            }
            Ok(Node::Leaf { keys, vals })
        } else if kind == KIND_INTERNAL {
            let mut children: Vec<PageId> = Vec::new();
            let first = match r.child_id() {
                Ok(v) => v,
                Err(e) => {
                    return Err(e);
                },
            };
            children.push(first);
            let mut keys: Vec<Vec<u8>> = Vec::new();
            assert(strings(keys@) =~= Seq::empty());
            assert(children@ =~= seq![first]);
            let mut i: u16 = 0;
            while i < count
                invariant
                    i <= count,
                    r.ok(),
                    r.buf@ == payload@,
                    r.page == page.0,
                    goal == decoded(payload@, page.0),
                    goal == internal_from(
                        payload@,
                        page.0,
                        r.pos as int,
                        (count - i) as nat,
                        strings(keys@),
                        children@,
                    ),
                decreases count - i,
            {
                let k = match r.bytes_u16() {
                    Ok(v) => v,
                    Err(e) => {
                        return Err(e);
                    },
                };
                let c = match r.child_id() {
                    Ok(v) => v,
                    Err(e) => {
                        return Err(e);
                    },
                };
                let ghost keys0 = keys@;
                keys.push(to_vec(k));
                children.push(c);
                i = i + 1;
                assert(strings(keys@) =~= strings(keys0).push(k@));
            }
            if !check_ascending(&keys) {
                return Err(
                    BTreeError::Corruption(Corruption::KeysNotSorted { page: page.get() }),
                );
            }
            Ok(Node::Internal { keys, children })
        } else {
            Err(
                BTreeError::Corruption(
                    Corruption::UnknownNodeKind { page: page.get(), byte: kind },
                ),
            )
        }
    }

    /// Look up `key` in a leaf, returning its value if present. Returns `None`
    /// for an internal node.
    pub fn leaf_get(&self, key: &[u8]) -> (r: Option<&[u8]>)
        requires
            self@ is Leaf ==> self@.fits_together() && ascending(self@.keys()),
        ensures
            match r {
                Some(v) => leaf_value(self@, key@) == Some(v@),
                None => leaf_value(self@, key@) is None,
            },
    {
        match self {
            Node::Leaf { keys, vals } => {
                let i = find_lower(keys, key);
                proof {
                    lemma_leaf_value(self@, key@);
                }
                if i < keys.len() {
                    assert(strings(keys@)[i as int] == keys@[i as int]@);
                    assert(strings(vals@)[i as int] == vals@[i as int]@);
                    if bytes_eq(keys[i].as_slice(), key) {
                        return Some(vals[i].as_slice());
                    }
                }
                None
            },
            Node::Internal { .. } => None,
        }
    }

    /// Route a search key to the child page that may contain it (`None` for a
    /// leaf node).
    pub fn route(&self, key: &[u8]) -> (r: Option<PageId>)
        requires
            self@ is Internal ==> self@.fits_together() && ascending(self@.keys()),
        ensures
            r == routed(self@, key@),
    {
        match self {
            Node::Internal { keys, children } => {
                let i = find_upper(keys, key);
                Some(children[i])
            },
            Node::Leaf { .. } => None,
        }
    }

    /// Choose a split index that keeps both halves within a page. Returns the
    /// number of cells (`m`) that stay on the left; for an internal node the
    /// cell at `m` is the one promoted upward.
    fn split_at(&self) -> (m: usize)
        requires
            self@.fits_together(),
            self@.size() <= usize::MAX,
            self@.count() >= 2,
        ensures
            m == self@.split_point(),
            1 <= m < self@.count(),
    {
        let hdr = self.header_len();
        let internal = match self {
            Node::Internal { .. } => true,
            Node::Leaf { .. } => false,
        };
        let n = self.key_count();
        let total: usize = self.encoded_len() - hdr;
        let mut best: usize = 0;
        let mut best_skew: usize = 0;
        let mut left: usize = 0;
        let mut m: usize = 1;
        while m < n
            invariant
                1 <= m <= n,
                n == self@.count(),
                hdr == self@.header(),
                internal == (self@ is Internal),
                total == self@.cells(n as nat),
                hdr + total <= usize::MAX,
                self@.fits_together(),
                left == self@.cells((m - 1) as nat),
                best == self@.best_split(m - 1),
                best < m,
                best > 0 ==> best_skew == self@.skew(best as int),
            decreases n - m,
        {
            proof {
                lemma_cells_monotone(self@, m as nat, n as nat);
                lemma_cells_monotone(self@, (m + 1) as nat, n as nat);
            }
            left = left + self.cell_len(m - 1);
            // The internal promotion key (cell m) belongs to neither side.
            let promoted: usize = if internal {
                self.cell_len(m)
            } else {
                0
            };
            let right: usize = total - left - promoted;
            if hdr + left <= CAP && hdr + right <= CAP {
                let skew: usize = if left >= right {
                    left - right
                } else {
                    right - left
                };
                if best == 0 || skew < best_skew {
                    best_skew = skew;
                    best = m;
                }
            }
            m = m + 1;
        }
        if best == 0 {
            1
        } else {
            best
        }
    }

    /// Split an overfull node into `(left, promoted_key, right)`.
    pub fn split(&self) -> (r: (Node, Vec<u8>, Node))
        requires
            self@.fits_together(),
            self@.size() <= usize::MAX,
            self@.count() >= 2,
        ensures
            r.0@ == self@.left_of(self@.split_point()),
            r.1@ == self@.keys()[self@.split_point()],
            r.2@ == self@.right_of(self@.split_point()),
    {
        let m = self.split_at();
        match self {
            Node::Leaf { keys, vals } => {
                let left = Node::Leaf {
                    keys: copy_strings(keys, 0, m),
                    vals: copy_strings(vals, 0, m),
                };
                let right = Node::Leaf {
                    keys: copy_strings(keys, m, keys.len()),
                    vals: copy_strings(vals, m, vals.len()),
                };
                assert(left@ =~= self@.left_of(m as int));
                assert(right@ =~= self@.right_of(m as int));
                // Copy the right half's first key up as the separator.
                (left, to_vec(keys[m].as_slice()), right)
            },
            Node::Internal { keys, children } => {
                assert(m < keys.len());
                let left = Node::Internal {
                    keys: copy_strings(keys, 0, m),
                    children: copy_ids(children, 0, m + 1),
                };
                let right = Node::Internal {
                    keys: copy_strings(keys, m + 1, keys.len()),
                    children: copy_ids(children, m + 1, children.len()),
                };
                assert(left@ =~= self@.left_of(m as int));
                assert(right@ =~= self@.right_of(m as int));
                // The middle key moves up and out of both halves.
                (left, to_vec(keys[m].as_slice()), right)
            },
        }
    }

    /// Merge two adjacent siblings. For internal nodes `separator` is the parent
    /// key between them (it descends into the merged node); leaves ignore it.
    pub fn merge(left: &Node, separator: &[u8], right: &Node) -> (r: Node)
        ensures
            r@ == merged(left@, separator@, right@),
    {
        match (left, right) {
            (Node::Leaf { keys: lk, vals: lv }, Node::Leaf { keys: rk, vals: rv }) => {
                let mut keys = copy_strings(lk, 0, lk.len());
                let mut more_keys = copy_strings(rk, 0, rk.len());
                let mut vals = copy_strings(lv, 0, lv.len());
                let mut more_vals = copy_strings(rv, 0, rv.len());
                let ghost (k1, k2, v1, v2) = (keys@, more_keys@, vals@, more_vals@);
                keys.append(&mut more_keys);
                vals.append(&mut more_vals);
                assert(strings(keys@) =~= strings(k1) + strings(k2));
                assert(strings(vals@) =~= strings(v1) + strings(v2));
                let r = Node::Leaf { keys, vals };
                assert(r@ =~= merged(left@, separator@, right@));
                r
            },
            (
                Node::Internal { keys: lk, children: lc },
                Node::Internal { keys: rk, children: rc },
            ) => {
                let mut keys = copy_strings(lk, 0, lk.len());
                let mut more_keys = copy_strings(rk, 0, rk.len());
                let mut children = copy_ids(lc, 0, lc.len());
                let mut more_children = copy_ids(rc, 0, rc.len());
                let ghost (k1, k2) = (keys@, more_keys@);
                keys.push(to_vec(separator));
                keys.append(&mut more_keys);
                children.append(&mut more_children);
                assert(strings(keys@) =~= strings(k1).push(separator@) + strings(k2));
                let r = Node::Internal { keys, children };
                assert(r@ =~= merged(left@, separator@, right@));
                r
            },
            // Siblings are always the same kind in a well-formed tree.
            _ => left.copy(),
        }
    }

    /// A copy of this node.
    pub fn copy(&self) -> (r: Node)
        ensures
            r@ == self@,
    {
        match self {
            Node::Leaf { keys, vals } => {
                let r = Node::Leaf {
                    keys: copy_strings(keys, 0, keys.len()),
                    vals: copy_strings(vals, 0, vals.len()),
                };
                assert(r@ =~= self@);
                r
            },
            Node::Internal { keys, children } => {
                let r = Node::Internal {
                    keys: copy_strings(keys, 0, keys.len()),
                    children: copy_ids(children, 0, children.len()),
                };
                assert(r@ =~= self@);
                r
            },
        }
    }
}

/// The value that a leaf holds under `key`.
pub open spec fn leaf_value(n: NodeV, key: Seq<u8>) -> Option<Seq<u8>> {
    match n {
        NodeV::Leaf { keys, vals } => if keys.contains(key) {
            Some(vals[keys.index_of(key)])
        } else {
            None
        },
        NodeV::Internal { .. } => None,
    }
}

/// The child that a search for `key` goes to.
pub open spec fn routed(n: NodeV, key: Seq<u8>) -> Option<PageId> {
    match n {
        NodeV::Internal { keys, children } => Some(children[upper_bound(keys, key)]),
        NodeV::Leaf { .. } => None,
    }
}

/// In ascending keys, a key that occurs does so at its lower bound.
pub proof fn lemma_leaf_value(n: NodeV, key: Seq<u8>)
    requires
        n is Leaf,
        n.fits_together(),
        ascending(n.keys()),
    ensures
        ({
            let i = lower_bound(n.keys(), key);
            &&& 0 <= i <= n.count()
            &&& leaf_value(n, key) == (if i < n.count() && n.keys()[i] == key {
                Some(n->Leaf_vals[i])
            } else {
                None
            })
        }),
{
    let keys = n.keys();
    lemma_lower_bound(keys, key);
    crate::order::before_irreflexive(key);
    if keys.contains(key) {
        let j = keys.index_of(key);
        assert(keys[j] == key);
        let i = lower_bound(keys, key);
        if i < j {
            assert(before(keys[i], keys[j]));
        }
        assert(i == j);
    } else {
        let i = lower_bound(keys, key);
        if i < n.count() && keys[i] == key {
            assert(keys.contains(key));
        }
    }
}

/// Whether every length of a node has room in its 16-bit field, and every child
/// is a data page.
pub open spec fn encodable(n: NodeV) -> bool {
    &&& n.fits_together()
    &&& n.count() < 0x1_0000
    &&& forall|i: int| 0 <= i < n.count() ==> (#[trigger] n.keys()[i]).len() < 0x1_0000
    &&& match n {
        NodeV::Leaf { vals, .. } => forall|i: int|
            0 <= i < vals.len() ==> (#[trigger] vals[i]).len() < 0x1_0000,
        NodeV::Internal { children, .. } => forall|i: int|
            0 <= i < children.len() ==> (#[trigger] children[i]).0 >= 2,
    }
}

proof fn lemma_cell_bytes_len(n: NodeV, k: nat)
    requires
        n.fits_together(),
        k <= n.count(),
    ensures
        n.cell_bytes(k).len() == n.cells(k),
    decreases k,
{
    if k > 0 {
        lemma_cell_bytes_len(n, (k - 1) as nat);
        lemma_le_bytes_len(n.keys()[k - 1].len(), 2);
        match n {
            NodeV::Leaf { vals, .. } => {
                lemma_le_bytes_len(vals[k - 1].len(), 2);
            },
            NodeV::Internal { children, .. } => {
                lemma_le_bytes_len(children[k as int].0 as nat, 8);
            },
        }
    }
}

/// A node's encoding is as long as its size says.
pub proof fn encoding_has_its_size(n: NodeV)
    requires
        n.fits_together(),
    ensures
        n.bytes().len() == n.size(),
{
    lemma_cell_bytes_len(n, n.count());
    lemma_le_bytes_len(n.count(), 2);
    match n {
        NodeV::Internal { children, .. } => {
            lemma_le_bytes_len(children[0].0 as nat, 8);
        },
        _ => {},
    }
}

/// `part` stands in `p` from `at` on.
spec fn stands(p: Seq<u8>, at: int, part: Seq<u8>) -> bool {
    &&& 0 <= at
    &&& at + part.len() <= p.len()
    &&& p.subrange(at, at + part.len()) == part
}

proof fn lemma_stands_split(p: Seq<u8>, at: int, a: Seq<u8>, b: Seq<u8>)
    requires
        stands(p, at, a + b),
    ensures
        stands(p, at, a),
        stands(p, at + a.len(), b),
{
    let w = p.subrange(at, at + (a + b).len());
    assert(p.subrange(at, at + a.len()) =~= w.subrange(0, a.len() as int));
    assert((a + b).subrange(0, a.len() as int) =~= a);
    assert(p.subrange(at + a.len(), at + a.len() + b.len()) =~= w.subrange(
        a.len() as int,
        (a + b).len() as int,
    ));
    assert((a + b).subrange(a.len() as int, (a + b).len() as int) =~= b);
}

proof fn lemma_sized(p: Seq<u8>, at: int, x: Seq<u8>)
    requires
        stands(p, at, le_bytes(x.len(), 2)),
        stands(p, at + 2, x),
        x.len() < 0x1_0000,
    ensures
        sized(p, at) == Some(x),
{
    lemma_pow256_values();
    lemma_le_nat_of_le_bytes(x.len(), 2);
}

proof fn lemma_cells_from(n: NodeV, p: Seq<u8>, page: u64, pos: int, k: nat)
    requires
        encodable(n),
        ascending(n.keys()),
        k <= n.count(),
        forall|j: nat| j <= n.count() ==> stands(p, pos - n.cells(k), #[trigger] n.cell_bytes(j)),
    ensures
        n matches NodeV::Leaf { keys, vals } ==> leaf_from(
            p,
            page,
            pos,
            (n.count() - k) as nat,
            keys.take(k as int),
            vals.take(k as int),
        ) == Ok::<NodeV, Corruption>(n),
        n matches NodeV::Internal { keys, children } ==> internal_from(
            p,
            page,
            pos,
            (n.count() - k) as nat,
            keys.take(k as int),
            children.take(k as int + 1),
        ) == Ok::<NodeV, Corruption>(n),
    decreases n.count() - k,
{
    let start = pos - n.cells(k);
    if k == n.count() {
        match n {
            NodeV::Leaf { keys, vals } => {
                assert(keys.take(k as int) =~= keys);
                assert(vals.take(k as int) =~= vals);
            },
            NodeV::Internal { keys, children } => {
                assert(keys.take(k as int) =~= keys);
                assert(children.take(k as int + 1) =~= children);
            },
        }
    } else {
        lemma_cell_bytes_len(n, k);
        let head = n.cell_bytes(k);
        let key = n.keys()[k as int];
        lemma_le_bytes_len(key.len(), 2);
        assert(stands(p, start, n.cell_bytes(k + 1)));
        match n {
            NodeV::Leaf { keys, vals } => {
                let val = vals[k as int];
                lemma_le_bytes_len(val.len(), 2);
                let a = head + le_bytes(key.len(), 2);
                let b = a + key;
                let c = b + le_bytes(val.len(), 2);
                lemma_stands_split(p, start, c, val);
                lemma_stands_split(p, start, b, le_bytes(val.len(), 2));
                lemma_stands_split(p, start, a, key);
                lemma_stands_split(p, start, head, le_bytes(key.len(), 2));
                lemma_sized(p, pos, key);
                lemma_sized(p, pos + 2 + key.len(), val);
                assert(keys.take(k as int).push(key) =~= keys.take(k as int + 1));
                assert(vals.take(k as int).push(val) =~= vals.take(k as int + 1));
                lemma_cells_from(n, p, page, pos + 4 + key.len() + val.len(), k + 1);
            },
            NodeV::Internal { keys, children } => {
                let child = children[k as int + 1];
                lemma_pow256_values();
                lemma_le_nat_of_le_bytes(child.0 as nat, 8);
                let a = head + le_bytes(key.len(), 2);
                let b = a + key;
                lemma_stands_split(p, start, b, le_bytes(child.0 as nat, 8));
                lemma_stands_split(p, start, a, key);
                lemma_stands_split(p, start, head, le_bytes(key.len(), 2));
                lemma_sized(p, pos, key);
                assert(child_from(p, page, pos + 2 + key.len()) == Ok::<PageId, Corruption>(child));
                assert(keys.take(k as int).push(key) =~= keys.take(k as int + 1));
                assert(children.take(k as int + 1).push(child) =~= children.take(k as int + 2));
                lemma_cells_from(n, p, page, pos + 10 + key.len(), k + 1);
            },
        }
    }
}

proof fn lemma_cell_bytes_prefix(n: NodeV, p: Seq<u8>, at: int, j: nat, k: nat)
    requires
        j <= k,
        stands(p, at, n.cell_bytes(k)),
    ensures
        stands(p, at, n.cell_bytes(j)),
    decreases k,
{
    if j < k {
        let head = n.cell_bytes((k - 1) as nat);
        let cell = match n {
            NodeV::Leaf { keys, vals } => le_bytes(keys[k - 1].len(), 2) + keys[k - 1] + le_bytes(
                vals[k - 1].len(),
                2,
            ) + vals[k - 1],
            NodeV::Internal { keys, children } => le_bytes(keys[k - 1].len(), 2) + keys[k - 1]
                + le_bytes(children[k as int].0 as nat, 8),
        };
        assert(n.cell_bytes(k) =~= head + cell);
        lemma_stands_split(p, at, head, cell);
        lemma_cell_bytes_prefix(n, p, at, j, (k - 1) as nat);
    }
}

/// An encoded node decodes to itself, whatever bytes follow it.
pub proof fn node_round_trip(n: NodeV, tail: Seq<u8>, page: u64)
    requires
        encodable(n),
        ascending(n.keys()),
    ensures
        decoded(n.bytes() + tail, page) == Ok::<NodeV, Corruption>(n),
{
    let p = n.bytes() + tail;
    encoding_has_its_size(n);
    lemma_cell_bytes_len(n, n.count());
    lemma_pow256_values();
    lemma_le_nat_of_le_bytes(n.count(), 2);
    assert(stands(p, 0, n.bytes())) by {
        assert(p.subrange(0, n.bytes().len() as int) =~= n.bytes());
    }
    match n {
        NodeV::Leaf { keys, vals } => {
            let a = seq![KIND_LEAF, 0u8];
            let b = a + le_bytes(keys.len(), 2);
            lemma_stands_split(p, 0, b, n.cell_bytes(keys.len()));
            lemma_stands_split(p, 0, a, le_bytes(keys.len(), 2));
            assert(p[0] == p.subrange(0, 2)[0]);
            assert forall|j: nat| j <= n.count() implies stands(p, 4, #[trigger] n.cell_bytes(
                j,
            )) by {
                lemma_cell_bytes_prefix(n, p, 4, j, n.count());
            }
            lemma_cells_from(n, p, page, 4, 0);
            assert(keys.take(0) =~= Seq::empty());
            assert(vals.take(0) =~= Seq::empty());
        },
        NodeV::Internal { keys, children } => {
            let a = seq![KIND_INTERNAL, 0u8];
            let b = a + le_bytes(keys.len(), 2);
            let c = b + le_bytes(children[0].0 as nat, 8);
            lemma_le_nat_of_le_bytes(children[0].0 as nat, 8);
            lemma_stands_split(p, 0, c, n.cell_bytes(keys.len()));
            lemma_stands_split(p, 0, b, le_bytes(children[0].0 as nat, 8));
            lemma_stands_split(p, 0, a, le_bytes(keys.len(), 2));
            assert(p[0] == p.subrange(0, 2)[0]);
            assert forall|j: nat| j <= n.count() implies stands(p, 12, #[trigger] n.cell_bytes(
                j,
            )) by {
                lemma_cell_bytes_prefix(n, p, 12, j, n.count());
            }
            lemma_cells_from(n, p, page, 12, 0);
            assert(keys.take(0) =~= Seq::empty());
            assert(children.take(1) =~= seq![children[0]]);
        },
    }
}

/// What has been read of a node so far, as a node.
spec fn read_ok(n: NodeV, pos: int, p: Seq<u8>) -> bool {
    &&& encodable(n)
    &&& n.size() == pos
    &&& pos <= p.len()
}

proof fn lemma_cells_same(a: NodeV, b: NodeV, k: nat)
    requires
        (a is Leaf) == (b is Leaf),
        k <= a.count(),
        k <= b.count(),
        forall|i: int| 0 <= i < k ==> #[trigger] a.cell(i) == b.cell(i),
    ensures
        a.cells(k) == b.cells(k),
    decreases k,
{
    if k > 0 {
        lemma_cells_same(a, b, (k - 1) as nat);
        assert(a.cell(k - 1) == b.cell(k - 1));
    }
}

proof fn lemma_leaf_from_sound(p: Seq<u8>, page: u64, pos: int, n: nat, keys: Seq<Seq<u8>>, vals: Seq<Seq<u8>>)
    requires
        read_ok(NodeV::Leaf { keys, vals }, pos, p),
        keys.len() + n < 0x1_0000,
        leaf_from(p, page, pos, n, keys, vals) is Ok,
    ensures
        ({
            let r = leaf_from(p, page, pos, n, keys, vals)->Ok_0;
            &&& r is Leaf
            &&& encodable(r)
            &&& ascending(r.keys())
            &&& r.size() <= p.len()
        }),
    decreases n,
{
    if n > 0 {
        lemma_pow256_values();
        let k = sized(p, pos)->0;
        let v = sized(p, pos + 2 + k.len())->0;
        lemma_le_bytes_of_le_nat(p.subrange(pos, pos + 2));
        lemma_le_bytes_of_le_nat(p.subrange(pos + 2 + k.len(), pos + 2 + k.len() + 2));
        let a = NodeV::Leaf { keys, vals };
        let b = NodeV::Leaf { keys: keys.push(k), vals: vals.push(v) };
        lemma_cells_same(a, b, keys.len());
        lemma_leaf_from_sound(
            p,
            page,
            pos + 4 + k.len() + v.len(),
            (n - 1) as nat,
            keys.push(k),
            vals.push(v),
        );
    }
}

proof fn lemma_internal_from_sound(p: Seq<u8>, page: u64, pos: int, n: nat, keys: Seq<Seq<u8>>, children: Seq<PageId>)
    requires
        read_ok(NodeV::Internal { keys, children }, pos, p),
        keys.len() + n < 0x1_0000,
        internal_from(p, page, pos, n, keys, children) is Ok,
    ensures
        ({
            let r = internal_from(p, page, pos, n, keys, children)->Ok_0;
            &&& r is Internal
            &&& encodable(r)
            &&& ascending(r.keys())
            &&& r.size() <= p.len()
        }),
    decreases n,
{
    if n > 0 {
        lemma_pow256_values();
        let k = sized(p, pos)->0;
        let c = child_from(p, page, pos + 2 + k.len())->Ok_0;
        lemma_le_bytes_of_le_nat(p.subrange(pos, pos + 2));
        let a = NodeV::Internal { keys, children };
        let b = NodeV::Internal { keys: keys.push(k), children: children.push(c) };
        lemma_cells_same(a, b, keys.len());
        lemma_internal_from_sound(
            p,
            page,
            pos + 10 + k.len(),
            (n - 1) as nat,
            keys.push(k),
            children.push(c),
        );
    }
}

/// A decoded node is well formed: its parts fit together, its keys ascend, its
/// children are data pages, and it is no larger than the bytes it came from.
pub proof fn decoded_nodes_are_well_formed(p: Seq<u8>, page: u64)
    requires
        decoded(p, page) is Ok,
    ensures
        encodable(decoded(p, page)->Ok_0),
        ascending(decoded(p, page)->Ok_0.keys()),
        decoded(p, page)->Ok_0.size() <= p.len(),
{
    lemma_pow256_values();
    let n = le_nat(p.subrange(2, 4));
    lemma_le_bytes_of_le_nat(p.subrange(2, 4));
    if p[0] == KIND_LEAF {
        let e = NodeV::Leaf { keys: Seq::empty(), vals: Seq::empty() };
        assert(read_ok(e, 4, p));
        lemma_leaf_from_sound(p, page, 4, n, Seq::empty(), Seq::empty());
    } else {
        let c = child_from(p, page, 4)->Ok_0;
        let e = NodeV::Internal { keys: Seq::empty(), children: seq![c] };
        assert(read_ok(e, 12, p));
        lemma_internal_from_sound(p, page, 12, n, Seq::empty(), seq![c]);
    }
}

/// A node that can be split so that both halves fit a page is split so, at the first of the
/// points where the halves are the least unequal.
pub proof fn splits_are_the_most_even(n: NodeV, m: int)
    requires
        1 <= m < n.count(),
        n.split_fits(m),
    ensures
        1 <= n.split_point() < n.count(),
        n.split_fits(n.split_point()),
        n.skew(n.split_point()) <= n.skew(m),
        m < n.split_point() ==> n.skew(n.split_point()) < n.skew(m),
{
    lemma_best_split(n, n.count() - 1);
}

proof fn lemma_best_split(n: NodeV, last: int)
    ensures
        n.best_split(last) != 0 ==> 1 <= n.best_split(last) <= last && n.split_fits(
            n.best_split(last),
        ),
        forall|m: int|
            1 <= m <= last && #[trigger] n.split_fits(m) ==> n.best_split(last) != 0 && n.skew(
                n.best_split(last),
            ) <= n.skew(m) && (m < n.best_split(last) ==> n.skew(n.best_split(last)) < n.skew(m)),
    decreases last,
{
    if last > 0 {
        lemma_best_split(n, last - 1);
    }
}

} // verus!
