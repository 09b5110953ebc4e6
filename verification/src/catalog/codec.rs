//! The stored form of a table definition: how it is read.
//!
//! Stored bytes never stop the reader but with a typed error. The literals in
//! them are the value layer's to decode: the reader takes those decoded so far,
//! in order, and asks for the next one by its bytes.

use vstd::prelude::*;
use vstd::utf8::{decode_utf8, valid_utf8};
use super::check::MAX_CHECK_DEPTH;
use super::error::{CatalogCorruption, CatalogError, Result};
use super::form::{
    CHECK_AND, CHECK_CMP, CHECK_IS_NOT_NULL, CHECK_IS_NULL, CHECK_NOT, CHECK_OR, DEFAULT_NONE,
    DEFAULT_NOW, DEFAULT_UUID_V7, DEFAULT_VALUE, FLAG_AUTO_INCREMENT, FLAG_GUARDED, FLAG_NULLABLE,
    FLAG_ON_UPDATE_NOW, FLAG_ROWVERSION, FLAG_UNIQUE, VERSION, VERSION_NO_FOREIGN_KEYS,
    VERSION_NO_INDEXES,
};
use super::schema::{
    CheckExpr, CheckV, CmpOp, ColumnDef, ColumnV, DefaultSpec, DefaultV, ForeignKey, ForeignKeyV,
    IndexDef, IndexV, RefAction, TableDef, TableV, UpdatePolicy,
};
use crate::bytes::{get_le16, le_nat, to_vec};
use crate::text::from_utf8;
use crate::value::{TypeKind, Value, ValueV};
use crate::views::{opt, views};

verus! {

/// Where a reader stands: the bytes that are left, and how many literals it has
/// met.
#[verifier::ext_equal]
pub struct Left {
    pub bytes: Seq<u8>,
    pub met: nat,
}

/// What reading gives.
pub enum Read<T> {
    /// A value, and what is left behind it.
    Got(T, Left),
    /// The literal with these bytes is needed first.
    Wants(Seq<u8>),
    /// The bytes are malformed.
    Bad(CatalogCorruption),
}

/// The literals decoded so far; one that did not decode to a single cell is
/// `None`.
pub type Literals = Seq<Option<ValueV>>;

/// One byte.
pub open spec fn read_byte(l: Left) -> Read<u8> {
    if l.bytes.len() == 0 {
        Read::Bad(CatalogCorruption::Truncated)
    } else {
        Read::Got(l.bytes[0], Left { bytes: l.bytes.skip(1), met: l.met })
    }
}

/// `n` bytes.
pub open spec fn read_bytes(l: Left, n: nat) -> Read<Seq<u8>> {
    if l.bytes.len() < n {
        Read::Bad(CatalogCorruption::Truncated)
    } else {
        Read::Got(
            l.bytes.take(n as int),
            Left { bytes: l.bytes.skip(n as int), met: l.met },
        )
    }
}

/// A count of two bytes.
pub open spec fn read_count(l: Left) -> Read<nat> {
    match read_bytes(l, 2) {
        Read::Got(b, rest) => Read::Got(le_nat(b), rest),
        Read::Wants(b) => Read::Wants(b),
        Read::Bad(e) => Read::Bad(e),
    }
}

/// Counted bytes.
pub open spec fn read_blob(l: Left) -> Read<Seq<u8>> {
    match read_count(l) {
        Read::Got(n, rest) => read_bytes(rest, n),
        Read::Wants(b) => Read::Wants(b),
        Read::Bad(e) => Read::Bad(e),
    }
}

/// A string.
pub open spec fn read_text(l: Left) -> Read<Seq<char>> {
    match read_blob(l) {
        Read::Got(b, rest) => if valid_utf8(b) {
            Read::Got(decode_utf8(b), rest)
        } else {
            Read::Bad(CatalogCorruption::InvalidUtf8)
        },
        Read::Wants(b) => Read::Wants(b),
        Read::Bad(e) => Read::Bad(e),
    }
}

/// A literal.
pub open spec fn read_literal(l: Left, known: Literals) -> Read<ValueV> {
    match read_blob(l) {
        Read::Got(b, rest) => if rest.met >= known.len() {
            Read::Wants(b)
        } else {
            match known[rest.met as int] {
                None => Read::Bad(CatalogCorruption::BadValue),
                Some(v) => Read::Got(v, Left { bytes: rest.bytes, met: rest.met + 1 }),
            }
        },
        Read::Wants(b) => Read::Wants(b),
        Read::Bad(e) => Read::Bad(e),
    }
}

/// The type with this code.
pub open spec fn kind_of(code: u8) -> Option<TypeKind> {
    match code {
        1 => Some(TypeKind::Bool),
        2 => Some(TypeKind::I64),
        3 => Some(TypeKind::F64),
        4 => Some(TypeKind::Text),
        5 => Some(TypeKind::Blob),
        6 => Some(TypeKind::Uuid),
        7 => Some(TypeKind::Json),
        8 => Some(TypeKind::Timestamp),
        _ => None,
    }
}

/// The operator with this code.
pub open spec fn op_of(code: u8) -> Option<CmpOp> {
    match code {
        1 => Some(CmpOp::Eq),
        2 => Some(CmpOp::Ne),
        3 => Some(CmpOp::Lt),
        4 => Some(CmpOp::Lte),
        5 => Some(CmpOp::Gt),
        6 => Some(CmpOp::Gte),
        _ => None,
    }
}

/// The referential action with this code.
pub open spec fn action_of(code: u8) -> Option<RefAction> {
    match code {
        0 => Some(RefAction::Restrict),
        1 => Some(RefAction::Cascade),
        2 => Some(RefAction::SetNull),
        _ => None,
    }
}

/// A type.
pub open spec fn read_kind(l: Left) -> Read<TypeKind> {
    match read_byte(l) {
        Read::Got(tag, rest) => match kind_of(tag) {
            Some(k) => Read::Got(k, rest),
            None => Read::Bad(CatalogCorruption::BadTag { tag }),
        },
        Read::Wants(b) => Read::Wants(b),
        Read::Bad(e) => Read::Bad(e),
    }
}

/// An operator.
pub open spec fn read_op(l: Left) -> Read<CmpOp> {
    match read_byte(l) {
        Read::Got(tag, rest) => match op_of(tag) {
            Some(k) => Read::Got(k, rest),
            None => Read::Bad(CatalogCorruption::BadTag { tag }),
        },
        Read::Wants(b) => Read::Wants(b),
        Read::Bad(e) => Read::Bad(e),
    }
}

/// A referential action.
pub open spec fn read_action(l: Left) -> Read<RefAction> {
    match read_byte(l) {
        Read::Got(tag, rest) => match action_of(tag) {
            Some(k) => Read::Got(k, rest),
            None => Read::Bad(CatalogCorruption::BadTag { tag }),
        },
        Read::Wants(b) => Read::Wants(b),
        Read::Bad(e) => Read::Bad(e),
    }
}

/// A truth value.
pub open spec fn read_truth(l: Left) -> Read<bool> {
    match read_byte(l) {
        Read::Got(tag, rest) => if tag == 0 {
            Read::Got(false, rest)
        } else if tag == 1 {
            Read::Got(true, rest)
        } else {
            Read::Bad(CatalogCorruption::BadTag { tag })
        },
        Read::Wants(b) => Read::Wants(b),
        Read::Bad(e) => Read::Bad(e),
    }
}

/// A default.
pub open spec fn read_default(l: Left, known: Literals) -> Read<Option<DefaultV>> {
    match read_byte(l) {
        Read::Got(tag, rest) => if tag == DEFAULT_NONE {
            Read::Got(None, rest)
        } else if tag == DEFAULT_VALUE {
            match read_literal(rest, known) {
                Read::Got(v, rest) => Read::Got(Some(DefaultV::Value(v)), rest),
                Read::Wants(b) => Read::Wants(b),
                Read::Bad(e) => Read::Bad(e),
            }
        } else if tag == DEFAULT_NOW {
            Read::Got(Some(DefaultV::Now), rest)
        } else if tag == DEFAULT_UUID_V7 {
            Read::Got(Some(DefaultV::UuidV7), rest)
        } else {
            Read::Bad(CatalogCorruption::BadTag { tag })
        },
        Read::Wants(b) => Read::Wants(b),
        Read::Bad(e) => Read::Bad(e),
    }
}

/// A column.
pub open spec fn read_column(l: Left, known: Literals) -> Read<ColumnV> {
    match read_text(l) {
        Read::Got(name, rest) => match read_kind(rest) {
            Read::Got(kind, rest) => match read_byte(rest) {
                Read::Got(flags, rest) => match read_default(rest, known) {
                    Read::Got(default, rest) => Read::Got(
                        ColumnV {
                            name,
                            kind,
                            nullable: flags & FLAG_NULLABLE != 0,
                            unique: flags & FLAG_UNIQUE != 0,
                            default,
                            auto_increment: flags & FLAG_AUTO_INCREMENT != 0,
                            rowversion: flags & FLAG_ROWVERSION != 0,
                            on_update_now: flags & FLAG_ON_UPDATE_NOW != 0,
                            update: if flags & FLAG_GUARDED != 0 {
                                UpdatePolicy::Guarded
                            } else {
                                UpdatePolicy::Free
                            },
                        },
                        rest,
                    ),
                    Read::Wants(b) => Read::Wants(b),
                    Read::Bad(e) => Read::Bad(e),
                },
                Read::Wants(b) => Read::Wants(b),
                Read::Bad(e) => Read::Bad(e),
            },
            Read::Wants(b) => Read::Wants(b),
            Read::Bad(e) => Read::Bad(e),
        },
        Read::Wants(b) => Read::Wants(b),
        Read::Bad(e) => Read::Bad(e),
    }
}

/// A list with its first element put in front.
pub open spec fn prepend<T>(first: T, rest: Read<Seq<T>>) -> Read<Seq<T>> {
    match rest {
        Read::Got(s, l) => Read::Got(seq![first] + s, l),
        Read::Wants(b) => Read::Wants(b),
        Read::Bad(e) => Read::Bad(e),
    }
}

/// `n` columns.
pub open spec fn read_columns(l: Left, n: nat, known: Literals) -> Read<Seq<ColumnV>>
    decreases n,
{
    if n == 0 {
        Read::Got(Seq::empty(), l)
    } else {
        match read_column(l, known) {
            Read::Got(c, rest) => prepend(c, read_columns(rest, (n - 1) as nat, known)),
            Read::Wants(b) => Read::Wants(b),
            Read::Bad(e) => Read::Bad(e),
        }
    }
}

/// `n` strings.
pub open spec fn read_texts(l: Left, n: nat) -> Read<Seq<Seq<char>>>
    decreases n,
{
    if n == 0 {
        Read::Got(Seq::empty(), l)
    } else {
        match read_text(l) {
            Read::Got(c, rest) => prepend(c, read_texts(rest, (n - 1) as nat)),
            Read::Wants(b) => Read::Wants(b),
            Read::Bad(e) => Read::Bad(e),
        }
    }
}

/// Counted strings.
pub open spec fn read_names(l: Left) -> Read<Seq<Seq<char>>> {
    match read_count(l) {
        Read::Got(n, rest) => read_texts(rest, n),
        Read::Wants(b) => Read::Wants(b),
        Read::Bad(e) => Read::Bad(e),
    }
}

/// A CHECK that stands at this depth.
pub open spec fn read_check(l: Left, depth: nat, known: Literals) -> Read<CheckV>
    decreases MAX_CHECK_DEPTH + 2 - depth, 0nat,
{
    if depth > MAX_CHECK_DEPTH {
        Read::Bad(CatalogCorruption::DepthExceeded)
    } else {
        match read_byte(l) {
            Read::Got(tag, rest) => if tag == CHECK_CMP {
                match read_text(rest) {
                    Read::Got(col, rest) => match read_op(rest) {
                        Read::Got(op, rest) => match read_literal(rest, known) {
                            Read::Got(value, rest) => Read::Got(
                                CheckV::Cmp { col, op, value },
                                rest,
                            ),
                            Read::Wants(b) => Read::Wants(b),
                            Read::Bad(e) => Read::Bad(e),
                        },
                        Read::Wants(b) => Read::Wants(b),
                        Read::Bad(e) => Read::Bad(e),
                    },
                    Read::Wants(b) => Read::Wants(b),
                    Read::Bad(e) => Read::Bad(e),
                }
            } else if tag == CHECK_IS_NULL {
                match read_text(rest) {
                    Read::Got(col, rest) => Read::Got(CheckV::IsNull { col }, rest),
                    Read::Wants(b) => Read::Wants(b),
                    Read::Bad(e) => Read::Bad(e),
                }
            } else if tag == CHECK_IS_NOT_NULL {
                match read_text(rest) {
                    Read::Got(col, rest) => Read::Got(CheckV::IsNotNull { col }, rest),
                    Read::Wants(b) => Read::Wants(b),
                    Read::Bad(e) => Read::Bad(e),
                }
            } else if tag == CHECK_AND || tag == CHECK_OR {
                match read_count(rest) {
                    Read::Got(n, rest) => match read_checks(rest, n, depth + 1, known) {
                        Read::Got(items, rest) => Read::Got(
                            if tag == CHECK_AND {
                                CheckV::And(items)
                            } else {
                                CheckV::Or(items)
                            },
                            rest,
                        ),
                        Read::Wants(b) => Read::Wants(b),
                        Read::Bad(e) => Read::Bad(e),
                    },
                    Read::Wants(b) => Read::Wants(b),
                    Read::Bad(e) => Read::Bad(e),
                }
            } else if tag == CHECK_NOT {
                match read_check(rest, depth + 1, known) {
                    Read::Got(inner, rest) => Read::Got(CheckV::Not(Box::new(inner)), rest),
                    Read::Wants(b) => Read::Wants(b),
                    Read::Bad(e) => Read::Bad(e),
                }
            } else {
                Read::Bad(CatalogCorruption::BadTag { tag })
            },
            Read::Wants(b) => Read::Wants(b),
            Read::Bad(e) => Read::Bad(e),
        }
    }
}

/// `n` CHECKs that stand at this depth.
pub open spec fn read_checks(l: Left, n: nat, depth: nat, known: Literals) -> Read<Seq<CheckV>>
    decreases MAX_CHECK_DEPTH + 2 - depth, n + 1,
{
    if n == 0 {
        Read::Got(Seq::empty(), l)
    } else {
        match read_check(l, depth, known) {
            Read::Got(c, rest) => prepend(c, read_checks(rest, (n - 1) as nat, depth, known)),
            Read::Wants(b) => Read::Wants(b),
            Read::Bad(e) => Read::Bad(e),
        }
    }
}

/// An index.
pub open spec fn read_index(l: Left) -> Read<IndexV> {
    match read_text(l) {
        Read::Got(name, rest) => match read_truth(rest) {
            Read::Got(unique, rest) => match read_names(rest) {
                Read::Got(columns, rest) => Read::Got(IndexV { name, columns, unique }, rest),
                Read::Wants(b) => Read::Wants(b),
                Read::Bad(e) => Read::Bad(e),
            },
            Read::Wants(b) => Read::Wants(b),
            Read::Bad(e) => Read::Bad(e),
        },
        Read::Wants(b) => Read::Wants(b),
        Read::Bad(e) => Read::Bad(e),
    }
}

/// `n` indexes.
pub open spec fn read_indexes(l: Left, n: nat) -> Read<Seq<IndexV>>
    decreases n,
{
    if n == 0 {
        Read::Got(Seq::empty(), l)
    } else {
        match read_index(l) {
            Read::Got(c, rest) => prepend(c, read_indexes(rest, (n - 1) as nat)),
            Read::Wants(b) => Read::Wants(b),
            Read::Bad(e) => Read::Bad(e),
        }
    }
}

/// A foreign key.
pub open spec fn read_key(l: Left) -> Read<ForeignKeyV> {
    match read_text(l) {
        Read::Got(name, rest) => match read_names(rest) {
            Read::Got(columns, rest) => match read_text(rest) {
                Read::Got(parent, rest) => match read_names(rest) {
                    Read::Got(parent_columns, rest) => match read_action(rest) {
                        Read::Got(on_delete, rest) => match read_action(rest) {
                            Read::Got(on_update, rest) => Read::Got(
                                ForeignKeyV {
                                    name,
                                    columns,
                                    parent,
                                    parent_columns,
                                    on_delete,
                                    on_update,
                                },
                                rest,
                            ),
                            Read::Wants(b) => Read::Wants(b),
                            Read::Bad(e) => Read::Bad(e),
                        },
                        Read::Wants(b) => Read::Wants(b),
                        Read::Bad(e) => Read::Bad(e),
                    },
                    Read::Wants(b) => Read::Wants(b),
                    Read::Bad(e) => Read::Bad(e),
                },
                Read::Wants(b) => Read::Wants(b),
                Read::Bad(e) => Read::Bad(e),
            },
            Read::Wants(b) => Read::Wants(b),
            Read::Bad(e) => Read::Bad(e),
        },
        Read::Wants(b) => Read::Wants(b),
        Read::Bad(e) => Read::Bad(e),
    }
}

/// `n` foreign keys.
pub open spec fn read_keys(l: Left, n: nat) -> Read<Seq<ForeignKeyV>>
    decreases n,
{
    if n == 0 {
        Read::Got(Seq::empty(), l)
    } else {
        match read_key(l) {
            Read::Got(c, rest) => prepend(c, read_keys(rest, (n - 1) as nat)),
            Read::Wants(b) => Read::Wants(b),
            Read::Bad(e) => Read::Bad(e),
        }
    }
}

/// The columns, counted.
pub open spec fn read_column_list(l: Left, known: Literals) -> Read<Seq<ColumnV>> {
    match read_count(l) {
        Read::Got(n, rest) => read_columns(rest, n, known),
        Read::Wants(b) => Read::Wants(b),
        Read::Bad(e) => Read::Bad(e),
    }
}

/// The CHECKs, counted.
pub open spec fn read_check_list(l: Left, known: Literals) -> Read<Seq<CheckV>> {
    match read_count(l) {
        Read::Got(n, rest) => read_checks(rest, n, 0, known),
        Read::Wants(b) => Read::Wants(b),
        Read::Bad(e) => Read::Bad(e),
    }
}

/// The indexes, counted; the first version had none.
pub open spec fn read_index_list(l: Left, version: u8) -> Read<Seq<IndexV>> {
    if version == VERSION_NO_INDEXES {
        Read::Got(Seq::empty(), l)
    } else {
        match read_count(l) {
            Read::Got(n, rest) => read_indexes(rest, n),
            Read::Wants(b) => Read::Wants(b),
            Read::Bad(e) => Read::Bad(e),
        }
    }
}

/// The foreign keys, counted; only the current version has them.
pub open spec fn read_key_list(l: Left, version: u8) -> Read<Seq<ForeignKeyV>> {
    if version != VERSION {
        Read::Got(Seq::empty(), l)
    } else {
        match read_count(l) {
            Read::Got(n, rest) => read_keys(rest, n),
            Read::Wants(b) => Read::Wants(b),
            Read::Bad(e) => Read::Bad(e),
        }
    }
}

/// What follows the version.
pub open spec fn read_body(l: Left, version: u8, known: Literals) -> Read<TableV> {
    match read_text(l) {
        Read::Got(name, rest) => match read_column_list(rest, known) {
            Read::Got(columns, rest) => match read_names(rest) {
                Read::Got(pk, rest) => match read_check_list(rest, known) {
                    Read::Got(checks, rest) => match read_index_list(rest, version) {
                        Read::Got(indexes, rest) => match read_key_list(rest, version) {
                            Read::Got(foreign_keys, rest) => Read::Got(
                                TableV { name, columns, pk, checks, indexes, foreign_keys },
                                rest,
                            ),
                            Read::Wants(b) => Read::Wants(b),
                            Read::Bad(e) => Read::Bad(e),
                        },
                        Read::Wants(b) => Read::Wants(b),
                        Read::Bad(e) => Read::Bad(e),
                    },
                    Read::Wants(b) => Read::Wants(b),
                    Read::Bad(e) => Read::Bad(e),
                },
                Read::Wants(b) => Read::Wants(b),
                Read::Bad(e) => Read::Bad(e),
            },
            Read::Wants(b) => Read::Wants(b),
            Read::Bad(e) => Read::Bad(e),
        },
        Read::Wants(b) => Read::Wants(b),
        Read::Bad(e) => Read::Bad(e),
    }
}

/// The definition that stored bytes hold.
pub open spec fn read_table(bytes: Seq<u8>, known: Literals) -> Read<TableV> {
    match read_byte(Left { bytes, met: 0 }) {
        Read::Got(version, rest) => if version != VERSION && version != VERSION_NO_FOREIGN_KEYS
            && version != VERSION_NO_INDEXES {
            Read::Bad(CatalogCorruption::BadVersion { version })
        } else {
            match read_body(rest, version, known) {
                Read::Got(t, rest) => if rest.bytes.len() > 0 {
                    Read::Bad(CatalogCorruption::TrailingBytes)
                } else {
                    Read::Got(t, rest)
                },
                Read::Wants(b) => Read::Wants(b),
                Read::Bad(e) => Read::Bad(e),
            }
        },
        Read::Wants(b) => Read::Wants(b),
        Read::Bad(e) => Read::Bad(e),
    }
}

/// A reader over stored bytes.
struct Reader<'a> {
    bytes: &'a [u8],
    known: &'a Vec<Option<Value>>,
    pos: usize,
    met: usize,
}

/// Why a reader stopped.
enum Stop {
    Wants(Vec<u8>),
    Bad(CatalogCorruption),
}

impl<'a> Reader<'a> {
    spec fn wf(self) -> bool {
        self.pos <= self.bytes@.len() && self.met <= self.known@.len()
    }

    spec fn left(self) -> Left {
        Left { bytes: self.bytes@.skip(self.pos as int), met: self.met as nat }
    }

    spec fn lits(self) -> Literals {
        known_views(self.known@)
    }

    spec fn same_source(self, other: Self) -> bool {
        self.bytes == other.bytes && self.known == other.known
    }
}

/// Whether a reader gave what `want` says.
spec fn gave<T: View>(
    r: core::result::Result<T, Stop>,
    after: Reader,
    want: Read<T::V>,
) -> bool {
    match r {
        Ok(x) => want == Read::Got(x@, after.left()),
        Err(Stop::Wants(b)) => want == Read::<T::V>::Wants(b@),
        Err(Stop::Bad(e)) => want == Read::<T::V>::Bad(e),
    }
}

/// Whether a reader gave a list as `want` says.
spec fn gave_list<T: View>(
    r: core::result::Result<Vec<T>, Stop>,
    after: Reader,
    want: Read<Seq<T::V>>,
) -> bool {
    match r {
        Ok(x) => want == Read::Got(views(x@), after.left()),
        Err(Stop::Wants(b)) => want == Read::<Seq<T::V>>::Wants(b@),
        Err(Stop::Bad(e)) => want == Read::<Seq<T::V>>::Bad(e),
    }
}

/// Whether a reader gave a plain value as `want` says.
spec fn gave_plain<T>(r: core::result::Result<T, Stop>, after: Reader, want: Read<T>) -> bool {
    match r {
        Ok(x) => want == Read::Got(x, after.left()),
        Err(Stop::Wants(b)) => want == Read::<T>::Wants(b@),
        Err(Stop::Bad(e)) => want == Read::<T>::Bad(e),
    }
}

/// Whether a reader gave a count as `want` says.
spec fn gave_count(r: core::result::Result<usize, Stop>, after: Reader, want: Read<nat>) -> bool {
    match r {
        Ok(x) => want == Read::Got(x as nat, after.left()),
        Err(Stop::Wants(b)) => want == Read::<nat>::Wants(b@),
        Err(Stop::Bad(e)) => want == Read::<nat>::Bad(e),
    }
}

impl<'a> Reader<'a> {
    fn byte(&mut self) -> (r: core::result::Result<u8, Stop>)
        requires
            old(self).wf(),
        ensures
            final(self).wf(),
            final(self).same_source(*old(self)),
            gave_plain(r, *final(self), read_byte(old(self).left())),
    {
        if self.pos >= self.bytes.len() {
            return Err(Stop::Bad(CatalogCorruption::Truncated));
        }
        let b = self.bytes[self.pos];
        self.pos = self.pos + 1;
        assert(self.left().bytes =~= old(self).left().bytes.skip(1));
        Ok(b)
    }

    fn count(&mut self) -> (r: core::result::Result<usize, Stop>)
        requires
            old(self).wf(),
        ensures
            final(self).wf(),
            final(self).same_source(*old(self)),
            gave_count(r, *final(self), read_count(old(self).left())),
    {
        if self.bytes.len() - self.pos < 2 {
            return Err(Stop::Bad(CatalogCorruption::Truncated));
        }
        let n = get_le16(self.bytes, self.pos);
        assert(self.bytes@.subrange(self.pos as int, self.pos + 2) =~= self.left().bytes.take(2));
        self.pos = self.pos + 2;
        assert(self.left().bytes =~= old(self).left().bytes.skip(2));
        Ok(n as usize)
    }

    fn blob(&mut self) -> (r: core::result::Result<Vec<u8>, Stop>)
        requires
            old(self).wf(),
        ensures
            final(self).wf(),
            final(self).same_source(*old(self)),
            gave(r, *final(self), read_blob(old(self).left())),
    {
        let n = match self.count() {
            Ok(n) => n,
            Err(e) => {
                return Err(e);
            },
        };
        if self.bytes.len() - self.pos < n {
            return Err(Stop::Bad(CatalogCorruption::Truncated));
        }
        let ghost before = self.left();
        let part = vstd::slice::slice_subrange(self.bytes, self.pos, self.pos + n);
        assert(part@ =~= before.bytes.take(n as int));
        self.pos = self.pos + n;
        assert(self.left().bytes =~= before.bytes.skip(n as int));
        Ok(to_vec(part))
    }

    fn text(&mut self) -> (r: core::result::Result<String, Stop>)
        requires
            old(self).wf(),
        ensures
            final(self).wf(),
            final(self).same_source(*old(self)),
            gave(r, *final(self), read_text(old(self).left())),
    {
        let b = match self.blob() {
            Ok(b) => b,
            Err(e) => {
                return Err(e);
            },
        };
        match from_utf8(b) {
            Some(s) => Ok(s),
            None => Err(Stop::Bad(CatalogCorruption::InvalidUtf8)),
        }
    }

    fn literal(&mut self) -> (r: core::result::Result<Value, Stop>)
        requires
            old(self).wf(),
        ensures
            final(self).wf(),
            final(self).same_source(*old(self)),
            gave(r, *final(self), read_literal(old(self).left(), old(self).lits())),
    {
        let b = match self.blob() {
            Ok(b) => b,
            Err(e) => {
                return Err(e);
            },
        };
        if self.met >= self.known.len() {
            return Err(Stop::Wants(b));
        }
        assert(self.lits()[self.met as int] == opt(self.known@[self.met as int]));
        match &self.known[self.met] {
            None => Err(Stop::Bad(CatalogCorruption::BadValue)),
            Some(v) => {
                self.met = self.met + 1;
                Ok(v.copy())
            },
        }
    }

    fn kind(&mut self) -> (r: core::result::Result<TypeKind, Stop>)
        requires
            old(self).wf(),
        ensures
            final(self).wf(),
            final(self).same_source(*old(self)),
            gave_plain(r, *final(self), read_kind(old(self).left())),
    {
        let tag = match self.byte() {
            Ok(b) => b,
            Err(e) => {
                return Err(e);
            },
        };
        match tag {
            1 => Ok(TypeKind::Bool),
            2 => Ok(TypeKind::I64),
            3 => Ok(TypeKind::F64),
            4 => Ok(TypeKind::Text),
            5 => Ok(TypeKind::Blob),
            6 => Ok(TypeKind::Uuid),
            7 => Ok(TypeKind::Json),
            8 => Ok(TypeKind::Timestamp),
            _ => Err(Stop::Bad(CatalogCorruption::BadTag { tag })),
        }
    }

    fn op(&mut self) -> (r: core::result::Result<CmpOp, Stop>)
        requires
            old(self).wf(),
        ensures
            final(self).wf(),
            final(self).same_source(*old(self)),
            gave_plain(r, *final(self), read_op(old(self).left())),
    {
        let tag = match self.byte() {
            Ok(b) => b,
            Err(e) => {
                return Err(e);
            },
        };
        match tag {
            1 => Ok(CmpOp::Eq),
            2 => Ok(CmpOp::Ne),
            3 => Ok(CmpOp::Lt),
            4 => Ok(CmpOp::Lte),
            5 => Ok(CmpOp::Gt),
            6 => Ok(CmpOp::Gte),
            _ => Err(Stop::Bad(CatalogCorruption::BadTag { tag })),
        }
    }

    fn action(&mut self) -> (r: core::result::Result<RefAction, Stop>)
        requires
            old(self).wf(),
        ensures
            final(self).wf(),
            final(self).same_source(*old(self)),
            gave_plain(r, *final(self), read_action(old(self).left())),
    {
        let tag = match self.byte() {
            Ok(b) => b,
            Err(e) => {
                return Err(e);
            },
        };
        match tag {
            0 => Ok(RefAction::Restrict),
            1 => Ok(RefAction::Cascade),
            2 => Ok(RefAction::SetNull),
            _ => Err(Stop::Bad(CatalogCorruption::BadTag { tag })),
        }
    }

    fn truth(&mut self) -> (r: core::result::Result<bool, Stop>)
        requires
            old(self).wf(),
        ensures
            final(self).wf(),
            final(self).same_source(*old(self)),
            gave_plain(r, *final(self), read_truth(old(self).left())),
    {
        let tag = match self.byte() {
            Ok(b) => b,
            Err(e) => {
                return Err(e);
            },
        };
        match tag {
            0 => Ok(false),
            1 => Ok(true),
            _ => Err(Stop::Bad(CatalogCorruption::BadTag { tag })),
        }
    }

    fn default(&mut self) -> (r: core::result::Result<Option<DefaultSpec>, Stop>)
        requires
            old(self).wf(),
        ensures
            final(self).wf(),
            final(self).same_source(*old(self)),
            match r {
                Ok(d) => read_default(old(self).left(), old(self).lits()) == Read::Got(
                    opt(d),
                    final(self).left(),
                ),
                Err(Stop::Wants(b)) => read_default(old(self).left(), old(self).lits()) == Read::<
                    Option<DefaultV>,
                >::Wants(b@),
                Err(Stop::Bad(e)) => read_default(old(self).left(), old(self).lits()) == Read::<
                    Option<DefaultV>,
                >::Bad(e),
            },
    {
        let tag = match self.byte() {
            Ok(b) => b,
            Err(e) => {
                return Err(e);
            },
        };
        if tag == DEFAULT_NONE {
            Ok(None)
        } else if tag == DEFAULT_VALUE {
            match self.literal() {
                Ok(v) => Ok(Some(DefaultSpec::Value(v))),
                Err(e) => Err(e),
            }
        } else if tag == DEFAULT_NOW {
            Ok(Some(DefaultSpec::Now))
        } else if tag == DEFAULT_UUID_V7 {
            Ok(Some(DefaultSpec::UuidV7))
        } else {
            Err(Stop::Bad(CatalogCorruption::BadTag { tag }))
        }
    }

    fn column(&mut self) -> (r: core::result::Result<ColumnDef, Stop>)
        requires
            old(self).wf(),
        ensures
            final(self).wf(),
            final(self).same_source(*old(self)),
            gave(r, *final(self), read_column(old(self).left(), old(self).lits())),
    {
        let name = match self.text() {
            Ok(x) => x,
            Err(e) => {
                return Err(e);
            },
        };
        let kind = match self.kind() {
            Ok(x) => x,
            Err(e) => {
                return Err(e);
            },
        };
        let flags = match self.byte() {
            Ok(x) => x,
            Err(e) => {
                return Err(e);
            },
        };
        let default = match self.default() {
            Ok(x) => x,
            Err(e) => {
                return Err(e);
            },
        };
        Ok(
            ColumnDef {
                name,
                kind,
                nullable: flags & FLAG_NULLABLE != 0,
                unique: flags & FLAG_UNIQUE != 0,
                default,
                auto_increment: flags & FLAG_AUTO_INCREMENT != 0,
                rowversion: flags & FLAG_ROWVERSION != 0,
                on_update_now: flags & FLAG_ON_UPDATE_NOW != 0,
                update: if flags & FLAG_GUARDED != 0 {
                    UpdatePolicy::Guarded
                } else {
                    UpdatePolicy::Free
                },
            },
        )
    }

    fn columns(&mut self) -> (r: core::result::Result<Vec<ColumnDef>, Stop>)
        requires
            old(self).wf(),
        ensures
            final(self).wf(),
            final(self).same_source(*old(self)),
            gave_list(r, *final(self), read_column_list(old(self).left(), old(self).lits())),
    {
        let ghost known = self.lits();
        let n = match self.count() {
            Ok(n) => n,
            Err(e) => {
                return Err(e);
            },
        };
        let ghost start = self.left();
        let mut out: Vec<ColumnDef> = Vec::new();
        let mut i: usize = 0;
        proof {
            lemma_prefix_unit(read_columns(start, n as nat, known));
            assert(views(out@) =~= Seq::empty());
        }
        while i < n
            invariant
                i <= n,
                self.wf(),
                self.same_source(*old(self)),
                known == self.lits(),
                read_column_list(old(self).left(), old(self).lits()) == read_columns(
                    start,
                    n as nat,
                    known,
                ),
                read_columns(start, n as nat, known) == prefixed(
                    views(out@),
                    read_columns(self.left(), (n - i) as nat, known),
                ),
            decreases n - i,
        {
            let ghost before = views(out@);
            let c = match self.column() {
                Ok(c) => c,
                Err(e) => {
                    return Err(e);
                },
            };
            proof {
                lemma_prefixed(
                    before,
                    c@,
                    read_columns(self.left(), (n - i - 1) as nat, known),
                );
            }
            out.push(c);
            assert(views(out@) =~= before.push(c@));
            i = i + 1;
        }
        assert(views(out@) + Seq::empty() =~= views(out@));
        Ok(out)
    }

    fn names(&mut self) -> (r: core::result::Result<Vec<String>, Stop>)
        requires
            old(self).wf(),
        ensures
            final(self).wf(),
            final(self).same_source(*old(self)),
            gave_list(r, *final(self), read_names(old(self).left())),
    {
        let n = match self.count() {
            Ok(n) => n,
            Err(e) => {
                return Err(e);
            },
        };
        let ghost start = self.left();
        let mut out: Vec<String> = Vec::new();
        let mut i: usize = 0;
        proof {
            lemma_prefix_unit(read_texts(start, n as nat));
            assert(views(out@) =~= Seq::empty());
        }
        while i < n
            invariant
                i <= n,
                self.wf(),
                self.same_source(*old(self)),
                read_names(old(self).left()) == read_texts(start, n as nat),
                read_texts(start, n as nat) == prefixed(
                    views(out@),
                    read_texts(self.left(), (n - i) as nat),
                ),
            decreases n - i,
        {
            let ghost before = views(out@);
            let c = match self.text() {
                Ok(c) => c,
                Err(e) => {
                    return Err(e);
                },
            };
            proof {
                lemma_prefixed(before, c@, read_texts(self.left(), (n - i - 1) as nat));
            }
            out.push(c);
            assert(views(out@) =~= before.push(c@));
            i = i + 1;
        }
        assert(views(out@) + Seq::empty() =~= views(out@));
        Ok(out)
    }

    fn check(&mut self, depth: usize) -> (r: core::result::Result<CheckExpr, Stop>)
        requires
            old(self).wf(),
            depth <= MAX_CHECK_DEPTH + 1,
        ensures
            final(self).wf(),
            final(self).same_source(*old(self)),
            gave(r, *final(self), read_check(old(self).left(), depth as nat, old(self).lits())),
        decreases MAX_CHECK_DEPTH + 2 - depth, 0nat,
    {
        if depth > MAX_CHECK_DEPTH {
            return Err(Stop::Bad(CatalogCorruption::DepthExceeded));
        }
        let tag = match self.byte() {
            Ok(b) => b,
            Err(e) => {
                return Err(e);
            },
        };
        if tag == CHECK_CMP {
            let col = match self.text() {
                Ok(x) => x,
                Err(e) => {
                    return Err(e);
                },
            };
            let op = match self.op() {
                Ok(x) => x,
                Err(e) => {
                    return Err(e);
                },
            };
            let value = match self.literal() {
                Ok(x) => x,
                Err(e) => {
                    return Err(e);
                },
            };
            Ok(CheckExpr::Cmp { col, op, value })
        } else if tag == CHECK_IS_NULL {
            match self.text() {
                Ok(col) => Ok(CheckExpr::IsNull { col }),
                Err(e) => Err(e),
            }
        } else if tag == CHECK_IS_NOT_NULL {
            match self.text() {
                Ok(col) => Ok(CheckExpr::IsNotNull { col }),
                Err(e) => Err(e),
            }
        } else if tag == CHECK_AND || tag == CHECK_OR {
            let n = match self.count() {
                Ok(n) => n,
                Err(e) => {
                    return Err(e);
                },
            };
            let items = match self.checks(n, depth + 1) {
                Ok(items) => items,
                Err(e) => {
                    return Err(e);
                },
            };
            let check = if tag == CHECK_AND {
                CheckExpr::And(items)
            } else {
                CheckExpr::Or(items)
            };
            proof {
                check.lemma_parts();
            }
            Ok(check)
        } else if tag == CHECK_NOT {
            match self.check(depth + 1) {
                Ok(inner) => Ok(CheckExpr::Not(Box::new(inner))),
                Err(e) => Err(e),
            }
        } else {
            Err(Stop::Bad(CatalogCorruption::BadTag { tag }))
        }
    }

    fn checks(&mut self, n: usize, depth: usize) -> (r: core::result::Result<Vec<CheckExpr>, Stop>)
        requires
            old(self).wf(),
            depth <= MAX_CHECK_DEPTH + 1,
        ensures
            final(self).wf(),
            final(self).same_source(*old(self)),
            gave_list(
                r,
                *final(self),
                read_checks(old(self).left(), n as nat, depth as nat, old(self).lits()),
            ),
        decreases MAX_CHECK_DEPTH + 2 - depth, 1nat,
    {
        let ghost known = self.lits();
        let ghost start = self.left();
        let mut out: Vec<CheckExpr> = Vec::new();
        let mut i: usize = 0;
        proof {
            lemma_prefix_unit(read_checks(start, n as nat, depth as nat, known));
            assert(views(out@) =~= Seq::empty());
        }
        while i < n
            invariant
                i <= n,
                depth <= MAX_CHECK_DEPTH + 1,
                self.wf(),
                self.same_source(*old(self)),
                known == self.lits(),
                start == old(self).left(),
                known == old(self).lits(),
                read_checks(start, n as nat, depth as nat, known) == prefixed(
                    views(out@),
                    read_checks(self.left(), (n - i) as nat, depth as nat, known),
                ),
            decreases n - i,
        {
            let ghost before = views(out@);
            let c = match self.check(depth) {
                Ok(c) => c,
                Err(e) => {
                    return Err(e);
                },
            };
            proof {
                lemma_prefixed(
                    before,
                    c@,
                    read_checks(self.left(), (n - i - 1) as nat, depth as nat, known),
                );
            }
            out.push(c);
            assert(views(out@) =~= before.push(c@));
            i = i + 1;
        }
        assert(views(out@) + Seq::empty() =~= views(out@));
        Ok(out)
    }

    fn index(&mut self) -> (r: core::result::Result<IndexDef, Stop>)
        requires
            old(self).wf(),
        ensures
            final(self).wf(),
            final(self).same_source(*old(self)),
            gave(r, *final(self), read_index(old(self).left())),
    {
        let name = match self.text() {
            Ok(x) => x,
            Err(e) => {
                return Err(e);
            },
        };
        let unique = match self.truth() {
            Ok(x) => x,
            Err(e) => {
                return Err(e);
            },
        };
        let columns = match self.names() {
            Ok(x) => x,
            Err(e) => {
                return Err(e);
            },
        };
        Ok(IndexDef { name, columns, unique })
    }

    fn indexes(&mut self, version: u8) -> (r: core::result::Result<Vec<IndexDef>, Stop>)
        requires
            old(self).wf(),
        ensures
            final(self).wf(),
            final(self).same_source(*old(self)),
            gave_list(r, *final(self), read_index_list(old(self).left(), version)),
    {
        let mut out: Vec<IndexDef> = Vec::new();
        if version == VERSION_NO_INDEXES {
            assert(views(out@) =~= Seq::empty());
            return Ok(out);
        }
        let n = match self.count() {
            Ok(n) => n,
            Err(e) => {
                return Err(e);
            },
        };
        let ghost start = self.left();
        let mut i: usize = 0;
        proof {
            lemma_prefix_unit(read_indexes(start, n as nat));
            assert(views(out@) =~= Seq::empty());
        }
        while i < n
            invariant
                i <= n,
                version != VERSION_NO_INDEXES,
                self.wf(),
                self.same_source(*old(self)),
                read_index_list(old(self).left(), version) == read_indexes(start, n as nat),
                read_indexes(start, n as nat) == prefixed(
                    views(out@),
                    read_indexes(self.left(), (n - i) as nat),
                ),
            decreases n - i,
        {
            let ghost before = views(out@);
            let c = match self.index() {
                Ok(c) => c,
                Err(e) => {
                    return Err(e);
                },
            };
            proof {
                lemma_prefixed(before, c@, read_indexes(self.left(), (n - i - 1) as nat));
            }
            out.push(c);
            assert(views(out@) =~= before.push(c@));
            i = i + 1;
        }
        assert(views(out@) + Seq::empty() =~= views(out@));
        Ok(out)
    }

    fn key(&mut self) -> (r: core::result::Result<ForeignKey, Stop>)
        requires
            old(self).wf(),
        ensures
            final(self).wf(),
            final(self).same_source(*old(self)),
            gave(r, *final(self), read_key(old(self).left())),
    {
        let name = match self.text() {
            Ok(x) => x,
            Err(e) => {
                return Err(e);
            },
        };
        let columns = match self.names() {
            Ok(x) => x,
            Err(e) => {
                return Err(e);
            },
        };
        let parent = match self.text() {
            Ok(x) => x,
            Err(e) => {
                return Err(e);
            },
        };
        let parent_columns = match self.names() {
            Ok(x) => x,
            Err(e) => {
                return Err(e);
            },
        };
        let on_delete = match self.action() {
            Ok(x) => x,
            Err(e) => {
                return Err(e);
            },
        };
        let on_update = match self.action() {
            Ok(x) => x,
            Err(e) => {
                return Err(e);
            },
        };
        Ok(ForeignKey { name, columns, parent, parent_columns, on_delete, on_update })
    }

    fn keys(&mut self, version: u8) -> (r: core::result::Result<Vec<ForeignKey>, Stop>)
        requires
            old(self).wf(),
        ensures
            final(self).wf(),
            final(self).same_source(*old(self)),
            gave_list(r, *final(self), read_key_list(old(self).left(), version)),
    {
        let mut out: Vec<ForeignKey> = Vec::new();
        if version != VERSION {
            assert(views(out@) =~= Seq::empty());
            return Ok(out);
        }
        let n = match self.count() {
            Ok(n) => n,
            Err(e) => {
                return Err(e);
            },
        };
        let ghost start = self.left();
        let mut i: usize = 0;
        proof {
            lemma_prefix_unit(read_keys(start, n as nat));
            assert(views(out@) =~= Seq::empty());
        }
        while i < n
            invariant
                i <= n,
                version == VERSION,
                self.wf(),
                self.same_source(*old(self)),
                read_key_list(old(self).left(), version) == read_keys(start, n as nat),
                read_keys(start, n as nat) == prefixed(
                    views(out@),
                    read_keys(self.left(), (n - i) as nat),
                ),
            decreases n - i,
        {
            let ghost before = views(out@);
            let c = match self.key() {
                Ok(c) => c,
                Err(e) => {
                    return Err(e);
                },
            };
            proof {
                lemma_prefixed(before, c@, read_keys(self.left(), (n - i - 1) as nat));
            }
            out.push(c);
            assert(views(out@) =~= before.push(c@));
            i = i + 1;
        }
        assert(views(out@) + Seq::empty() =~= views(out@));
        Ok(out)
    }

    fn body(&mut self, version: u8) -> (r: core::result::Result<TableDef, Stop>)
        requires
            old(self).wf(),
        ensures
            final(self).wf(),
            final(self).same_source(*old(self)),
            gave(r, *final(self), read_body(old(self).left(), version, old(self).lits())),
    {
        let name = match self.text() {
            Ok(x) => x,
            Err(e) => {
                return Err(e);
            },
        };
        let columns = match self.columns() {
            Ok(x) => x,
            Err(e) => {
                return Err(e);
            },
        };
        let pk = match self.names() {
            Ok(x) => x,
            Err(e) => {
                return Err(e);
            },
        };
        let n = match self.count() {
            Ok(x) => x,
            Err(e) => {
                return Err(e);
            },
        };
        let checks = match self.checks(n, 0) {
            Ok(x) => x,
            Err(e) => {
                return Err(e);
            },
        };
        let indexes = match self.indexes(version) {
            Ok(x) => x,
            Err(e) => {
                return Err(e);
            },
        };
        let foreign_keys = match self.keys(version) {
            Ok(x) => x,
            Err(e) => {
                return Err(e);
            },
        };
        Ok(TableDef { name, columns, pk, checks, indexes, foreign_keys })
    }
}

/// A list behind elements already read.
spec fn prefixed<T>(done: Seq<T>, rest: Read<Seq<T>>) -> Read<Seq<T>> {
    match rest {
        Read::Got(s, l) => Read::Got(done + s, l),
        Read::Wants(b) => Read::Wants(b),
        Read::Bad(e) => Read::Bad(e),
    }
}

proof fn lemma_prefix_unit<T>(r: Read<Seq<T>>)
    ensures
        prefixed(Seq::empty(), r) == r,
{
    if let Read::Got(s, l) = r {
        assert(Seq::empty() + s =~= s);
    }
}

proof fn lemma_prefixed<T>(done: Seq<T>, x: T, rest: Read<Seq<T>>)
    ensures
        prefixed(done, prepend(x, rest)) == prefixed(done.push(x), rest),
{
    if let Read::Got(s, l) = rest {
        assert(done + (seq![x] + s) =~= done.push(x) + s);
    }
}

/// What decoding a stored definition gives.
#[derive(Debug, PartialEq, Eq)]
pub enum Decoded {
    /// The definition.
    Table(TableDef),
    /// The bytes of the next literal that has to be decoded first.
    Literal(Vec<u8>),
}

/// Whether a decoding is what `want` says.
pub open spec fn decodes(r: Result<Decoded>, want: Read<TableV>) -> bool {
    match r {
        Ok(Decoded::Table(t)) => want is Got && want->Got_0 == t@,
        Ok(Decoded::Literal(b)) => want == Read::<TableV>::Wants(b@),
        Err(CatalogError::Corrupt(e)) => want == Read::<TableV>::Bad(e),
        Err(_) => false,
    }
}

/// The views of decoded literals.
pub open spec fn known_views(known: Seq<Option<Value>>) -> Literals {
    Seq::new(known.len(), |i: int| opt(known[i]))
}

/// Decode a stored table definition, given the literals decoded so far: one that
/// did not decode to a single cell is `None`.
pub fn decode_table(bytes: &[u8], known: &Vec<Option<Value>>) -> (r: Result<Decoded>)
    ensures
        decodes(r, read_table(bytes@, known_views(known@))),
{
    let mut r = Reader { bytes, known, pos: 0, met: 0 };
    assert(r.left().bytes =~= bytes@);
    let version = match r.byte() {
        Ok(v) => v,
        Err(e) => {
            return match e {
                Stop::Wants(b) => Ok(Decoded::Literal(b)),
                Stop::Bad(c) => Err(CatalogError::Corrupt(c)),
            };
        },
    };
    if version != VERSION && version != VERSION_NO_FOREIGN_KEYS && version != VERSION_NO_INDEXES {
        return Err(CatalogError::Corrupt(CatalogCorruption::BadVersion { version }));
    }
    let t = match r.body(version) {
        Ok(t) => t,
        Err(e) => {
            return match e {
                Stop::Wants(b) => Ok(Decoded::Literal(b)),
                Stop::Bad(c) => Err(CatalogError::Corrupt(c)),
            };
        },
    };
    if r.pos < bytes.len() {
        return Err(CatalogError::Corrupt(CatalogCorruption::TrailingBytes));
    }
    Ok(Decoded::Table(t))
}

} // verus!
