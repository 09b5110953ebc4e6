//! Query protocol, AST, and IR: the wire boundary of the engine.
//!
//! - Wire-level decoding — the hardened MessagePack document layer: size, depth
//!   and node limits enforced before allocation, reserved/ext bytes, non-string
//!   and duplicate map keys, and trailing bytes all rejected.
//! - The typed AST for both surface forms (pipeline + clause), expressions, and
//!   DML; the strict mapping of documents that rejects unknown nodes and fields,
//!   and the canonical encoding.
//! - The logical-plan IR both surfaces lower into.
//! - Result encoding, the error-result shape, and the opaque keyset cursor-token
//!   envelope.
//!
//! Queries are data, never code: any node type outside the grammar is a typed
//! validation error.

pub mod error;
pub mod wire;
pub mod encode;
pub mod limits;
pub mod ast;
pub mod grammar;
pub mod request;
pub mod select;
pub mod render;
pub mod roundtrip;
pub mod inverse;
pub mod strict;
pub mod canonical;
pub mod reading;
pub mod result;
pub mod ir;

pub use self::ast::{
    AggFunc, ArithOp, ClauseSelect, CmpOp, Delete, Dir, Expr, Insert, JoinKind, JoinSpec,
    Projection, Request, Select, Selector, SortKey, Stage, TableRef, Update,
};
pub use self::encode::encode_doc;
pub use self::error::{ProtoError, Result};
pub use self::ir::Plan;
pub use self::render::encode_request;
pub use self::request::PROTOCOL_VERSION;
pub use self::result::{
    decode_cursor_token, encode_cursor_token, encode_error_result, encode_result, QueryResult,
};
pub use self::select::{decode_request, request_from_doc};
pub use self::wire::{decode_doc, DecodeLimits, Doc};
