//! A verified core for a CRDT-document extension of an in-memory
//! key-value server.
//!
//! Each server key holds one client: a CRDT document handle together
//! with a buffer of raw change blobs not yet drained by the host.  The
//! core compiles JSON-style path strings into segments, navigates and
//! mutates the document tree with auto-creation of interior maps,
//! captures the raw bytes of every locally produced change, ingests
//! foreign changes, and snapshots the document to and from opaque
//! bytes.  The CRDT engine itself is an outside collaborator, reached
//! only through the narrow trusted interface in `engine`.

use vstd::prelude::*;

pub mod path;
pub mod table;
pub mod sem;
pub mod engine;
pub mod diff;
pub mod client;
pub mod laws;

pub use client::RedisAutomergeClient;
pub use client::RedisAutomergeExt;
pub use path::Segment;
pub use table::Scalar;

verus! {

/// Error kinds of the core.  `WrongArity` and the raw argument
/// decoding of the host protocol stay with the host adapter.
#[derive(Clone, Copy, Debug, PartialEq, Eq, Structural)]
pub enum AmError {
    /// The path string fails the grammar, names no leaf where one
    /// is required, or ends in a list index where a key is required.
    BadPath,
    /// A create-maps walk hit a scalar (or a list where a key was
    /// required) where an interior map was needed.
    PathTypeMismatch,
    /// A walk referenced a list position that does not exist.
    IndexOutOfRange,
    /// The path does not resolve to a value of the expected shape.
    NotFound,
    /// The value at the path has a different scalar type.
    TypeMismatch,
    /// A double argument does not parse as a floating-point number.
    InvalidValue,
    /// Bytes that the CRDT engine cannot accept as changes or as a
    /// snapshot.
    InvalidChange,
    /// A unified-diff hunk did not align with the stored text.
    DiffMismatch,
}

} // verus!
