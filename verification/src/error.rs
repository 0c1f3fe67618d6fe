//! The failures that building, loading and querying a graph can report.

use vstd::prelude::*;

verus! {

/// Every way in which an operation of this crate can fail.
///
/// Each variant carries the values that identify what was wrong.
#[derive(Clone, Copy, Debug, PartialEq, Eq, Structural)]
pub enum GraphError {
    /// The file could not be opened or read; `os_code` is the operating
    /// system's error number where it gave one.
    IoError { os_code: Option<i32> },
    /// The image does not start with the magic bytes, or its segment table
    /// contradicts the fixed layout.
    MalformedHeader,
    /// The image was written in a format version later than `supported`.
    UnsupportedVersion { found: u32, supported: u32 },
    /// A range of `len` bytes at `offset` was declared, but the image holds
    /// only `file_len` bytes.
    TruncatedFile { offset: u64, len: u64, file_len: u64 },
    /// Segment number `segment` starts at `offset`, which is not a multiple of
    /// the width of its elements.
    AlignmentError { segment: usize, offset: u64 },
    /// Entry number `entry` of the offset index in segment `segment` breaks
    /// the rules of an offset index.
    CorruptIndex { segment: usize, entry: u64 },
    /// A node id that is not below the node count `count`.
    NodeOutOfRange { id: u64, count: u64 },
    /// A path id that is not below the path count `count`.
    PathOutOfRange { id: u64, count: u64 },
    /// The name of path `path` is not valid UTF-8.
    InvalidUtf8 { path: u64 },
    /// An edge from node `from` to node `to` names a node that does not exist.
    DanglingEdge { from: u64, to: u64 },
}

} // verus!
