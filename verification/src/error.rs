use vstd::prelude::*;

verus! {

/// The failure kinds that archive operations report.
#[derive(Clone, Copy, Debug, PartialEq, Eq, Structural)]
pub enum FctError {
    /// Bad magic bytes, or a truncated or malformed entry header.
    FormatError,
    /// A value does not fit its on-disk field: a file too large for the
    /// 32-bit chunk count, a path too long for its 16-bit length field,
    /// or a chunk size outside the accepted range.
    SizeLimitExceeded,
    /// A read-only source file was refused on append.
    PermissionDenied,
    /// The archive-relative path of a source file could not be resolved.
    PathError,
    /// A requested entry index is beyond the archive's entry count.
    NotFound,
    /// A clean end of the archive was reached while scanning for the next
    /// entry header; this marks normal termination, not a fault.
    EndOfArchive,
}

} // verus!
