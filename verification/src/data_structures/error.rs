//! The ways in which setting up or driving the cache can fail.
use vstd::prelude::*;

verus! {

/// Why an operation on the cache was refused.
#[derive(Clone, Copy, Debug, PartialEq, Eq, Structural)]
pub enum ZccError {
    /// The pinning limit and the segment size do not fit together, or an
    /// operation was asked of a cache configured for the other mode.
    InvalidConfig,
    /// The memory pool cannot be cut into whole segments.
    InvalidSlab,
    /// The segment is not in the registry.
    SegmentNotFound,
    /// The memory pool did not pin the segment.
    PinFailed,
    /// The memory pool did not release the segment.
    UnpinFailed,
    /// The name is not that of a replacement policy.
    UnknownCacheType,
}

impl ZccError {
    /// A short description of the error, for messages and logs.
    pub fn describe(&self) -> (text: &'static str)
        ensures
            text@ == (match *self {
                ZccError::InvalidConfig => "invalid cache configuration"@,
                ZccError::InvalidSlab => "memory pool is not a whole number of segments"@,
                ZccError::SegmentNotFound => "segment not found"@,
                ZccError::PinFailed => "pinning the segment failed"@,
                ZccError::UnpinFailed => "unpinning the segment failed"@,
                ZccError::UnknownCacheType => "cache type unknown"@,
            }),
    {
        match self {
            ZccError::InvalidConfig => "invalid cache configuration",
            ZccError::InvalidSlab => "memory pool is not a whole number of segments",
            ZccError::SegmentNotFound => "segment not found",
            ZccError::PinFailed => "pinning the segment failed",
            ZccError::UnpinFailed => "unpinning the segment failed",
            ZccError::UnknownCacheType => "cache type unknown",
        }
    }
}

} // verus!
