use vstd::prelude::*;

verus! {

/// Limits and starting point for the segments of a log.
#[derive(Clone, Copy, Debug)]
pub struct InitSegment {
    /// A segment whose store has reached this many bytes is full.
    pub max_store_bytes: u64,
    /// The length to which every index file is pre-sized; a segment whose
    /// index has reached this many bytes is full.
    pub max_index_bytes: u64,
    /// The offset of the first record of an empty log.
    pub initial_offset: u64,
}

/// Configuration of a log.
#[derive(Clone, Copy, Debug)]
pub struct Config {
    pub segment: InitSegment,
}

/// The limit that stands in for a limit given as zero.
pub const DEFAULT_MAX_BYTES: u64 = 1024;

impl Config {
    /// The configuration with each zero limit replaced by the default.
    pub open spec fn spec_with_defaults(self) -> Config {
        Config {
            segment: InitSegment {
                max_store_bytes: if self.segment.max_store_bytes == 0 {
                    DEFAULT_MAX_BYTES
                } else {
                    self.segment.max_store_bytes
                },
                max_index_bytes: if self.segment.max_index_bytes == 0 {
                    DEFAULT_MAX_BYTES
                } else {
                    self.segment.max_index_bytes
                },
                initial_offset: self.segment.initial_offset,
            },
        }
    }

    /// Replaces each limit given as zero by the default limit.
    pub fn with_defaults(self) -> (out: Config)
        ensures
            out == self.spec_with_defaults(),
    {
        let mut out = self;
        if out.segment.max_store_bytes == 0 {
            out.segment.max_store_bytes = DEFAULT_MAX_BYTES;
        }
        if out.segment.max_index_bytes == 0 {
            out.segment.max_index_bytes = DEFAULT_MAX_BYTES;
        }
        out
    }
}

} // verus!
