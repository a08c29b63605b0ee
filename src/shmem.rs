//! A shared-memory segment handle described by its options.
use vstd::prelude::*;

verus! {

/// Where and for whom a segment is made.
pub struct SegmentOptions {
    pub backing_directory: String,
    pub nodename: String,
    pub euid: u32,
    pub jobid: u32,
    pub node_rank: u32,
}

/// A shared-memory segment.
#[derive(PartialEq, Eq, Structural)]
pub struct Segment;

impl Segment {
    /// Create a new shared memory segment.
    pub fn create(opts: SegmentOptions, size: usize) -> (r: Segment)
        ensures
            r == Segment,
    {
        Segment
    }
}

} // verus!
