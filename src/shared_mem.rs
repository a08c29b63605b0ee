//! Descriptions of a node-wide shared segment and of the header of a block in it.
use vstd::prelude::*;

verus! {

/// Options that name and size a node-wide shared segment.
#[derive(Clone, Debug)]
pub struct SharedMemoryOptions {
    pub backing_directory: String,
    pub num_local_peers: u32,
    pub node_name: String,
    pub node_rank: u16,
    pub euid: u32,
    pub jobid: u32,
}

/// Header in front of the body of a block of the segment.
#[derive(Clone, Copy, Debug, PartialEq, Eq, Structural)]
pub struct BlockHeader {
    /// Local rank of the sender.
    pub src: u16,
    pub tag: u8,
    /// Index of the next block in a list, or -1.
    pub next: isize,
    pub len: usize,
}

} // verus!
