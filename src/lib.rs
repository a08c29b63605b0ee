//! The logic of a shared-memory byte-transport layer: ranks on one node
//! exchange fixed-size blocks through per-rank inbound FIFOs whose links are
//! (rank, block id) pairs packed into 64-bit words. The regions, their
//! blocks and the link words are modelled here in process memory, and every
//! operation on them is a sequential step on that model.
use vstd::prelude::*;

pub mod block_store;
pub mod endpoint;
pub mod fifo;
pub mod local_data;
pub mod module;
pub mod shared;
pub mod shared_mem;
pub mod shmem;

verus! {

/// Identity of a process within the job on this node.
pub type Rank = u32;

/// The framework's success code.
pub const OPAL_SUCCESS: i32 = 0;

/// The framework's generic error code.
pub const OPAL_ERROR: i32 = -1;

/// The framework's out-of-resource code.
pub const OPAL_ERR_OUT_OF_RESOURCE: i32 = -2;

/// Errors of the transport.
#[derive(Debug, PartialEq, Eq, Structural)]
pub enum Error {
    /// Out of memory: no free block, or deferred sends still waiting.
    OOM,
    /// Creating or attaching a shared region failed.
    SharedMemoryFailure,
    /// Failed to lock a data structure.
    LockError,
    /// A framework service returned this non-success code.
    OpalError(i32),
    /// A modex lookup succeeded but held no value.
    ModexValueRecvFailure,
}

impl Error {
    /// The integer code the framework sees.
    pub fn code(&self) -> (r: i32)
        ensures
            r == match *self {
                Error::OOM => OPAL_ERR_OUT_OF_RESOURCE,
                Error::OpalError(c) => c,
                _ => OPAL_ERROR,
            },
    {
        match self {
            Error::OOM => OPAL_ERR_OUT_OF_RESOURCE,
            Error::OpalError(c) => *c,
            _ => OPAL_ERROR,
        }
    }
}

} // verus!
