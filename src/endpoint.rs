//! Per-peer handle: the peer's rank and a writer on its FIFO.
use vstd::prelude::*;

use crate::fifo::{FIFO, RANK_LIMIT};
use crate::shared::SharedRegionMap;
use crate::Rank;

verus! {

/// Info about a given endpoint.
pub struct Endpoint {
    pub rank: Rank,
    pub fifo: FIFO,
}

impl Endpoint {
    pub open spec fn new_spec(rank: Rank) -> Endpoint {
        Endpoint { rank, fifo: FIFO { rank } }
    }

    /// An endpoint whose FIFO is the inbound FIFO of `rank`.
    pub fn new(rank: Rank) -> (r: Endpoint)
        ensures
            r == Endpoint::new_spec(rank),
    {
        Endpoint { rank, fifo: FIFO::new(rank) }
    }

    /// The endpoint targets a rank whose region is in `m`.
    pub open spec fn wf_with(&self, m: &SharedRegionMap) -> bool {
        &&& self.rank < RANK_LIMIT
        &&& m.present(self.rank as int)
        &&& self.fifo.rank == self.rank
    }
}

} // verus!
