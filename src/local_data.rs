//! The private state of one rank: its FIFO reader, block store, endpoints,
//! live descriptors and deferred sends.
use vstd::prelude::*;

use crate::block_store::BlockStore;
use crate::endpoint::Endpoint;
use crate::fifo::{BlockID, FIFO, FIFO_FREE, RANK_LIMIT};
use crate::shared::{BlockState, Descriptor, SharedRegionMap, MAX_BLOCKS};
use crate::Rank;

verus! {

/// States in which a block is in its owner's hands: free, held, or waiting
/// on the deferred-send queue.
pub open spec fn owner_side(s: BlockState) -> bool {
    s is Free || s is Held || s is Pending
}

/// The free list `free` of rank `rank` lists exactly its free blocks; its
/// blocks on the owner's side are not marked complete, and those waiting
/// to be sent are unlinked.
pub open spec fn coupled(free: Seq<BlockID>, m: &SharedRegionMap, rank: Rank) -> bool {
    forall|b: int|
        0 <= b < MAX_BLOCKS ==> {
            &&& (#[trigger] m.state(rank as int, b) == BlockState::Free <==> free.contains(b as BlockID))
            &&& owner_side(m.state(rank as int, b)) ==> !m.blk(rank as int, b).complete
            &&& m.state(rank as int, b) == BlockState::Pending ==> m.blk(rank as int, b).next == FIFO_FREE
        }
}

/// Data internal to the transport of one rank.
pub struct LocalData {
    /// The local rank.
    pub rank: Rank,
    /// Local inbound FIFO.
    pub fifo: FIFO,
    /// Local block store.
    pub block_store: BlockStore,
    /// Error handler, as a handle the host understands.
    pub error_cb: Option<usize>,
    /// Endpoints, by slot; a deleted one leaves `None`.
    pub endpoints: Vec<Option<Endpoint>>,
    /// Live descriptors.
    pub descriptors: Vec<Descriptor>,
    /// Deferred sends: (endpoint slot, block id), oldest first.
    pub pending: Vec<(usize, BlockID)>,
}

impl LocalData {
    /// The local data agrees with the map: the free list is exactly the set
    /// of free blocks of the local region, blocks on the owner's side are
    /// not marked complete, deferred blocks are unlinked, listed once, and
    /// bound for live endpoints, endpoints name regions that exist, and each
    /// allocated block has at most one descriptor, a free block none.
    pub open spec fn wf_with(&self, m: &SharedRegionMap) -> bool {
        &&& m.wf()
        &&& self.rank < RANK_LIMIT
        &&& m.present(self.rank as int)
        &&& self.fifo.rank == self.rank
        &&& self.block_store.wf()
        &&& coupled(self.block_store@, m, self.rank)
        &&& forall|i: int|
            0 <= i < self.pending@.len() ==> {
                &&& 0 <= (#[trigger] self.pending@[i]).1 < MAX_BLOCKS
                &&& m.state(self.rank as int, self.pending@[i].1 as int) == BlockState::Pending
            }
        &&& forall|i: int, j: int|
            0 <= i < j < self.pending@.len() ==> (#[trigger] self.pending@[i]).1 != (
            #[trigger] self.pending@[j]).1
        &&& forall|i: int|
            0 <= i < self.endpoints@.len() && (#[trigger] self.endpoints@[i]) is Some
                ==> self.endpoints@[i].unwrap().wf_with(m)
        &&& forall|i: int|
            0 <= i < self.pending@.len() ==> self.has_endpoint((#[trigger] self.pending@[i]).0 as int)
        &&& forall|i: int|
            0 <= i < self.descriptors@.len() ==> {
                &&& (#[trigger] self.descriptors@[i]).rank == self.rank
                &&& 0 <= self.descriptors@[i].block_id < MAX_BLOCKS
                &&& m.state(self.rank as int, self.descriptors@[i].block_id as int) != BlockState::Free
            }
        &&& forall|i: int, j: int|
            0 <= i < j < self.descriptors@.len() ==> (#[trigger] self.descriptors@[i]).block_id != (
            #[trigger] self.descriptors@[j]).block_id
    }

    /// Whether `idx` is the slot of a live endpoint.
    pub open spec fn has_endpoint(&self, idx: int) -> bool {
        0 <= idx < self.endpoints@.len() && self.endpoints@[idx] is Some
    }
}

/// `m1` is `m0` as far as any rank but `rank` can tell: the same regions,
/// and every block of another rank that is on its owner's side, before or
/// after, is unchanged.
pub open spec fn keeps_others(m1: &SharedRegionMap, m0: &SharedRegionMap, rank: Rank) -> bool {
    &&& m1.slots().len() == m0.slots().len()
    &&& forall|r: int| #[trigger] m1.present(r) <==> m0.present(r)
    &&& forall|p: int, b: int|
        #[trigger] m0.has_block(p, b) && p != rank && (owner_side(m0.state(p, b)) || owner_side(
            m1.state(p, b),
        )) ==> m1.state(p, b) == m0.state(p, b) && m1.blk(p, b) == m0.blk(p, b)
}

/// Endpoints that name regions of `m0` name regions of `m1` when both hold
/// the same regions.
pub proof fn lemma_endpoints_carry(eps: Seq<Option<Endpoint>>, m0: &SharedRegionMap, m1: &SharedRegionMap)
    requires
        forall|k: int| 0 <= k < eps.len() && (#[trigger] eps[k]) is Some ==> eps[k].unwrap().wf_with(m0),
        forall|r: int| #[trigger] m1.present(r) <==> m0.present(r),
    ensures
        forall|k: int| 0 <= k < eps.len() && (#[trigger] eps[k]) is Some ==> eps[k].unwrap().wf_with(m1),
{
    assert forall|k: int| 0 <= k < eps.len() && (#[trigger] eps[k]) is Some implies eps[k].unwrap().wf_with(m1) by {
        assert(m0.present(eps[k].unwrap().rank as int));
    }
}

/// The free list still matches after block `b` of `rank` moves between two
/// states that are not free, every other block being framed.
pub proof fn lemma_coupled_keep(free: Seq<BlockID>, m0: &SharedRegionMap, m1: &SharedRegionMap, rank: Rank, b: int)
    requires
        coupled(free, m0, rank),
        m0.present(rank as int),
        m1.frame_except(m0, rank as int, b),
        0 <= b < MAX_BLOCKS,
        m0.state(rank as int, b) != BlockState::Free,
        m1.state(rank as int, b) != BlockState::Free,
        owner_side(m1.state(rank as int, b)) ==> !m1.blk(rank as int, b).complete,
        m1.state(rank as int, b) == BlockState::Pending ==> m1.blk(rank as int, b).next == FIFO_FREE,
    ensures
        coupled(free, m1, rank),
{
    assert forall|b2: int| 0 <= b2 < MAX_BLOCKS implies {
        &&& (#[trigger] m1.state(rank as int, b2) == BlockState::Free <==> free.contains(b2 as BlockID))
        &&& owner_side(m1.state(rank as int, b2)) ==> !m1.blk(rank as int, b2).complete
        &&& m1.state(rank as int, b2) == BlockState::Pending ==> m1.blk(rank as int, b2).next == FIFO_FREE
    } by {
        assert(m0.has_block(rank as int, b2));
        assert(m0.state(rank as int, b2) == BlockState::Free <==> free.contains(b2 as BlockID));
    }
}

/// Freeing block `b` of `rank`, every other block being framed, matches
/// pushing it on the free list.
pub proof fn lemma_coupled_free(free: Seq<BlockID>, m0: &SharedRegionMap, m1: &SharedRegionMap, rank: Rank, b: int)
    requires
        coupled(free, m0, rank),
        m0.present(rank as int),
        m1.frame_except(m0, rank as int, b),
        0 <= b < MAX_BLOCKS,
        m0.state(rank as int, b) != BlockState::Free,
        m1.state(rank as int, b) == BlockState::Free,
        !m1.blk(rank as int, b).complete,
    ensures
        coupled(free.push(b as BlockID), m1, rank),
{
    let f1 = free.push(b as BlockID);
    assert forall|b2: int| 0 <= b2 < MAX_BLOCKS implies {
        &&& (#[trigger] m1.state(rank as int, b2) == BlockState::Free <==> f1.contains(b2 as BlockID))
        &&& owner_side(m1.state(rank as int, b2)) ==> !m1.blk(rank as int, b2).complete
        &&& m1.state(rank as int, b2) == BlockState::Pending ==> m1.blk(rank as int, b2).next == FIFO_FREE
    } by {
        assert(m0.has_block(rank as int, b2));
        assert(m0.state(rank as int, b2) == BlockState::Free <==> free.contains(b2 as BlockID));
        if b2 != b {
            if free.contains(b2 as BlockID) {
                let k = choose|k: int| 0 <= k < free.len() && free[k] == b2 as BlockID;
                assert(f1[k] == b2 as BlockID);
            }
        } else {
            assert(f1[free.len() as int] == b as BlockID);
        }
    }
}

/// Attaching or detaching a region changes nothing that the local data, or
/// another rank, relies on.
pub proof fn lemma_same_regions(ld: &LocalData, m0: &SharedRegionMap, m1: &SharedRegionMap, m2: &SharedRegionMap)
    requires
        ld.wf_with(m1),
        keeps_others(m1, m0, ld.rank),
        m1.same_payloads(m0),
        m2.slots() == m1.slots(),
    ensures
        ld.wf_with(m2),
        keeps_others(m2, m0, ld.rank),
        m2.same_payloads(m0),
        forall|q: int| #[trigger] m2.queue(q) == m1.queue(q),
{
    SharedRegionMap::lemma_same_slots(m1, m2);
    let r = ld.rank as int;
    assert forall|b: int| 0 <= b < MAX_BLOCKS implies {
        &&& (#[trigger] m2.state(r, b) == BlockState::Free <==> ld.block_store@.contains(b as BlockID))
        &&& owner_side(m2.state(r, b)) ==> !m2.blk(r, b).complete
        &&& m2.state(r, b) == BlockState::Pending ==> m2.blk(r, b).next == FIFO_FREE
    } by {
        assert(m1.state(r, b) == BlockState::Free <==> ld.block_store@.contains(b as BlockID));
    }
    assert forall|i: int| 0 <= i < ld.pending@.len() implies {
        &&& 0 <= (#[trigger] ld.pending@[i]).1 < MAX_BLOCKS
        &&& m2.state(r, ld.pending@[i].1 as int) == BlockState::Pending
    } by {
        assert(m1.state(r, ld.pending@[i].1 as int) == BlockState::Pending);
    }
    assert forall|i: int| 0 <= i < ld.descriptors@.len() implies m2.state(
        r,
        (#[trigger] ld.descriptors@[i]).block_id as int,
    ) != BlockState::Free by {
        assert(m1.state(r, ld.descriptors@[i].block_id as int) != BlockState::Free);
    }
    lemma_endpoints_carry(ld.endpoints@, m1, m2);
    assert forall|p: int, b: int|
        #[trigger] m0.has_block(p, b) && p != ld.rank && (owner_side(m0.state(p, b)) || owner_side(
            m2.state(p, b),
        )) implies m2.state(p, b) == m0.state(p, b) && m2.blk(p, b) == m0.blk(p, b) by {
        assert(m1.state(p, b) == m2.state(p, b));
    }
    assert forall|p: int, b: int| #[trigger] m2.has_block(p, b) implies {
        &&& m2.blk(p, b).tag == m0.blk(p, b).tag
        &&& m2.blk(p, b).complete == m0.blk(p, b).complete
        &&& m2.blk(p, b).len == m0.blk(p, b).len
        &&& m2.blk(p, b).data@ == m0.blk(p, b).data@
    } by {
        assert(m1.has_block(p, b));
    }
}

/// Changes that each keep the other ranks' view compose.
pub proof fn lemma_keeps_others_trans(
    m0: &SharedRegionMap,
    m1: &SharedRegionMap,
    m2: &SharedRegionMap,
    rank: Rank,
)
    requires
        keeps_others(m1, m0, rank),
        keeps_others(m2, m1, rank),
    ensures
        keeps_others(m2, m0, rank),
{
    assert forall|p: int, b: int|
        #[trigger] m0.has_block(p, b) && p != rank && (owner_side(m0.state(p, b)) || owner_side(
            m2.state(p, b),
        )) implies m2.state(p, b) == m0.state(p, b) && m2.blk(p, b) == m0.blk(p, b) by {
        assert(m1.has_block(p, b));
    }
}

/// What one rank does to the shared regions leaves every other rank's local
/// data in agreement with them.
pub proof fn lemma_other_rank_unaffected(
    other: &LocalData,
    m0: &SharedRegionMap,
    m1: &SharedRegionMap,
    rank: Rank,
)
    requires
        other.wf_with(m0),
        m1.wf(),
        keeps_others(m1, m0, rank),
        other.rank != rank,
    ensures
        other.wf_with(m1),
{
    let o = other.rank as int;
    assert forall|b: int| 0 <= b < MAX_BLOCKS implies {
        &&& (#[trigger] m1.state(o, b) == BlockState::Free <==> other.block_store@.contains(b as BlockID))
        &&& owner_side(m1.state(o, b)) ==> !m1.blk(o, b).complete
        &&& m1.state(o, b) == BlockState::Pending ==> m1.blk(o, b).next == FIFO_FREE
    } by {
        assert(m0.has_block(o, b));
        assert(m0.state(o, b) == BlockState::Free <==> other.block_store@.contains(b as BlockID));
    }
    assert forall|i: int| 0 <= i < other.pending@.len() implies {
        &&& 0 <= (#[trigger] other.pending@[i]).1 < MAX_BLOCKS
        &&& m1.state(o, other.pending@[i].1 as int) == BlockState::Pending
    } by {
        assert(m0.has_block(o, other.pending@[i].1 as int));
    }
    lemma_endpoints_carry(other.endpoints@, m0, m1);
}

/// A held block of the local rank may be rewritten, as long as it stays
/// well formed, held, and not marked complete.
pub proof fn lemma_held_block_change(ld: &LocalData, m0: &SharedRegionMap, m1: &SharedRegionMap, b: int)
    requires
        ld.wf_with(m0),
        0 <= b < MAX_BLOCKS,
        m0.state(ld.rank as int, b) == BlockState::Held,
        m1.state(ld.rank as int, b) == BlockState::Held,
        m1.agrees_except(m0, ld.rank as int, b),
        m1.blk(ld.rank as int, b).wf(),
        !m1.blk(ld.rank as int, b).complete,
    ensures
        m1.wf(),
        ld.wf_with(m1),
        keeps_others(m1, m0, ld.rank),
{
    let r = ld.rank as int;
    SharedRegionMap::lemma_unqueued_change(m0, m1, r, b);
    assert forall|b2: int| 0 <= b2 < MAX_BLOCKS implies {
        &&& (#[trigger] m1.state(r, b2) == BlockState::Free <==> ld.block_store@.contains(b2 as BlockID))
        &&& owner_side(m1.state(r, b2)) ==> !m1.blk(r, b2).complete
        &&& m1.state(r, b2) == BlockState::Pending ==> m1.blk(r, b2).next == FIFO_FREE
    } by {
        assert(m0.has_block(r, b2));
        assert(m1.has_block(r, b2));
        assert(m0.state(r, b2) == BlockState::Free <==> ld.block_store@.contains(b2 as BlockID));
    }
    assert forall|i: int| 0 <= i < ld.pending@.len() implies {
        &&& 0 <= (#[trigger] ld.pending@[i]).1 < MAX_BLOCKS
        &&& m1.state(r, ld.pending@[i].1 as int) == BlockState::Pending
    } by {
        assert(m0.has_block(r, ld.pending@[i].1 as int));
        assert(m1.has_block(r, ld.pending@[i].1 as int));
    }
    lemma_endpoints_carry(ld.endpoints@, m0, m1);
    assert forall|p: int, b2: int| #[trigger] m0.has_block(p, b2) && p != r implies m1.state(p, b2) == m0.state(p, b2)
        && m1.blk(p, b2) == m0.blk(p, b2) by {
        assert(m1.has_block(p, b2));
    }
}

/// A block that is off its owner's side before and after a change confined
/// to it leaves every rank's free-list coupling, and every other rank's
/// view, as they were.
pub proof fn lemma_in_flight_change(
    free: Seq<BlockID>,
    m0: &SharedRegionMap,
    m1: &SharedRegionMap,
    rank: Rank,
    p: int,
    b: int,
)
    requires
        coupled(free, m0, rank),
        m0.present(rank as int),
        m1.slots().len() == m0.slots().len(),
        forall|r: int| #[trigger] m1.present(r) <==> m0.present(r),
        forall|p2: int, b2: int|
            #[trigger] m1.has_block(p2, b2) && (p2, b2) != (p, b) ==> {
                &&& owner_side(m0.state(p2, b2)) ==> m1.blk(p2, b2) == m0.blk(p2, b2)
                &&& m1.state(p2, b2) == m0.state(p2, b2)
            },
        m0.has_block(p, b),
        !owner_side(m0.state(p, b)),
        !owner_side(m1.state(p, b)),
    ensures
        coupled(free, m1, rank),
        keeps_others(m1, m0, rank),
{
    assert forall|b2: int| 0 <= b2 < MAX_BLOCKS implies {
        &&& (#[trigger] m1.state(rank as int, b2) == BlockState::Free <==> free.contains(b2 as BlockID))
        &&& owner_side(m1.state(rank as int, b2)) ==> !m1.blk(rank as int, b2).complete
        &&& m1.state(rank as int, b2) == BlockState::Pending ==> m1.blk(rank as int, b2).next == FIFO_FREE
    } by {
        assert(m1.has_block(rank as int, b2));
        assert(m0.state(rank as int, b2) == BlockState::Free <==> free.contains(b2 as BlockID));
    }
    assert forall|p2: int, b2: int|
        #[trigger] m0.has_block(p2, b2) && p2 != rank && (owner_side(m0.state(p2, b2)) || owner_side(
            m1.state(p2, b2),
        )) implies m1.state(p2, b2) == m0.state(p2, b2) && m1.blk(p2, b2) == m0.blk(p2, b2) by {
        assert(m1.has_block(p2, b2));
    }
}

/// Exactly one of the four holds.
pub open spec fn exactly_one(a: bool, b: bool, c: bool, d: bool) -> bool {
    (if a { 1int } else { 0 }) + (if b { 1int } else { 0 }) + (if c { 1int } else { 0 }) + (if d {
        1int
    } else {
        0
    }) == 1
}

/// Each block of a rank is in exactly one place: its owner's free list, some
/// FIFO, its owner's hands (allocated, or waiting to be sent), or the hands
/// of the rank processing it.
pub proof fn lemma_block_in_one_place(ld: &LocalData, m: &SharedRegionMap, b: int)
    requires
        ld.wf_with(m),
        0 <= b < MAX_BLOCKS,
    ensures
        exactly_one(
            ld.block_store@.contains(b as BlockID),
            exists|r: int| m.present(r) && #[trigger] m.queue(r).contains((ld.rank, b as BlockID)),
            m.state(ld.rank as int, b) is Held || m.state(ld.rank as int, b) is Pending,
            m.state(ld.rank as int, b) is Processing,
        ),
{
    let rk = ld.rank as int;
    assert(m.has_block(rk, b));
    assert(m.state_wf(rk, b));
    let on_fifo = exists|r: int| m.present(r) && #[trigger] m.queue(r).contains((ld.rank, b as BlockID));
    if on_fifo {
        let r = choose|r: int| m.present(r) && #[trigger] m.queue(r).contains((ld.rank, b as BlockID));
        m.lemma_on_one_fifo(rk, b, r);
    }
    if m.state(rk, b) is Queued {
        let r = m.state(rk, b)->Queued_0 as int;
        assert(m.present(r) && m.queue(r).contains((ld.rank, b as BlockID)));
    }
}

/// A block of a rank that is on the owner's side is never marked complete:
/// the mark only travels with a block on its way home.
pub proof fn lemma_owner_side_not_complete(ld: &LocalData, m: &SharedRegionMap, b: int)
    requires
        ld.wf_with(m),
        0 <= b < MAX_BLOCKS,
        owner_side(m.state(ld.rank as int, b)),
    ensures
        !m.blk(ld.rank as int, b).complete,
{
}

/// With every block of the rank allocated, its free list is empty, so the
/// next allocation returns nothing.
pub proof fn lemma_all_allocated_store_empty(ld: &LocalData, m: &SharedRegionMap)
    requires
        ld.wf_with(m),
        forall|b: int| 0 <= b < MAX_BLOCKS ==> #[trigger] m.state(ld.rank as int, b) != BlockState::Free,
    ensures
        ld.block_store@.len() == 0,
{
    if ld.block_store@.len() > 0 {
        let b = ld.block_store@[0];
        assert(ld.block_store@.contains(b));
        assert(0 <= b < MAX_BLOCKS);
        assert(m.state(ld.rank as int, b as int) == BlockState::Free);
    }
}

} // verus!
