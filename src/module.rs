//! The transport operations of one rank, on its local data and the regions.
use vstd::prelude::*;

use crate::block_store::BlockStore;
use crate::endpoint::Endpoint;
use crate::fifo::{BlockID, FIFO, FIFO_FREE, RANK_LIMIT};
use crate::local_data::{
    coupled, keeps_others, lemma_same_regions, lemma_coupled_free, lemma_coupled_keep, lemma_endpoints_carry, lemma_in_flight_change, lemma_held_block_change, lemma_keeps_others_trans, owner_side, LocalData,
};
use crate::shared::{Block, BlockState, Descriptor, SharedRegion, SharedRegionMap, BLOCK_SIZE, MAX_BLOCKS};
use crate::{Error, Rank};

verus! {

/// Whether deferred send `e` goes to a live endpoint, in `eps`, of rank `q`.
pub open spec fn targets(eps: Seq<Option<Endpoint>>, e: (usize, BlockID), q: int) -> bool {
    &&& e.0 < eps.len()
    &&& eps[e.0 as int] is Some
    &&& eps[e.0 as int].unwrap().rank == q
}

/// Whether slot `i` of `eps` holds a live endpoint of rank `q`.
pub open spec fn serves(eps: Seq<Option<Endpoint>>, i: int, q: int) -> bool {
    &&& 0 <= i < eps.len()
    &&& eps[i] is Some
    &&& eps[i].unwrap().rank == q
}

/// The blocks of `rank` that the deferred sends `pending` link, in order,
/// into the FIFO of rank `q`.
pub open spec fn sent_to(pending: Seq<(usize, BlockID)>, eps: Seq<Option<Endpoint>>, rank: Rank, q: int) -> Seq<
    (Rank, BlockID),
>
    decreases pending.len(),
{
    if pending.len() == 0 {
        Seq::empty()
    } else {
        let prev = sent_to(pending.drop_last(), eps, rank, q);
        if targets(eps, pending.last(), q) {
            prev.push((rank, pending.last().1))
        } else {
            prev
        }
    }
}

/// What the progress engine hands to the caller for one popped block, to
/// run outside the local-data lock.
pub enum HandlerKind {
    /// A block of this rank came back; the descriptor that was live for it,
    /// if any, has been unregistered and travels here.
    CompleteCallback(Option<Descriptor>),
    /// A message arrived: its tag, the slot of the endpoint of its sender if
    /// one is live, and its payload.
    ReceiveCallback(u8, Option<usize>, Vec<u8>),
}

/// A popped block and what to do with it.
pub struct Handler {
    pub rank: Rank,
    pub block_id: BlockID,
    pub kind: HandlerKind,
}

/// The valid payload of a block.
fn copy_payload(blk: &Block) -> (r: Vec<u8>)
    requires
        blk.wf(),
    ensures
        r@ == blk.data@.subrange(0, blk.len as int),
{
    let mut out: Vec<u8> = Vec::new();
    let mut i: usize = 0;
    while i < blk.len
        invariant
            blk.wf(),
            i <= blk.len,
            out@ == blk.data@.subrange(0, i as int),
        decreases blk.len - i,
    {
        out.push(blk.data[i]);
        i = i + 1;
        assert(out@ =~= blk.data@.subrange(0, i as int));
    }
    out
}

/// How a process of the job relates to this one.
#[derive(PartialEq, Eq, Structural)]
pub enum PeerKind {
    /// Another job, or another node: not reachable through shared memory.
    Unreachable,
    /// This process itself.
    Myself,
    /// A process of the same job on the same node: a peer.
    Peer,
}

/// Classify a process from its job id, whether it is on this node, and
/// whether it is this process.
pub fn classify_proc(my_jobid: u32, proc_jobid: u32, on_local_node: bool, is_self: bool) -> (r: PeerKind)
    ensures
        (proc_jobid != my_jobid || !on_local_node) ==> r == PeerKind::Unreachable,
        (proc_jobid == my_jobid && on_local_node && is_self) ==> r == PeerKind::Myself,
        (proc_jobid == my_jobid && on_local_node && !is_self) ==> r == PeerKind::Peer,
{
    if proc_jobid != my_jobid || !on_local_node {
        PeerKind::Unreachable
    } else if is_self {
        PeerKind::Myself
    } else {
        PeerKind::Peer
    }
}

/// One more deferred send extends what was sent by that send alone.
proof fn lemma_step(pend: Seq<(usize, BlockID)>, i: int, eps: Seq<Option<Endpoint>>, rank: Rank)
    requires
        0 <= i < pend.len(),
    ensures
        forall|q: int|
            #[trigger] sent_to(pend.take(i + 1), eps, rank, q) == if targets(eps, pend[i], q) {
                sent_to(pend.take(i), eps, rank, q).push((rank, pend[i].1))
            } else {
                sent_to(pend.take(i), eps, rank, q)
            },
{
    assert(pend.take(i + 1).drop_last() =~= pend.take(i));
    assert(pend.take(i + 1).last() == pend[i]);
}

/// What the loop over deferred sends keeps after linking send `i`.
proof fn lemma_dispatch_step(
    m0: &SharedRegionMap,
    m1: &SharedRegionMap,
    m2: &SharedRegionMap,
    pend: Seq<(usize, BlockID)>,
    i: int,
    eps: Seq<Option<Endpoint>>,
    rank: Rank,
)
    requires
        0 <= i < pend.len(),
        m1.present(rank as int),
        forall|k: int| 0 <= k < pend.len() ==> 0 <= (#[trigger] pend[k]).1 < MAX_BLOCKS,
        forall|k: int, l: int| 0 <= k < l < pend.len() ==> (#[trigger] pend[k]).1 != (#[trigger] pend[l]).1,
        forall|k: int|
            i <= k < pend.len() ==> m1.state(rank as int, (#[trigger] pend[k]).1 as int) == BlockState::Pending,
        forall|k: int| 0 <= k < eps.len() && (#[trigger] eps[k]) is Some ==> eps[k].unwrap().wf_with(m1),
        keeps_others(m1, m0, rank),
        keeps_others(m2, m1, rank),
        m1.same_payloads(m0),
        m2.same_payloads(m1),
        forall|q: int| #[trigger] m1.present(q) <==> m0.present(q),
        forall|p: int, b2: int|
            #[trigger] m1.has_block(p, b2) && (p, b2) != (rank as int, pend[i].1 as int) ==> m2.state(p, b2)
                == m1.state(p, b2),
        forall|q: int|
            #[trigger] m0.present(q) ==> m1.queue(q) == m0.queue(q) + sent_to(pend.take(i), eps, rank, q),
        forall|q: int|
            #[trigger] m1.present(q) ==> m2.queue(q) == if targets(eps, pend[i], q) {
                m1.queue(q).push((rank, pend[i].1))
            } else {
                m1.queue(q)
            },
    ensures
        forall|k: int|
            i + 1 <= k < pend.len() ==> m2.state(rank as int, (#[trigger] pend[k]).1 as int)
                == BlockState::Pending,
        forall|k: int| 0 <= k < eps.len() && (#[trigger] eps[k]) is Some ==> eps[k].unwrap().wf_with(m2),
        keeps_others(m2, m0, rank),
        m2.same_payloads(m0),
        forall|q: int|
            #[trigger] m0.present(q) ==> m2.queue(q) == m0.queue(q) + sent_to(pend.take(i + 1), eps, rank, q),
{
    lemma_keeps_others_trans(m0, m1, m2, rank);
    SharedRegionMap::lemma_same_payloads_trans(m0, m1, m2);
    lemma_queues_step(m0, m1, m2, pend, i, eps, rank);
    assert forall|k: int| i + 1 <= k < pend.len() implies m2.state(rank as int, (#[trigger] pend[k]).1 as int)
        == BlockState::Pending by {
        assert(pend[i].1 != pend[k].1);
        assert(m1.has_block(rank as int, pend[k].1 as int));
    }
    assert forall|k: int| 0 <= k < eps.len() && (#[trigger] eps[k]) is Some implies eps[k].unwrap().wf_with(m2) by {
        assert(m1.present(eps[k].unwrap().rank as int));
    }
}

/// The FIFO contents after one more deferred send.
proof fn lemma_queues_step(
    m0: &SharedRegionMap,
    m1: &SharedRegionMap,
    m2: &SharedRegionMap,
    pend: Seq<(usize, BlockID)>,
    i: int,
    eps: Seq<Option<Endpoint>>,
    rank: Rank,
)
    requires
        0 <= i < pend.len(),
        forall|q: int| #[trigger] m1.present(q) <==> m0.present(q),
        forall|q: int|
            #[trigger] m0.present(q) ==> m1.queue(q) == m0.queue(q) + sent_to(pend.take(i), eps, rank, q),
        forall|q: int|
            #[trigger] m1.present(q) ==> m2.queue(q) == if targets(eps, pend[i], q) {
                m1.queue(q).push((rank, pend[i].1))
            } else {
                m1.queue(q)
            },
    ensures
        forall|q: int|
            #[trigger] m0.present(q) ==> m2.queue(q) == m0.queue(q) + sent_to(pend.take(i + 1), eps, rank, q),
{
    lemma_step(pend, i, eps, rank);
    assert forall|q: int| #[trigger] m0.present(q) implies m2.queue(q) == m0.queue(q) + sent_to(
        pend.take(i + 1),
        eps,
        rank,
        q,
    ) by {
        assert(m1.present(q));
        if targets(eps, pend[i], q) {
            assert(m2.queue(q) =~= m0.queue(q) + sent_to(pend.take(i + 1), eps, rank, q));
        }
    }
}

impl LocalData {
    /// Set up rank `rank`: create its region, insert it in the map, and
    /// build local data whose only endpoint, in slot 0, is the rank itself.
    pub fn init(map: &mut SharedRegionMap, rank: Rank) -> (r: LocalData)
        requires
            old(map).wf(),
            rank < RANK_LIMIT,
            !old(map).present(rank as int),
        ensures
            r.wf_with(final(map)),
            r.rank == rank,
            r.block_store@ == Seq::new(MAX_BLOCKS as nat, |i: int| i as BlockID),
            r.endpoints@.len() == 1,
            r.endpoints@[0] == Some(Endpoint::new_spec(rank)),
            r.descriptors@.len() == 0,
            r.pending@.len() == 0,
            r.error_cb is None,
            final(map).reg(rank as int).fresh(),
            forall|q: int| #[trigger] final(map).present(q) <==> (old(map).present(q) || q == rank),
            forall|q: int| #[trigger] old(map).present(q) ==> final(map).reg(q) == old(map).reg(q),
    {
        let region = SharedRegion::new();
        map.insert(rank, region);
        let mut endpoints: Vec<Option<Endpoint>> = Vec::new();
        endpoints.push(Some(Endpoint::new(rank)));
        let data = LocalData {
            rank,
            fifo: FIFO::new(rank),
            block_store: BlockStore::new(),
            error_cb: None,
            endpoints,
            descriptors: Vec::new(),
            pending: Vec::new(),
        };
        proof {
            let m = *map;
            assert forall|b: int| 0 <= b < MAX_BLOCKS implies (#[trigger] m.state(rank as int, b)
                == BlockState::Free <==> data.block_store@.contains(b as BlockID)) by {
                assert(data.block_store@[b] == b as BlockID);
            }
        }
        data
    }

    /// Add an endpoint for `rank`, whose region is in the map, and return its slot.
    pub fn add_endpoint(&mut self, map: &SharedRegionMap, rank: Rank) -> (r: usize)
        requires
            old(self).wf_with(map),
            map.present(rank as int),
            rank < RANK_LIMIT,
            old(self).endpoints@.len() < usize::MAX,
        ensures
            final(self).wf_with(map),
            r == old(self).endpoints@.len(),
            final(self).endpoints@ == old(self).endpoints@.push(Some(Endpoint::new_spec(rank))),
            *final(self) == (LocalData { endpoints: final(self).endpoints, ..*old(self) }),
    {
        self.endpoints.push(Some(Endpoint::new(rank)));
        self.endpoints.len() - 1
    }

    /// Delete the endpoint in slot `endpoint_idx`, detach its rank's region
    /// from this process, and return that rank; `None` when the slot holds no
    /// endpoint. Deferred sends go out first, as in a progress pass, so none
    /// is left bound for the deleted slot.
    #[verifier::spinoff_prover]
    pub fn del_endpoint(&mut self, map: &mut SharedRegionMap, endpoint_idx: usize) -> (r: Option<Rank>)
        requires
            old(self).wf_with(old(map)),
        ensures
            final(self).wf_with(final(map)),
            keeps_others(final(map), old(map), old(self).rank),
            final(map).same_payloads(old(map)),
            final(self).pending@.len() == 0,
            forall|q: int|
                #[trigger] old(map).present(q) ==> final(map).queue(q) == old(map).queue(q) + sent_to(
                    old(self).pending@,
                    old(self).endpoints@,
                    old(self).rank,
                    q,
                ),
            old(self).pending@.len() == 0 ==> final(map).slots() == old(map).slots(),
            !old(self).has_endpoint(endpoint_idx as int) ==> r is None && final(self).endpoints
                == old(self).endpoints,
            r matches Some(q) ==> !final(map).is_attached(q),
            old(self).has_endpoint(endpoint_idx as int) ==> {
                &&& r == Some(old(self).endpoints@[endpoint_idx as int].unwrap().rank)
                &&& final(self).endpoints@ == old(self).endpoints@.update(endpoint_idx as int, None)
            },
            *final(self) == (LocalData {
                endpoints: final(self).endpoints,
                pending: final(self).pending,
                ..*old(self)
            }),
    {
        let ghost m0 = *map;
        self.progress_pending(map);
        let r = self.drop_endpoint(map, endpoint_idx);
        let ghost m1 = *map;
        if let Some(q) = r {
            map.detach(q);
        }
        proof {
            lemma_same_regions(self, &m0, &m1, map);
        }
        r
    }

    /// Empty slot `endpoint_idx`, once no deferred send is left.
    fn drop_endpoint(&mut self, map: &SharedRegionMap, endpoint_idx: usize) -> (r: Option<Rank>)
        requires
            old(self).wf_with(map),
            old(self).pending@.len() == 0,
        ensures
            final(self).wf_with(map),
            !old(self).has_endpoint(endpoint_idx as int) ==> r is None && *final(self) == *old(self),
            old(self).has_endpoint(endpoint_idx as int) ==> {
                &&& r == Some(old(self).endpoints@[endpoint_idx as int].unwrap().rank)
                &&& final(self).endpoints@ == old(self).endpoints@.update(endpoint_idx as int, None)
            },
            *final(self) == (LocalData { endpoints: final(self).endpoints, ..*old(self) }),
    {
        if endpoint_idx >= self.endpoints.len() || self.endpoints[endpoint_idx].is_none() {
            return None;
        }
        let ep = self.endpoints[endpoint_idx].take();
        Some(ep.unwrap().rank)
    }

    /// Store the error callback.
    pub fn register_error(&mut self, cbfunc: Option<usize>)
        ensures
            *final(self) == (LocalData { error_cb: cbfunc, ..*old(self) }),
    {
        self.error_cb = cbfunc;
    }

    /// Slot of the first live descriptor for `(rank, block_id)`.
    pub fn find_descriptor(&self, rank: Rank, block_id: BlockID) -> (r: Option<usize>)
        ensures
            r is None ==> forall|i: int|
                0 <= i < self.descriptors@.len() ==> !(#[trigger] self.descriptors@[i]).names(rank, block_id),
            r matches Some(i) ==> i < self.descriptors@.len() && self.descriptors@[i as int].names(rank, block_id)
                && forall|j: int| 0 <= j < i ==> !(#[trigger] self.descriptors@[j]).names(rank, block_id),
    {
        let mut i: usize = 0;
        while i < self.descriptors.len()
            invariant
                i <= self.descriptors@.len(),
                forall|j: int| 0 <= j < i ==> !(#[trigger] self.descriptors@[j]).names(rank, block_id),
            decreases self.descriptors@.len() - i,
        {
            if self.descriptors[i].rank == rank && self.descriptors[i].block_id == block_id {
                return Some(i);
            }
            i = i + 1;
        }
        None
    }

    /// Unregister the first descriptor for `(rank, block_id)` and return it.
    pub fn free_descriptor(&mut self, map: &SharedRegionMap, rank: Rank, block_id: BlockID) -> (r: Option<
        Descriptor,
    >)
        requires
            old(self).wf_with(map),
        ensures
            final(self).wf_with(map),
            r is None ==> *final(self) == *old(self) && forall|i: int|
                0 <= i < old(self).descriptors@.len() ==> !(#[trigger] old(self).descriptors@[i]).names(
                    rank,
                    block_id,
                ),
            r is Some ==> exists|i: int|
                0 <= i < old(self).descriptors@.len() && r == Some(old(self).descriptors@[i])
                    && old(self).descriptors@[i].names(rank, block_id) && (forall|j: int|
                    0 <= j < i ==> !(#[trigger] old(self).descriptors@[j]).names(rank, block_id))
                    && final(self).descriptors@ == old(self).descriptors@.remove(i),
            *final(self) == (LocalData { descriptors: final(self).descriptors, ..*old(self) }),
    {
        match self.find_descriptor(rank, block_id) {
            Some(i) => {
                let d = self.descriptors.remove(i);
                proof {
                    assert forall|k: int| 0 <= k < self.descriptors@.len() implies (
                    #[trigger] self.descriptors@[k]).rank == self.rank && 0 <= self.descriptors@[k].block_id
                        < MAX_BLOCKS by {
                        if k < i {
                            assert(self.descriptors@[k] == old(self).descriptors@[k]);
                        } else {
                            assert(self.descriptors@[k] == old(self).descriptors@[k + 1]);
                        }
                    }
                    let ds = self.descriptors@;
                    let os = old(self).descriptors@;
                    assert forall|k: int, l: int| 0 <= k < l < ds.len() implies (#[trigger] ds[k]).block_id != (
                    #[trigger] ds[l]).block_id by {
                        let k0 = if k < i { k } else { k + 1 };
                        let l0 = if l < i { l } else { l + 1 };
                        assert(ds[k] == os[k0] && ds[l] == os[l0]);
                    }
                }
                Some(d)
            },
            None => None,
        }
    }

    /// Create the descriptor of local block `block_id` and register it.
    pub fn new_descriptor(&mut self, map: &SharedRegionMap, block_id: BlockID) -> (r: Descriptor)
        requires
            old(self).wf_with(map),
            0 <= block_id < MAX_BLOCKS,
            map.state(old(self).rank as int, block_id as int) != BlockState::Free,
            forall|i: int|
                0 <= i < old(self).descriptors@.len() ==> (#[trigger] old(self).descriptors@[i]).block_id
                    != block_id,
        ensures
            final(self).wf_with(map),
            r == Descriptor::fresh(old(self).rank, block_id, map.blk(old(self).rank as int, block_id as int).len),
            final(self).descriptors@ == old(self).descriptors@.push(r),
            *final(self) == (LocalData { descriptors: final(self).descriptors, ..*old(self) }),
    {
        let d = map.init_descriptor(self.rank, block_id);
        self.descriptors.push(d);
        proof {
            let ds = self.descriptors@;
            assert forall|i: int, j: int| 0 <= i < j < ds.len() implies (#[trigger] ds[i]).block_id != (
            #[trigger] ds[j]).block_id by {
                assert(ds[i] == old(self).descriptors@[i]);
                if j < ds.len() - 1 {
                    assert(ds[j] == old(self).descriptors@[j]);
                }
            }
        }
        d
    }
    /// Take a block from the free list and mark it held.
    fn take_block(&mut self, map: &mut SharedRegionMap) -> (r: Option<BlockID>)
        requires
            old(self).wf_with(old(map)),
        ensures
            final(self).wf_with(final(map)),
            keeps_others(final(map), old(map), old(self).rank),
            old(self).block_store@.len() == 0 ==> r is None && *final(self) == *old(self) && *final(map)
                == *old(map),
            old(self).block_store@.len() > 0 ==> {
                let b = old(self).block_store@.last();
                &&& r == Some(b)
                &&& 0 <= b < MAX_BLOCKS
                &&& old(map).state(old(self).rank as int, b as int) == BlockState::Free
                &&& forall|i: int|
                    0 <= i < old(self).descriptors@.len() ==> (#[trigger] old(self).descriptors@[i]).block_id
                        != b
                &&& final(self).block_store@ == old(self).block_store@.drop_last()
                &&& final(map).agrees_except(old(map), old(self).rank as int, b as int)
                &&& final(map).blk(old(self).rank as int, b as int) == old(map).blk(old(self).rank as int, b as int)
                &&& final(map).state(old(self).rank as int, b as int) == BlockState::Held
            },
            *final(self) == (LocalData { block_store: final(self).block_store, ..*old(self) }),
    {
        let ghost m0 = *map;
        let ghost r = self.rank as int;
        if self.block_store.len() == 0 {
            return None;
        }
        match self.block_store.allocate() {
            None => None,
            Some(b) => {
                proof {
                    let s0 = old(self).block_store@;
                    assert(s0.contains(s0.last()));
                    assert(m0.state(r, b as int) == BlockState::Free);
                }
                map.set_state(self.rank, b, Ghost(BlockState::Held));
                proof {
                    let m1 = *map;
                    assert(m1.agrees_except(&m0, r, b as int)) by {
                        assert forall|q: int| #[trigger] m1.present(q) implies m1.reg(q).fifo == m0.reg(q).fifo
                            && m1.queue(q) == m0.queue(q) by {}
                    }
                    SharedRegionMap::lemma_unqueued_change(&m0, &m1, r, b as int);
                    let s0 = old(self).block_store@;
                    let s1 = self.block_store@;
                    assert forall|b2: int| 0 <= b2 < MAX_BLOCKS implies {
                        &&& (#[trigger] m1.state(r, b2) == BlockState::Free <==> s1.contains(b2 as BlockID))
                        &&& owner_side(m1.state(r, b2)) ==> !m1.blk(r, b2).complete
                        &&& m1.state(r, b2) == BlockState::Pending ==> m1.blk(r, b2).next == FIFO_FREE
                    } by {
                        assert(m0.has_block(r, b2));
                        assert(m0.state(r, b2) == BlockState::Free <==> s0.contains(b2 as BlockID));
                        if b2 != b as int {
                            if s0.contains(b2 as BlockID) {
                                let k = choose|k: int| 0 <= k < s0.len() && s0[k] == b2 as BlockID;
                                assert(k != s0.len() - 1);
                                assert(s1[k] == b2 as BlockID);
                            }
                        } else {
                            if s1.contains(b2 as BlockID) {
                                let k = choose|k: int| 0 <= k < s1.len() && s1[k] == b2 as BlockID;
                                assert(s0[k] == s0[s0.len() - 1]);
                            }
                        }
                    }
                    assert forall|i: int| 0 <= i < self.pending@.len() implies {
                        &&& 0 <= (#[trigger] self.pending@[i]).1 < MAX_BLOCKS
                        &&& m1.state(r, self.pending@[i].1 as int) == BlockState::Pending
                    } by {
                        assert(m0.has_block(r, self.pending@[i].1 as int));
                    }
                    lemma_endpoints_carry(self.endpoints@, &m0, &m1);
                    assert forall|p: int, b2: int| #[trigger] m0.has_block(p, b2) && p != r implies m1.state(p, b2)
                        == m0.state(p, b2) && m1.blk(p, b2) == m0.blk(p, b2) by {
                        assert(m1.has_block(p, b2));
                    }
                }
                Some(b)
            },
        }
    }

    /// Allocate a local block with a payload length of `size` and register
    /// its descriptor; `None` when no block is free.
    pub fn allocate(&mut self, map: &mut SharedRegionMap, size: usize) -> (r: Option<Descriptor>)
        requires
            old(self).wf_with(old(map)),
            size <= BLOCK_SIZE,
        ensures
            final(self).wf_with(final(map)),
            keeps_others(final(map), old(map), old(self).rank),
            old(self).block_store@.len() == 0 ==> r is None && *final(self) == *old(self) && *final(map)
                == *old(map),
            old(self).block_store@.len() > 0 ==> {
                let b = old(self).block_store@.last();
                let rk = old(self).rank as int;
                &&& r == Some(Descriptor::fresh(old(self).rank, b, size))
                &&& final(self).block_store@ == old(self).block_store@.drop_last()
                &&& final(self).descriptors@ == old(self).descriptors@.push(r.unwrap())
                &&& final(map).agrees_except(old(map), rk, b as int)
                &&& final(map).state(rk, b as int) == BlockState::Held
                &&& final(map).blk(rk, b as int).len == size
                &&& final(map).blk(rk, b as int).data@ == old(map).blk(rk, b as int).data@
            },
            *final(self) == (LocalData {
                block_store: final(self).block_store,
                descriptors: final(self).descriptors,
                ..*old(self)
            }),
    {
        let ghost m0 = *map;
        let b = match self.take_block(map) {
            Some(b) => b,
            None => return None,
        };
        let ghost m1 = *map;
        map.block_mut(self.rank, b).len = size;
        proof {
            let m2 = *map;
            assert(m2.agrees_except(&m1, self.rank as int, b as int)) by {
                assert forall|q: int| #[trigger] m2.present(q) implies m2.reg(q).fifo == m1.reg(q).fifo
                    && m2.queue(q) == m1.queue(q) by {}
            }
            lemma_held_block_change(self, &m1, &m2, b as int);
            lemma_keeps_others_trans(&m0, &m1, &m2, self.rank);
            SharedRegionMap::lemma_agrees_trans(&m0, &m1, &m2, self.rank as int, b as int);
        }
        Some(self.new_descriptor(map, b))
    }
    /// Allocate a local block, leave `reserve` bytes at its start, and write
    /// the packed `payload` after them; register and return its descriptor.
    /// `None` when no block is free.
    pub fn prepare_src(&mut self, map: &mut SharedRegionMap, reserve: usize, payload: &[u8]) -> (r:
        Option<Descriptor>)
        requires
            old(self).wf_with(old(map)),
            reserve + payload@.len() <= BLOCK_SIZE,
        ensures
            final(self).wf_with(final(map)),
            keeps_others(final(map), old(map), old(self).rank),
            old(self).block_store@.len() == 0 ==> r is None && *final(self) == *old(self) && *final(map)
                == *old(map),
            old(self).block_store@.len() > 0 ==> {
                let b = old(self).block_store@.last();
                let rk = old(self).rank as int;
                let len = reserve + payload@.len();
                &&& r == Some(Descriptor::fresh(old(self).rank, b, len as usize))
                &&& final(self).block_store@ == old(self).block_store@.drop_last()
                &&& final(self).descriptors@ == old(self).descriptors@.push(r.unwrap())
                &&& final(map).agrees_except(old(map), rk, b as int)
                &&& final(map).state(rk, b as int) == BlockState::Held
                &&& final(map).blk(rk, b as int).len == len
                &&& final(map).blk(rk, b as int).data@.subrange(reserve as int, len) == payload@
                &&& final(map).blk(rk, b as int).data@.subrange(0, reserve as int) == old(map).blk(
                    rk,
                    b as int,
                ).data@.subrange(0, reserve as int)
            },
            *final(self) == (LocalData {
                block_store: final(self).block_store,
                descriptors: final(self).descriptors,
                ..*old(self)
            }),
    {
        let ghost m0 = *map;
        let b = match self.take_block(map) {
            Some(b) => b,
            None => return None,
        };
        let ghost m1 = *map;
        proof {
            assert(m1.has_block(self.rank as int, b as int));
            assert(m1.reg(self.rank as int).blocks@[b as int].wf());
        }
        map.block_mut(self.rank, b).prepare_fill(reserve, payload);
        proof {
            let m2 = *map;
            assert(m2.agrees_except(&m1, self.rank as int, b as int)) by {
                assert forall|q: int| #[trigger] m2.present(q) implies m2.reg(q).fifo == m1.reg(q).fifo
                    && m2.queue(q) == m1.queue(q) by {}
            }
            lemma_held_block_change(self, &m1, &m2, b as int);
            lemma_keeps_others_trans(&m0, &m1, &m2, self.rank);
            SharedRegionMap::lemma_agrees_trans(&m0, &m1, &m2, self.rank as int, b as int);
        }
        Some(self.new_descriptor(map, b))
    }

    /// Unregister and drop the descriptor `des` of a local block. The block
    /// itself is not freed: it comes back when its receiver returns it.
    pub fn free(&mut self, map: &SharedRegionMap, des: &Descriptor)
        requires
            old(self).wf_with(map),
            des.rank == old(self).rank,
        ensures
            final(self).wf_with(map),
            (forall|i: int|
                0 <= i < old(self).descriptors@.len() ==> !(#[trigger] old(self).descriptors@[i]).names(
                    des.rank,
                    des.block_id,
                )) ==> *final(self) == *old(self),
            (exists|i: int|
                0 <= i < old(self).descriptors@.len() && old(self).descriptors@[i].names(des.rank, des.block_id))
                ==> exists|i: int|
                0 <= i < old(self).descriptors@.len() && old(self).descriptors@[i].names(des.rank, des.block_id)
                    && (forall|j: int|
                    0 <= j < i ==> !(#[trigger] old(self).descriptors@[j]).names(des.rank, des.block_id))
                    && final(self).descriptors@ == old(self).descriptors@.remove(i),
            *final(self) == (LocalData { descriptors: final(self).descriptors, ..*old(self) }),
    {
        let _ = self.free_descriptor(map, des.rank, des.block_id);
    }
    /// Deferred send: stamp block `des.block_id` with `tag`, unlink it, and
    /// queue it for endpoint slot `endpoint_idx`. The next progress pass
    /// links it into that endpoint's FIFO.
    pub fn send(&mut self, map: &mut SharedRegionMap, endpoint_idx: usize, des: &Descriptor, tag: u8)
        requires
            old(self).wf_with(old(map)),
            des.rank == old(self).rank,
            0 <= des.block_id < MAX_BLOCKS,
            old(map).state(old(self).rank as int, des.block_id as int) == BlockState::Held,
            old(self).has_endpoint(endpoint_idx as int),
        ensures
            final(self).wf_with(final(map)),
            keeps_others(final(map), old(map), old(self).rank),
            final(map).agrees_except(old(map), old(self).rank as int, des.block_id as int),
            final(map).state(old(self).rank as int, des.block_id as int) == BlockState::Pending,
            final(map).blk(old(self).rank as int, des.block_id as int) == (Block {
                tag,
                next: FIFO_FREE,
                ..old(map).blk(old(self).rank as int, des.block_id as int)
            }),
            final(self).pending@ == old(self).pending@.push((endpoint_idx, des.block_id)),
            *final(self) == (LocalData { pending: final(self).pending, ..*old(self) }),
    {
        let ghost m0 = *map;
        let ghost r = self.rank as int;
        let b = des.block_id;
        proof {
            assert(m0.has_block(r, b as int));
            assert(m0.reg(r).blocks@[b as int].wf());
        }
        {
            let blk = map.block_mut(self.rank, b);
            blk.tag = tag;
            blk.next = FIFO_FREE;
        }
        map.set_state(self.rank, b, Ghost(BlockState::Pending));
        self.pending.push((endpoint_idx, b));
        proof {
            let m1 = *map;
            assert(m1.agrees_except(&m0, r, b as int)) by {
                assert forall|q: int| #[trigger] m1.present(q) implies m1.reg(q).fifo == m0.reg(q).fifo
                    && m1.queue(q) == m0.queue(q) by {}
            }
            SharedRegionMap::lemma_unqueued_change(&m0, &m1, r, b as int);
            SharedRegionMap::lemma_frame_from_agrees(&m0, &m1, r, b as int);
            lemma_coupled_keep(self.block_store@, &m0, &m1, self.rank, b as int);
            let p0 = old(self).pending@;
            let p1 = self.pending@;
            assert forall|i: int| 0 <= i < p1.len() implies {
                &&& 0 <= (#[trigger] p1[i]).1 < MAX_BLOCKS
                &&& m1.state(r, p1[i].1 as int) == BlockState::Pending
            } by {
                if i < p0.len() {
                    assert(p1[i] == p0[i]);
                    assert(m0.has_block(r, p0[i].1 as int));
                    assert(m1.has_block(r, p0[i].1 as int));
                }
            }
            assert forall|i: int, j: int| 0 <= i < j < p1.len() implies (#[trigger] p1[i]).1 != (
            #[trigger] p1[j]).1 by {
                assert(p1[i] == p0[i]);
                if j < p0.len() {
                    assert(p1[j] == p0[j]);
                } else {
                    assert(m0.state(r, p0[i].1 as int) == BlockState::Pending);
                }
            }
            lemma_endpoints_carry(self.endpoints@, &m0, &m1);
            assert forall|p: int, b2: int| #[trigger] m0.has_block(p, b2) && p != r implies m1.state(p, b2)
                == m0.state(p, b2) && m1.blk(p, b2) == m0.blk(p, b2) by {
                assert(m1.has_block(p, b2));
            }
        }
    }
    /// Send at once: refuse with `Error::OOM` while deferred sends wait or
    /// when no block is free; otherwise fill a block with `header` followed
    /// by `payload`, stamp it with `tag`, and link it into the FIFO of the
    /// endpoint in slot `endpoint_idx`. When `want_descriptor` holds, the
    /// block's descriptor is registered and returned.
    pub fn send_immediate(
        &mut self,
        map: &mut SharedRegionMap,
        endpoint_idx: usize,
        header: &[u8],
        payload: &[u8],
        tag: u8,
        want_descriptor: bool,
    ) -> (r: Result<Option<Descriptor>, Error>)
        requires
            old(self).wf_with(old(map)),
            old(self).has_endpoint(endpoint_idx as int),
            header@.len() + payload@.len() <= BLOCK_SIZE,
        ensures
            final(self).wf_with(final(map)),
            keeps_others(final(map), old(map), old(self).rank),
            (old(self).pending@.len() > 0 || old(self).block_store@.len() == 0) ==> r == Err::<
                Option<Descriptor>,
                Error,
            >(Error::OOM) && *final(self) == *old(self) && *final(map) == *old(map),
            (old(self).pending@.len() == 0 && old(self).block_store@.len() > 0) ==> {
                let b = old(self).block_store@.last();
                let rk = old(self).rank as int;
                let dest = old(self).endpoints@[endpoint_idx as int].unwrap().rank;
                let len = (header@.len() + payload@.len()) as int;
                let blk = final(map).blk(rk, b as int);
                &&& r == Ok::<Option<Descriptor>, Error>(
                    if want_descriptor {
                        Some(Descriptor::fresh(old(self).rank, b, len as usize))
                    } else {
                        None
                    },
                )
                &&& final(self).block_store@ == old(self).block_store@.drop_last()
                &&& final(self).descriptors@ == if want_descriptor {
                    old(self).descriptors@.push(r.unwrap().unwrap())
                } else {
                    old(self).descriptors@
                }
                &&& final(map).queue(dest as int) == old(map).queue(dest as int).push((old(self).rank, b))
                &&& forall|q: int|
                    #[trigger] old(map).present(q) && q != dest ==> final(map).queue(q) == old(map).queue(q)
                &&& final(map).state(rk, b as int) == BlockState::Queued(dest)
                &&& final(map).frame_except(old(map), rk, b as int)
                &&& blk.tag == tag
                &&& !blk.complete
                &&& blk.len == len
                &&& blk.data@.subrange(0, header@.len() as int) == header@
                &&& blk.data@.subrange(header@.len() as int, len) == payload@
            },
            *final(self) == (LocalData {
                block_store: final(self).block_store,
                descriptors: final(self).descriptors,
                ..*old(self)
            }),
    {
        if self.pending.len() > 0 {
            return Err(Error::OOM);
        }
        let ghost m0 = *map;
        let ghost r = self.rank as int;
        let b = match self.take_block(map) {
            Some(b) => b,
            None => return Err(Error::OOM),
        };
        let ghost m1 = *map;
        proof {
            assert(m1.has_block(r, b as int));
            assert(m1.reg(r).blocks@[b as int].wf());
        }
        {
            let blk = map.block_mut(self.rank, b);
            blk.tag = tag;
            blk.complete = false;
            blk.fill(header, payload);
            blk.next = FIFO_FREE;
        }
        let ghost m2 = *map;
        proof {
            assert(m2.agrees_except(&m1, r, b as int)) by {
                assert forall|q: int| #[trigger] m2.present(q) implies m2.reg(q).fifo == m1.reg(q).fifo
                    && m2.queue(q) == m1.queue(q) by {}
            }
            lemma_held_block_change(self, &m1, &m2, b as int);
            lemma_keeps_others_trans(&m0, &m1, &m2, self.rank);
            assert(m2.has_block(r, b as int));
        }
        let ghost dest = self.endpoints@[endpoint_idx as int].unwrap().rank;
        match &self.endpoints[endpoint_idx] {
            Some(ep) => ep.fifo.push(map, self.rank, b),
            None => {},
        }
        proof {
            let m3 = *map;
            lemma_coupled_keep(self.block_store@, &m2, &m3, self.rank, b as int);
            lemma_endpoints_carry(self.endpoints@, &m2, &m3);
            assert(keeps_others(&m3, &m2, self.rank)) by {
                assert forall|p: int, b2: int|
                    #[trigger] m2.has_block(p, b2) && p != r && (owner_side(m2.state(p, b2)) || owner_side(
                        m3.state(p, b2),
                    )) implies m3.state(p, b2) == m2.state(p, b2) && m3.blk(p, b2) == m2.blk(p, b2) by {}
            }
            lemma_keeps_others_trans(&m0, &m2, &m3, self.rank);
            assert(m3.blk(r, b as int) == m2.blk(r, b as int));
            assert(m3.queue(dest as int) == m2.queue(dest as int).push((self.rank, b)));
            SharedRegionMap::lemma_agrees_trans(&m0, &m1, &m2, r, b as int);
            SharedRegionMap::lemma_frame_from_agrees(&m0, &m2, r, b as int);
            SharedRegionMap::lemma_frame_trans(&m0, &m2, &m3, r, b as int);
            assert(m2.queue(dest as int) == m0.queue(dest as int));
            assert(m3.blk(r, b as int).len == header@.len() + payload@.len());
            assert forall|q: int| #[trigger] m0.present(q) && q != dest implies m3.queue(q) == m0.queue(q) by {
                assert(m2.present(q));
            }
        }
        if want_descriptor {
            Ok(Some(self.new_descriptor(map, b)))
        } else {
            Ok(None)
        }
    }
    /// Link deferred block `b` into the FIFO of the endpoint in slot `ep_idx`.
    fn dispatch(&self, map: &mut SharedRegionMap, ep_idx: usize, b: BlockID)
        requires
            old(map).wf(),
            self.rank < RANK_LIMIT,
            old(map).present(self.rank as int),
            self.block_store.wf(),
            coupled(self.block_store@, old(map), self.rank),
            0 <= b < MAX_BLOCKS,
            old(map).state(self.rank as int, b as int) == BlockState::Pending,
            self.has_endpoint(ep_idx as int),
            forall|k: int|
                0 <= k < self.endpoints@.len() && (#[trigger] self.endpoints@[k]) is Some
                    ==> self.endpoints@[k].unwrap().wf_with(old(map)),
        ensures
            final(map).wf(),
            final(map).same_payloads(old(map)),
            coupled(self.block_store@, final(map), self.rank),
            keeps_others(final(map), old(map), self.rank),
            final(map).state(self.rank as int, b as int) is Queued,
            forall|p: int, b2: int|
                #[trigger] old(map).has_block(p, b2) && (p, b2) != (self.rank as int, b as int)
                    ==> final(map).state(p, b2) == old(map).state(p, b2),
            forall|q: int|
                #[trigger] old(map).present(q) ==> final(map).queue(q) == if targets(
                    self.endpoints@,
                    (ep_idx, b),
                    q,
                ) {
                    old(map).queue(q).push((self.rank, b))
                } else {
                    old(map).queue(q)
                },
    {
        let ghost m1 = *map;
        let ghost r = self.rank as int;
        let ghost st1 = self.block_store@;
        let ghost eps = self.endpoints@;
        proof {
            assert(m1.has_block(r, b as int));
            assert(!st1.contains(b));
            assert(eps[ep_idx as int].unwrap().wf_with(&m1));
        }
        match &self.endpoints[ep_idx] {
            Some(ep) => ep.fifo.push(map, self.rank, b),
            None => {},
        }
        proof {
            let m2 = *map;
            lemma_coupled_keep(st1, &m1, &m2, self.rank, b as int);
            assert(keeps_others(&m2, &m1, self.rank)) by {
                assert forall|p: int, b2: int|
                    #[trigger] m1.has_block(p, b2) && p != r && (owner_side(m1.state(p, b2)) || owner_side(
                        m2.state(p, b2),
                    )) implies m2.state(p, b2) == m1.state(p, b2) && m2.blk(p, b2) == m1.blk(p, b2) by {}
            }
        }
    }

    /// Dispatch every deferred send, oldest first, leaving the list itself in place.
    #[verifier::spinoff_prover]
    #[verifier::rlimit(60)]
    fn dispatch_all(&self, map: &mut SharedRegionMap)
        requires
            self.wf_with(old(map)),
        ensures
            final(map).wf(),
            final(map).same_payloads(old(map)),
            coupled(self.block_store@, final(map), self.rank),
            keeps_others(final(map), old(map), self.rank),
            forall|q: int|
                #[trigger] old(map).present(q) ==> final(map).queue(q) == old(map).queue(q) + sent_to(
                    self.pending@,
                    self.endpoints@,
                    self.rank,
                    q,
                ),
    {
        let ghost m0 = *map;
        let ghost r = self.rank as int;
        let ghost pend = self.pending@;
        let ghost eps = self.endpoints@;
        proof {
            assert forall|k: int|
                0 <= k < pend.len() implies 0 <= (#[trigger] pend[k]).1 < MAX_BLOCKS && m0.state(r, pend[k].1 as int)
                == BlockState::Pending by {}
            assert(pend.take(0) =~= Seq::<(usize, BlockID)>::empty());
            SharedRegionMap::lemma_same_payloads_refl(&m0);
        }
        let mut i: usize = 0;
        while i < self.pending.len()
            invariant
                map.wf(),
                self.pending@ == pend,
                self.endpoints@ == eps,
                self.rank as int == r,
                self.rank < RANK_LIMIT,
                self.block_store.wf(),
                i <= pend.len(),
                map.present(r),
                coupled(self.block_store@, map, self.rank),
                forall|k: int| 0 <= k < pend.len() ==> 0 <= (#[trigger] pend[k]).1 < MAX_BLOCKS,
                forall|k: int|
                    0 <= k < pend.len() ==> (#[trigger] pend[k]).0 < eps.len() && eps[pend[k].0 as int] is Some,
                forall|k: int, l: int| 0 <= k < l < pend.len() ==> (#[trigger] pend[k]).1 != (#[trigger] pend[l]).1,
                forall|k: int|
                    i <= k < pend.len() ==> map.state(r, (#[trigger] pend[k]).1 as int) == BlockState::Pending,
                forall|k: int|
                    0 <= k < eps.len() && (#[trigger] eps[k]) is Some ==> eps[k].unwrap().wf_with(map),
                keeps_others(map, &m0, self.rank),
                map.same_payloads(&m0),
                forall|q: int|
                    #[trigger] m0.present(q) ==> map.queue(q) == m0.queue(q) + sent_to(
                        pend.take(i as int),
                        eps,
                        self.rank,
                        q,
                    ),
            decreases pend.len() - i,
        {
            let (ep_idx, b) = self.pending[i];
            let ghost m1 = *map;
            self.dispatch(map, ep_idx, b);
            proof {
                lemma_dispatch_step(&m0, &m1, map, pend, i as int, eps, self.rank);
            }
            i = i + 1;
        }
        proof {
            assert(pend.take(pend.len() as int) =~= pend);
        }
    }

    /// Progress, phase A: link every deferred send, oldest first, into the
    /// FIFO of its endpoint.
    pub fn progress_pending(&mut self, map: &mut SharedRegionMap)
        requires
            old(self).wf_with(old(map)),
        ensures
            final(self).wf_with(final(map)),
            keeps_others(final(map), old(map), old(self).rank),
            final(self).pending@.len() == 0,
            forall|q: int|
                #[trigger] old(map).present(q) ==> final(map).queue(q) == old(map).queue(q) + sent_to(
                    old(self).pending@,
                    old(self).endpoints@,
                    old(self).rank,
                    q,
                ),
            final(map).same_payloads(old(map)),
            old(self).pending@.len() == 0 ==> *final(map) == *old(map) && *final(self) == *old(self),
            *final(self) == (LocalData { pending: final(self).pending, ..*old(self) }),
    {
        if self.pending.len() == 0 {
            return;
        }
        let ghost m0 = *map;
        self.dispatch_all(map);
        self.pending.clear();
        proof {
            assert forall|k: int|
                0 <= k < self.endpoints@.len() && (#[trigger] self.endpoints@[k]) is Some implies self.endpoints@[k].unwrap().wf_with(
                map,
            ) by {
                assert(old(self).endpoints@[k].unwrap().wf_with(&m0));
            }
            assert forall|k: int| 0 <= k < self.descriptors@.len() implies map.state(
                self.rank as int,
                (#[trigger] self.descriptors@[k]).block_id as int,
            ) != BlockState::Free by {
                let d = self.descriptors@[k].block_id as int;
                assert(m0.state(self.rank as int, d) != BlockState::Free);
                assert(m0.state(self.rank as int, d) == BlockState::Free <==> self.block_store@.contains(
                    d as BlockID,
                ));
            }
        }
    }

    /// Slot of the first live endpoint of `rank`.
    pub fn find_endpoint(&self, rank: Rank) -> (r: Option<usize>)
        ensures
            r is None ==> forall|i: int|
                0 <= i < self.endpoints@.len() ==> !#[trigger] serves(self.endpoints@, i, rank as int),
            r matches Some(i) ==> serves(self.endpoints@, i as int, rank as int) && forall|j: int|
                0 <= j < i ==> !#[trigger] serves(self.endpoints@, j, rank as int),
    {
        let mut i: usize = 0;
        while i < self.endpoints.len()
            invariant
                i <= self.endpoints@.len(),
                forall|j: int| 0 <= j < i ==> !#[trigger] serves(self.endpoints@, j, rank as int),
            decreases self.endpoints@.len() - i,
        {
            match &self.endpoints[i] {
                Some(ep) => {
                    if ep.rank == rank {
                        return Some(i);
                    }
                },
                None => {},
            }
            i = i + 1;
        }
        None
    }

    /// Progress, phase B, under the lock: pop the head of the local FIFO.
    /// A block marked complete is one of this rank's coming back: its
    /// descriptor is unregistered and handed over. Any other block is an
    /// incoming message: its tag, sender endpoint and payload are handed
    /// over. `None` when the FIFO is empty.
    pub fn poll(&mut self, map: &mut SharedRegionMap) -> (r: Option<Handler>)
        requires
            old(self).wf_with(old(map)),
        ensures
            final(self).wf_with(final(map)),
            keeps_others(final(map), old(map), old(self).rank),
            old(map).queue(old(self).rank as int).len() == 0 ==> r is None && *final(self) == *old(self)
                && *final(map) == *old(map),
            old(map).queue(old(self).rank as int).len() > 0 ==> {
                let e = old(map).queue(old(self).rank as int)[0];
                let blk = old(map).blk(e.0 as int, e.1 as int);
                &&& r is Some
                &&& r.unwrap().rank == e.0
                &&& r.unwrap().block_id == e.1
                &&& final(map).queue(old(self).rank as int) == old(map).queue(old(self).rank as int).drop_first()
                &&& forall|q: int|
                    #[trigger] old(map).present(q) && q != old(self).rank ==> final(map).queue(q) == old(
                        map,
                    ).queue(q)
                &&& final(map).state(e.0 as int, e.1 as int) == BlockState::Processing(old(self).rank)
                &&& final(map).has_block(e.0 as int, e.1 as int)
                &&& final(map).blk(e.0 as int, e.1 as int) == blk
                &&& final(map).frame_except(old(map), e.0 as int, e.1 as int)
                &&& blk.complete ==> {
                    &&& e.0 == old(self).rank
                    &&& r.unwrap().kind matches HandlerKind::CompleteCallback(d)
                    &&& (d is None ==> *final(self) == *old(self))
                    &&& (d is None ==> forall|i: int|
                        0 <= i < old(self).descriptors@.len() ==> !(#[trigger] old(
                            self,
                        ).descriptors@[i]).names(e.0, e.1))
                    &&& (d is Some ==> exists|i: int|
                        0 <= i < old(self).descriptors@.len() && d == Some(old(self).descriptors@[i])
                            && old(self).descriptors@[i].names(e.0, e.1) && final(self).descriptors@
                            == old(self).descriptors@.remove(i))
                    &&& (forall|i: int|
                        0 <= i < final(self).descriptors@.len()
                            ==> !(#[trigger] final(self).descriptors@[i]).names(e.0, e.1))
                    &&& *final(self) == (LocalData { descriptors: final(self).descriptors, ..*old(self) })
                }
                &&& !blk.complete ==> {
                    &&& r.unwrap().kind matches HandlerKind::ReceiveCallback(tag, ep, payload)
                    &&& tag == blk.tag
                    &&& payload@ == blk.data@.subrange(0, blk.len as int)
                    &&& (ep matches Some(i) ==> serves(old(self).endpoints@, i as int, e.0 as int))
                    &&& (ep is None ==> forall|i: int|
                        0 <= i < old(self).endpoints@.len() ==> !#[trigger] serves(old(self).endpoints@, i, e.0 as int))
                    &&& *final(self) == *old(self)
                }
            },
    {
        let ghost m0 = *map;
        let ghost r = self.rank as int;
        let ghost e = m0.queue(r)[0];
        let popped = self.fifo.pop(map);
        let (rank, block_id) = match popped {
            None => return None,
            Some(e) => e,
        };
        let ghost m1 = *map;
        proof {
            assert(m0.fifo_wf(r));
            assert(m0.has_block(e.0 as int, e.1 as int));
            assert(m0.state(e.0 as int, e.1 as int) == BlockState::Queued(self.rank));
            assert forall|p2: int, b2: int|
                #[trigger] m1.has_block(p2, b2) && (p2, b2) != (e.0 as int, e.1 as int) implies {
                &&& m1.blk(p2, b2) == m0.blk(p2, b2)
                &&& m1.state(p2, b2) == m0.state(p2, b2)
            } by {
                assert(m0.has_block(p2, b2));
            }
            lemma_in_flight_change(self.block_store@, &m0, &m1, self.rank, e.0 as int, e.1 as int);
            assert forall|i: int| 0 <= i < self.pending@.len() implies {
                &&& 0 <= (#[trigger] self.pending@[i]).1 < MAX_BLOCKS
                &&& m1.state(r, self.pending@[i].1 as int) == BlockState::Pending
            } by {
                assert(m0.has_block(r, self.pending@[i].1 as int));
            }
            lemma_endpoints_carry(self.endpoints@, &m0, &m1);
            assert(self.wf_with(&m1));
            assert(m0.blk(e.0 as int, e.1 as int).complete ==> e.0 == self.rank);
            assert(m1.reg(rank as int).blocks@[block_id as int].wf());
        }
        let blk = &map.region(rank).blocks[block_id as usize];
        if blk.complete {
            let ghost ds0 = self.descriptors@;
            let d = self.free_descriptor(map, rank, block_id);
            proof {
                let ds1 = self.descriptors@;
                if d is Some {
                    let i = choose|i: int|
                        0 <= i < ds0.len() && d == Some(ds0[i]) && ds0[i].names(rank, block_id) && ds1
                            == ds0.remove(i);
                    assert forall|k: int| 0 <= k < ds1.len() implies !(#[trigger] ds1[k]).names(rank, block_id) by {
                        if k < i {
                            assert(ds1[k] == ds0[k]);
                            assert(ds0[k].block_id != ds0[i].block_id);
                        } else {
                            assert(ds1[k] == ds0[k + 1]);
                            assert(ds0[i].block_id != ds0[k + 1].block_id);
                        }
                    }
                }
            }
            Some(Handler { rank, block_id, kind: HandlerKind::CompleteCallback(d) })
        } else {
            let tag = blk.tag;
            let payload = copy_payload(blk);
            let ep = self.find_endpoint(rank);
            Some(Handler { rank, block_id, kind: HandlerKind::ReceiveCallback(tag, ep, payload) })
        }
    }
    /// Progress, phase B, after the callback: commit what `handler` stands
    /// for. An incoming message is marked complete, unlinked, and pushed back
    /// onto its sender's FIFO (returns `true`); a returned block is cleared,
    /// unlinked, and freed (returns `false`).
    pub fn finish(&mut self, map: &mut SharedRegionMap, handler: Handler) -> (r: bool)
        requires
            old(self).wf_with(old(map)),
            old(map).has_block(handler.rank as int, handler.block_id as int),
            old(map).state(handler.rank as int, handler.block_id as int) == BlockState::Processing(
                old(self).rank,
            ),
            handler.kind is CompleteCallback ==> handler.rank == old(self).rank,
            handler.kind is CompleteCallback ==> forall|i: int|
                0 <= i < old(self).descriptors@.len() ==> (#[trigger] old(self).descriptors@[i]).block_id
                    != handler.block_id,
        ensures
            final(self).wf_with(final(map)),
            keeps_others(final(map), old(map), old(self).rank),
            r == handler.kind is ReceiveCallback,
            final(map).frame_except(old(map), handler.rank as int, handler.block_id as int),
            handler.kind is ReceiveCallback ==> {
                &&& final(map).blk(handler.rank as int, handler.block_id as int) == (Block {
                    complete: true,
                    next: FIFO_FREE,
                    ..old(map).blk(handler.rank as int, handler.block_id as int)
                })
                &&& final(map).state(handler.rank as int, handler.block_id as int) == BlockState::Queued(
                    handler.rank,
                )
                &&& final(map).queue(handler.rank as int) == old(map).queue(handler.rank as int).push(
                    (handler.rank, handler.block_id),
                )
                &&& forall|q: int|
                    #[trigger] old(map).present(q) && q != handler.rank ==> final(map).queue(q) == old(
                        map,
                    ).queue(q)
                &&& *final(self) == *old(self)
            },
            handler.kind is CompleteCallback ==> {
                &&& final(map).blk(handler.rank as int, handler.block_id as int) == (Block {
                    complete: false,
                    next: FIFO_FREE,
                    ..old(map).blk(handler.rank as int, handler.block_id as int)
                })
                &&& final(map).state(handler.rank as int, handler.block_id as int) == BlockState::Free
                &&& forall|q: int| #[trigger] old(map).present(q) ==> final(map).queue(q) == old(map).queue(q)
                &&& final(self).block_store@ == old(self).block_store@.push(handler.block_id)
                &&& *final(self) == (LocalData { block_store: final(self).block_store, ..*old(self) })
            },
    {
        let ghost m0 = *map;
        let ghost r = self.rank as int;
        let p = handler.rank;
        let b = handler.block_id;
        let incoming = match handler.kind {
            HandlerKind::ReceiveCallback(..) => true,
            HandlerKind::CompleteCallback(..) => false,
        };
        proof {
            assert(m0.reg(p as int).blocks@[b as int].wf());
        }
        {
            let blk = map.block_mut(p, b);
            blk.complete = incoming;
            blk.next = FIFO_FREE;
        }
        let ghost m1 = *map;
        proof {
            assert(m1.agrees_except(&m0, p as int, b as int)) by {
                assert forall|q: int| #[trigger] m1.present(q) implies m1.reg(q).fifo == m0.reg(q).fifo
                    && m1.queue(q) == m0.queue(q) by {}
            }
            SharedRegionMap::lemma_unqueued_change(&m0, &m1, p as int, b as int);
            lemma_in_flight_change(self.block_store@, &m0, &m1, self.rank, p as int, b as int);
        }
        if incoming {
            FIFO::new(p).push(map, p, b);
            proof {
                let m2 = *map;
                assert forall|p2: int, b2: int| #[trigger] m2.has_block(p2, b2) && (p2, b2) != (p as int, b as int) implies {
                    &&& owner_side(m1.state(p2, b2)) ==> m2.blk(p2, b2) == m1.blk(p2, b2)
                    &&& m2.state(p2, b2) == m1.state(p2, b2)
                } by {
                    assert(m1.has_block(p2, b2));
                }
                lemma_in_flight_change(self.block_store@, &m1, &m2, self.rank, p as int, b as int);
                lemma_keeps_others_trans(&m0, &m1, &m2, self.rank);
                SharedRegionMap::lemma_frame_from_agrees(&m0, &m1, p as int, b as int);
                SharedRegionMap::lemma_frame_trans(&m0, &m1, &m2, p as int, b as int);
                assert forall|i: int| 0 <= i < self.pending@.len() implies {
                    &&& 0 <= (#[trigger] self.pending@[i]).1 < MAX_BLOCKS
                    &&& m2.state(r, self.pending@[i].1 as int) == BlockState::Pending
                } by {
                    assert(m0.has_block(r, self.pending@[i].1 as int));
                    assert(m2.has_block(r, self.pending@[i].1 as int));
                }
                lemma_endpoints_carry(self.endpoints@, &m0, &m2);
                assert forall|q: int| #[trigger] m0.present(q) && q != p implies m2.queue(q) == m0.queue(q) by {
                    assert(m1.present(q));
                }
                assert(m2.queue(p as int) == m0.queue(p as int).push((p, b)));
                assert forall|k: int| 0 <= k < self.descriptors@.len() implies m2.state(
                    r,
                    (#[trigger] self.descriptors@[k]).block_id as int,
                ) != BlockState::Free by {
                    assert(m0.has_block(r, self.descriptors@[k].block_id as int));
                    assert(m2.has_block(r, self.descriptors@[k].block_id as int));
                }
                assert(m1.has_block(p as int, b as int));
                assert(m2.blk(p as int, b as int) == m1.blk(p as int, b as int));
                assert(m1.blk(p as int, b as int) == (Block {
                    complete: true,
                    next: FIFO_FREE,
                    ..m0.blk(p as int, b as int)
                }));
            }
            true
        } else {
            proof {
                assert(!self.block_store@.contains(b)) by {
                    assert(m0.state(r, b as int) != BlockState::Free);
                }
            }
            map.set_state(p, b, Ghost(BlockState::Free));
            self.block_store.free(b);
            proof {
                let m2 = *map;
                let st1 = old(self).block_store@;
                assert(m2.agrees_except(&m1, r, b as int)) by {
                    assert forall|q: int| #[trigger] m2.present(q) implies m2.reg(q).fifo == m1.reg(q).fifo
                        && m2.queue(q) == m1.queue(q) by {}
                }
                SharedRegionMap::lemma_unqueued_change(&m1, &m2, r, b as int);
                SharedRegionMap::lemma_agrees_trans(&m0, &m1, &m2, r, b as int);
                SharedRegionMap::lemma_frame_from_agrees(&m0, &m2, r, b as int);
                SharedRegionMap::lemma_frame_from_agrees(&m1, &m2, r, b as int);
                lemma_coupled_free(st1, &m1, &m2, self.rank, b as int);
                assert(keeps_others(&m2, &m1, self.rank)) by {
                    assert forall|p2: int, b2: int|
                        #[trigger] m1.has_block(p2, b2) && p2 != r && (owner_side(m1.state(p2, b2)) || owner_side(
                            m2.state(p2, b2),
                        )) implies m2.state(p2, b2) == m1.state(p2, b2) && m2.blk(p2, b2) == m1.blk(p2, b2) by {
                        assert(m2.has_block(p2, b2));
                    }
                }
                lemma_keeps_others_trans(&m0, &m1, &m2, self.rank);
                assert forall|i: int| 0 <= i < self.pending@.len() implies {
                    &&& 0 <= (#[trigger] self.pending@[i]).1 < MAX_BLOCKS
                    &&& m2.state(r, self.pending@[i].1 as int) == BlockState::Pending
                } by {
                    assert(m0.has_block(r, self.pending@[i].1 as int));
                    assert(m2.has_block(r, self.pending@[i].1 as int));
                }
                lemma_endpoints_carry(self.endpoints@, &m0, &m2);
                assert forall|q: int| #[trigger] m0.present(q) implies m2.queue(q) == m0.queue(q) by {
                    assert(m1.present(q));
                }
                assert forall|k: int| 0 <= k < self.descriptors@.len() implies m2.state(
                    r,
                    (#[trigger] self.descriptors@[k]).block_id as int,
                ) != BlockState::Free by {
                    assert(m0.has_block(r, self.descriptors@[k].block_id as int));
                    assert(m2.has_block(r, self.descriptors@[k].block_id as int));
                }
            }
            false
        }
    }
    /// Write `bytes` at `offset` into the payload area of local block
    /// `block_id`, which the caller holds; nothing else changes.
    pub fn write_block(&self, map: &mut SharedRegionMap, block_id: BlockID, offset: usize, bytes: &[u8])
        requires
            self.wf_with(old(map)),
            0 <= block_id < MAX_BLOCKS,
            old(map).state(self.rank as int, block_id as int) == BlockState::Held,
            offset + bytes@.len() <= BLOCK_SIZE,
        ensures
            self.wf_with(final(map)),
            keeps_others(final(map), old(map), self.rank),
            final(map).agrees_except(old(map), self.rank as int, block_id as int),
            final(map).state(self.rank as int, block_id as int) == BlockState::Held,
            final(map).blk(self.rank as int, block_id as int) == (Block {
                data: final(map).blk(self.rank as int, block_id as int).data,
                ..old(map).blk(self.rank as int, block_id as int)
            }),
            final(map).blk(self.rank as int, block_id as int).data@ == old(map).blk(
                self.rank as int,
                block_id as int,
            ).data@.subrange(0, offset as int) + bytes@ + old(map).blk(
                self.rank as int,
                block_id as int,
            ).data@.subrange(offset + bytes@.len(), BLOCK_SIZE as int),
    {
        let ghost m0 = *map;
        let ghost r = self.rank as int;
        let ghost b = block_id as int;
        proof {
            assert(m0.has_block(r, b));
            assert(m0.reg(r).blocks@[b].wf());
        }
        map.block_mut(self.rank, block_id).copy_in(offset, bytes);
        proof {
            let m1 = *map;
            assert(m1.agrees_except(&m0, r, b)) by {
                assert forall|q: int| #[trigger] m1.present(q) implies m1.reg(q).fifo == m0.reg(q).fifo
                    && m1.queue(q) == m0.queue(q) by {}
            }
            lemma_held_block_change(self, &m0, &m1, b);
            let d0 = m0.blk(r, b).data@;
            assert(m1.blk(r, b).data@ =~= d0.subrange(0, offset as int) + bytes@ + d0.subrange(
                offset + bytes@.len(),
                BLOCK_SIZE as int,
            ));
        }
    }

    /// Set the completion callback of the live descriptor of local block
    /// `block_id`; `false`, with nothing changed, when it has none.
    pub fn set_callback(&mut self, map: &SharedRegionMap, block_id: BlockID, cbfunc: Option<usize>, cbdata: usize) -> (r:
        bool)
        requires
            old(self).wf_with(map),
        ensures
            final(self).wf_with(map),
            !r ==> *final(self) == *old(self) && forall|i: int|
                0 <= i < old(self).descriptors@.len() ==> !(#[trigger] old(self).descriptors@[i]).names(
                    old(self).rank,
                    block_id,
                ),
            r ==> exists|i: int|
                0 <= i < old(self).descriptors@.len() && old(self).descriptors@[i].names(old(self).rank, block_id)
                    && final(self).descriptors@ == old(self).descriptors@.update(
                    i,
                    Descriptor { cbfunc, cbdata, ..old(self).descriptors@[i] },
                ),
            *final(self) == (LocalData { descriptors: final(self).descriptors, ..*old(self) }),
    {
        match self.find_descriptor(self.rank, block_id) {
            None => false,
            Some(i) => {
                let mut d = self.descriptors[i];
                d.cbfunc = cbfunc;
                d.cbdata = cbdata;
                self.descriptors.set(i, d);
                proof {
                    let ds = self.descriptors@;
                    let os = old(self).descriptors@;
                    assert forall|k: int| 0 <= k < ds.len() implies (#[trigger] ds[k]).rank == self.rank && 0
                        <= ds[k].block_id < MAX_BLOCKS && map.state(self.rank as int, ds[k].block_id as int)
                        != BlockState::Free by {
                        assert(ds[k].rank == os[k].rank && ds[k].block_id == os[k].block_id);
                    }
                    assert forall|k: int, l: int| 0 <= k < l < ds.len() implies (#[trigger] ds[k]).block_id != (
                    #[trigger] ds[l]).block_id by {
                        assert(ds[k].block_id == os[k].block_id && ds[l].block_id == os[l].block_id);
                    }
                    assert(os[i as int].names(self.rank, block_id));
                }
                true
            },
        }
    }
}

} // verus!
