//! Link words and the inbound FIFO of a rank.
use vstd::prelude::*;

use crate::shared::{lk, valid_word, BlockState, SharedRegionMap, MAX_BLOCKS};
use crate::Rank;

verus! {

/// Index of a block within its region.
pub type BlockID = i32;

/// The link word that marks an empty FIFO end or an unlinked block.
pub const FIFO_FREE: i64 = -1;

/// Ranks must stay below this bound for their link words to be non-negative.
pub const RANK_LIMIT: u32 = 0x8000_0000;

/// The value of the link word for `(rank, block_id)`.
pub open spec fn link(rank: int, block_id: int) -> int {
    rank * 0x1_0000_0000 + block_id
}

/// A link word that names a block: non-negative, with a block id that fits a `BlockID`.
pub open spec fn is_link(v: int) -> bool {
    0 <= v && v % 0x1_0000_0000 < 0x8000_0000
}

/// The `(rank, block_id)` pair that a link word names.
pub open spec fn unlink(v: int) -> (int, int) {
    (v / 0x1_0000_0000, v % 0x1_0000_0000)
}

/// Extract the rank and block ID from a link word.
pub fn extract_rank_block_id(value: i64) -> (r: (Rank, BlockID))
    requires
        is_link(value as int),
    ensures
        (r.0 as int, r.1 as int) == unlink(value as int),
        r.1 >= 0,
        link(r.0 as int, r.1 as int) == value as int,
{
    let hi: i64 = value >> 32u32;
    let lo: i64 = value & 0xFFFF_FFFFi64;
    assert((value >> 32u32) == value / 0x1_0000_0000 && (value & 0xFFFF_FFFFi64) == value
        % 0x1_0000_0000) by (bit_vector)
        requires
            0 <= value,
    ;
    (hi as u32, lo as i32)
}

/// Encode the rank and block ID into a link word.
pub fn encode_rank_block_id(rank: Rank, block_id: BlockID) -> (r: i64)
    requires
        rank < RANK_LIMIT,
        block_id >= 0,
    ensures
        r as int == link(rank as int, block_id as int),
        r >= 0,
        r != FIFO_FREE,
        is_link(r as int),
        unlink(r as int) == (rank as int, block_id as int),
{
    let rk: i64 = rank as i64;
    let b: i64 = block_id as i64;
    assert((rk << 32u32) | b == rk * 0x1_0000_0000 + b) by (bit_vector)
        requires
            0 <= rk < 0x8000_0000,
            0 <= b < 0x8000_0000,
    ;
    (rk << 32u32) | b
}

/// Decoding a link word and encoding the pair again gives the word back.
pub proof fn lemma_encode_decode(v: int)
    requires
        is_link(v),
    ensures
        link(unlink(v).0, unlink(v).1) == v,
        unlink(v).0 >= 0,
        0 <= unlink(v).1 < 0x8000_0000,
{
}

/// Encoding a pair and decoding the word gives the pair back.
pub proof fn lemma_decode_encode(rank: int, block_id: int)
    requires
        0 <= rank,
        0 <= block_id < 0x1_0000_0000,
    ensures
        unlink(link(rank, block_id)) == (rank, block_id),
{
    assert((rank * 0x1_0000_0000 + block_id) / 0x1_0000_0000 == rank) by (nonlinear_arith)
        requires
            0 <= block_id < 0x1_0000_0000,
    ;
    assert((rank * 0x1_0000_0000 + block_id) % 0x1_0000_0000 == block_id) by (nonlinear_arith)
        requires
            0 <= block_id < 0x1_0000_0000,
    ;
}

/// Two queue entries with the same link word are the same entry.
proof fn lemma_lk_injective(x: (Rank, BlockID), y: (Rank, BlockID))
    requires
        x.1 >= 0,
        y.1 >= 0,
        lk(x) == lk(y),
    ensures
        x == y,
{
    lemma_decode_encode(x.0 as int, x.1 as int);
    lemma_decode_encode(y.0 as int, y.1 as int);
}

/// The inbound FIFO of one rank, reached through the region map.
pub struct FIFO {
    pub rank: Rank,
}

/// A block that may be linked into a FIFO: allocated, and on no FIFO yet.
pub open spec fn pushable(s: BlockState) -> bool {
    !(s is Free) && !(s is Queued)
}

impl FIFO {
    pub fn new(rank: Rank) -> (r: FIFO)
        ensures
            r.rank == rank,
    {
        FIFO { rank }
    }

    /// Link block `(rank, block_id)` at the tail of this FIFO.
    pub fn push(&self, map: &mut SharedRegionMap, rank: Rank, block_id: BlockID)
        requires
            old(map).wf(),
            old(map).present(self.rank as int),
            old(map).has_block(rank as int, block_id as int),
            pushable(old(map).state(rank as int, block_id as int)),
            old(map).blk(rank as int, block_id as int).next == FIFO_FREE,
            old(map).blk(rank as int, block_id as int).complete ==> rank == self.rank,
        ensures
            final(map).wf(),
            final(map).same_payloads(old(map)),
            final(map).queue(self.rank as int) == old(map).queue(self.rank as int).push((rank, block_id)),
            forall|r: int|
                #[trigger] old(map).present(r) && r != self.rank ==> final(map).queue(r) == old(map).queue(r),
            final(map).state(rank as int, block_id as int) == BlockState::Queued(self.rank),
            final(map).frame_except(old(map), rank as int, block_id as int),
            forall|p: int, b: int|
                #[trigger] old(map).has_block(p, b) && !(old(map).state(p, b) is Queued) ==> final(map).blk(p, b)
                    == old(map).blk(p, b),
            forall|p: int, b: int|
                #[trigger] old(map).has_block(p, b) && (p, b) != (rank as int, block_id as int)
                    ==> final(map).state(p, b) == old(map).state(p, b),
    {
        let ghost m0 = *map;
        let ghost e = (rank, block_id);
        let ghost q = m0.queue(self.rank as int);
        proof {
            assert(m0.state_wf(rank as int, block_id as int));
            assert(!q.contains(e)) by {
                if q.contains(e) {
                    let i = choose|i: int| 0 <= i < q.len() && q[i] == e;
                    assert(m0.fifo_wf(self.rank as int));
                    assert(m0.state(q[i].0 as int, q[i].1 as int) is Queued);
                }
            }
        }
        let value = encode_rank_block_id(rank, block_id);
        let prev: i64;
        {
            let reg = map.region_mut(self.rank);
            prev = reg.fifo.tail;
            reg.fifo.tail = value;
            if prev == FIFO_FREE {
                reg.fifo.head = value;
            }
        }
        let ghost m1 = *map;
        if prev != FIFO_FREE {
            proof {
                assert(m0.fifo_wf(self.rank as int));
                assert(q.len() > 0);
                assert(m0.has_block(q.last().0 as int, q.last().1 as int));
                lemma_decode_encode(q.last().0 as int, q.last().1 as int);
            }
            let (prev_rank, prev_block_id) = extract_rank_block_id(prev);
            assert(prev_rank != rank || prev_block_id != block_id);
            let reg = map.region_mut(prev_rank);
            reg.blocks[prev_block_id as usize].next = value;
        }
        let ghost m2 = *map;
        {
            let reg = map.region_mut(self.rank);
            reg.queue = Ghost(q.push(e));
        }
        {
            let reg = map.region_mut(rank);
            reg.states = Ghost(reg.states@.update(block_id as int, BlockState::Queued(self.rank)));
        }
        proof {
            let m3 = *map;
            let r0 = self.rank as int;
            let q3 = q.push(e);
            // Which blocks changed: only the old tail's link.
            assert forall|p: int, b: int| #[trigger] m0.has_block(p, b) implies {
                &&& m3.has_block(p, b)
                &&& (q.len() == 0 || (p, b) != (q.last().0 as int, q.last().1 as int)) ==> m3.blk(p, b)
                    == m0.blk(p, b)
                &&& m3.blk(p, b).tag == m0.blk(p, b).tag
                &&& m3.blk(p, b).complete == m0.blk(p, b).complete
                &&& m3.blk(p, b).len == m0.blk(p, b).len
                &&& m3.blk(p, b).data@ == m0.blk(p, b).data@
                &&& (p, b) != (rank as int, block_id as int) ==> m3.state(p, b) == m0.state(p, b)
            } by {
            }
            if q.len() > 0 {
                assert(m0.fifo_wf(r0));
                assert(q.last() == q[q.len() - 1]);
                assert(m0.state(q.last().0 as int, q.last().1 as int) is Queued);
            }
            assert forall|r: int| #[trigger] m0.present(r) implies {
                &&& m3.present(r)
                &&& m3.reg(r).blocks@.len() == MAX_BLOCKS
                &&& m3.reg(r).states@.len() == MAX_BLOCKS
                &&& r != r0 ==> m3.reg(r).fifo == m0.reg(r).fifo && m3.queue(r) == m0.queue(r)
            } by {
            }
            assert(m3.reg(r0).fifo.tail == value);
            assert(q.len() > 0 ==> m3.reg(r0).fifo.head == m0.reg(r0).fifo.head);
            assert(q.len() == 0 ==> m3.reg(r0).fifo.head == value);
            assert forall|r: int| #[trigger] m3.present(r) implies m3.reg(r).wf() && m3.fifo_wf(r) by {
                assert(m0.present(r));
                assert(m0.reg(r).wf() && m0.fifo_wf(r));
                assert forall|b: int| 0 <= b < MAX_BLOCKS implies (#[trigger] m3.reg(r).blocks@[b]).wf() by {
                    assert(m0.has_block(r, b));
                    assert(m0.reg(r).blocks@[b].wf());
                }
                let qr = m3.queue(r);
                if r == r0 {
                    assert(qr == q3);
                    assert forall|i: int| 0 <= i < qr.len() implies {
                        &&& m3.has_block((#[trigger] qr[i]).0 as int, qr[i].1 as int)
                        &&& m3.state(qr[i].0 as int, qr[i].1 as int) == BlockState::Queued(r as Rank)
                        &&& m3.blk(qr[i].0 as int, qr[i].1 as int).complete ==> qr[i].0 == r
                    } by {
                        if i < q.len() {
                            assert(q[i] == qr[i]);
                            assert(m0.has_block(q[i].0 as int, q[i].1 as int));
                            assert(q.contains(q[i]));
                        }
                    }
                    assert forall|i: int| 0 <= i < qr.len() - 1 implies m3.blk((#[trigger] qr[i]).0 as int, qr[i].1 as int).next as int
                        == lk(qr[i + 1]) by {
                        assert(q[i] == qr[i]);
                        assert(m0.has_block(q[i].0 as int, q[i].1 as int));
                        if i < q.len() - 1 {
                            assert(q[i] != q.last());
                        }
                    }
                    assert(qr.no_duplicates()) by {
                        assert forall|i: int, j: int| 0 <= i < qr.len() && 0 <= j < qr.len() && i != j implies qr[i] != qr[j] by {
                            if i < q.len() && j < q.len() {
                            } else if i < q.len() {
                                assert(q.contains(qr[i]));
                            } else if j < q.len() {
                                assert(q.contains(qr[j]));
                            }
                        }
                    }
                    if q.len() > 0 {
                        assert(qr[0] == q[0]);
                        assert(!q.contains(e));
                    }
                } else {
                    assert(qr == m0.queue(r));
                    assert forall|i: int| 0 <= i < qr.len() implies {
                        &&& m3.has_block((#[trigger] qr[i]).0 as int, qr[i].1 as int)
                        &&& m3.state(qr[i].0 as int, qr[i].1 as int) == BlockState::Queued(r as Rank)
                        &&& m3.blk(qr[i].0 as int, qr[i].1 as int).complete ==> qr[i].0 == r
                        &&& m3.blk(qr[i].0 as int, qr[i].1 as int) == m0.blk(qr[i].0 as int, qr[i].1 as int)
                    } by {
                        assert(m0.has_block(qr[i].0 as int, qr[i].1 as int));
                        if q.len() > 0 {
                            assert(m0.has_block(q.last().0 as int, q.last().1 as int));
                            assert(q.contains(q.last()));
                        }
                    }
                    assert forall|i: int| 0 <= i < qr.len() - 1 implies m3.blk((#[trigger] qr[i]).0 as int, qr[i].1 as int).next as int
                        == lk(qr[i + 1]) by {
                        assert(m3.blk(qr[i].0 as int, qr[i].1 as int) == m0.blk(qr[i].0 as int, qr[i].1 as int));
                    }
                    if qr.len() > 0 {
                        let j = qr.len() - 1;
                        assert(m3.blk(qr[j].0 as int, qr[j].1 as int) == m0.blk(qr[j].0 as int, qr[j].1 as int));
                    }
                }
            }
            assert forall|p: int, b: int| #[trigger] m3.has_block(p, b) implies m3.state_wf(p, b) by {
                assert(m0.has_block(p, b));
                assert(m0.state_wf(p, b));
                if (p, b) == (rank as int, block_id as int) {
                    assert(q3.last() == e);
                    assert(q3.contains((p as Rank, b as BlockID)));
                } else if m3.state(p, b) is Queued {
                    let r = m3.state(p, b)->Queued_0 as int;
                    if r == r0 {
                        let k = choose|k: int| 0 <= k < q.len() && q[k] == (p as Rank, b as BlockID);
                        assert(q3[k] == (p as Rank, b as BlockID));
                    }
                }
            }
        }
    }
    /// Unlink the block at the head of this FIFO and return it, or `None`
    /// when the FIFO is empty.
    pub fn pop(&self, map: &mut SharedRegionMap) -> (r: Option<(Rank, BlockID)>)
        requires
            old(map).wf(),
            old(map).present(self.rank as int),
        ensures
            final(map).wf(),
            final(map).same_payloads(old(map)),
            old(map).queue(self.rank as int).len() == 0 ==> r is None && *final(map) == *old(map),
            old(map).queue(self.rank as int).len() > 0 ==> {
                let e = old(map).queue(self.rank as int)[0];
                &&& r == Some(e)
                &&& final(map).has_block(e.0 as int, e.1 as int)
                &&& final(map).queue(self.rank as int) == old(map).queue(self.rank as int).drop_first()
                &&& final(map).state(e.0 as int, e.1 as int) == BlockState::Processing(self.rank)
                &&& forall|p: int, b: int|
                    #[trigger] old(map).has_block(p, b) && (p, b) != (e.0 as int, e.1 as int)
                        ==> final(map).state(p, b) == old(map).state(p, b)
            },
            forall|r: int|
                #[trigger] old(map).present(r) && r != self.rank ==> final(map).queue(r) == old(map).queue(r),
            forall|p: int, b: int| #[trigger] old(map).has_block(p, b) ==> final(map).blk(p, b) == old(map).blk(p, b),
            old(map).queue(self.rank as int).len() > 0 ==> final(map).frame_except(
                old(map),
                old(map).queue(self.rank as int)[0].0 as int,
                old(map).queue(self.rank as int)[0].1 as int,
            ),
    {
        let ghost m0 = *map;
        let ghost r0 = self.rank as int;
        let ghost q = m0.queue(r0);
        proof {
            assert(m0.fifo_wf(r0));
        }
        let h = map.region(self.rank).fifo.head;
        if h == FIFO_FREE {
            proof {
                if q.len() > 0 {
                    assert(m0.has_block(q[0].0 as int, q[0].1 as int));
                }
            }
            return None;
        }
        let ghost e = q[0];
        proof {
            assert(m0.has_block(e.0 as int, e.1 as int));
            lemma_decode_encode(e.0 as int, e.1 as int);
        }
        let (rank, block_id) = extract_rank_block_id(h);
        assert((rank, block_id) == e);
        {
            let reg = map.region_mut(self.rank);
            reg.fifo.head = FIFO_FREE;
        }
        let n = map.region(rank).blocks[block_id as usize].next;
        proof {
            if q.len() > 1 {
                assert(n as int == lk(q[1]));
                assert(m0.has_block(q[1].0 as int, q[1].1 as int));
                assert(q[0] != q[1]);
                assert(m0.has_block(q[0].0 as int, q[0].1 as int));
                if lk(q[0]) == lk(q[1]) {
                    lemma_lk_injective(q[0], q[1]);
                }
            } else {
                assert(q[0] == q.last());
            }
        }
        assert(n != h);
        if n == FIFO_FREE {
            let reg = map.region_mut(self.rank);
            if reg.fifo.tail == h {
                reg.fifo.tail = FIFO_FREE;
            }
        } else {
            let reg = map.region_mut(self.rank);
            reg.fifo.head = n;
        }
        {
            let reg = map.region_mut(self.rank);
            reg.queue = Ghost(q.drop_first());
        }
        {
            let reg = map.region_mut(rank);
            reg.states = Ghost(reg.states@.update(block_id as int, BlockState::Processing(self.rank)));
        }
        proof {
            let m3 = *map;
            let q3 = q.drop_first();
            assert forall|p: int, b: int| #[trigger] m0.has_block(p, b) implies {
                &&& m3.has_block(p, b)
                &&& m3.blk(p, b) == m0.blk(p, b)
                &&& (p, b) != (rank as int, block_id as int) ==> m3.state(p, b) == m0.state(p, b)
            } by {
            }
            assert forall|r: int| #[trigger] m0.present(r) implies {
                &&& m3.present(r)
                &&& m3.reg(r).blocks@.len() == MAX_BLOCKS
                &&& m3.reg(r).states@.len() == MAX_BLOCKS
                &&& r != r0 ==> m3.reg(r).fifo == m0.reg(r).fifo && m3.queue(r) == m0.queue(r)
            } by {
            }
            assert forall|r: int| #[trigger] m3.present(r) implies m3.reg(r).wf() && m3.fifo_wf(r) by {
                assert(m0.present(r));
                assert(m0.reg(r).wf() && m0.fifo_wf(r));
                assert forall|b: int| 0 <= b < MAX_BLOCKS implies (#[trigger] m3.reg(r).blocks@[b]).wf() by {
                    assert(m0.has_block(r, b));
                    assert(m0.reg(r).blocks@[b].wf());
                }
                let qr = m3.queue(r);
                if r == r0 {
                    assert(qr == q3);
                    assert forall|i: int| 0 <= i < qr.len() implies {
                        &&& m3.has_block((#[trigger] qr[i]).0 as int, qr[i].1 as int)
                        &&& m3.state(qr[i].0 as int, qr[i].1 as int) == BlockState::Queued(r as Rank)
                        &&& m3.blk(qr[i].0 as int, qr[i].1 as int).complete ==> qr[i].0 == r
                    } by {
                        assert(q[i + 1] == qr[i]);
                        assert(m0.has_block(q[i + 1].0 as int, q[i + 1].1 as int));
                        assert(q[0] != q[i + 1]);
                    }
                    assert forall|i: int| 0 <= i < qr.len() - 1 implies m3.blk((#[trigger] qr[i]).0 as int, qr[i].1 as int).next as int
                        == lk(qr[i + 1]) by {
                        assert(q[i + 1] == qr[i]);
                        assert(m0.has_block(q[i + 1].0 as int, q[i + 1].1 as int));
                    }
                    assert(qr.no_duplicates()) by {
                        assert forall|i: int, j: int| 0 <= i < qr.len() && 0 <= j < qr.len() && i != j implies qr[i] != qr[j] by {
                            assert(q[i + 1] == qr[i] && q[j + 1] == qr[j]);
                        }
                    }
                    if qr.len() > 0 {
                        assert(qr[0] == q[1]);
                        assert(qr.last() == q.last());
                        assert(m0.has_block(q.last().0 as int, q.last().1 as int));
                    }
                } else {
                    assert(qr == m0.queue(r));
                    assert forall|i: int| 0 <= i < qr.len() implies {
                        &&& m3.has_block((#[trigger] qr[i]).0 as int, qr[i].1 as int)
                        &&& m3.state(qr[i].0 as int, qr[i].1 as int) == BlockState::Queued(r as Rank)
                        &&& m3.blk(qr[i].0 as int, qr[i].1 as int).complete ==> qr[i].0 == r
                    } by {
                        assert(m0.has_block(qr[i].0 as int, qr[i].1 as int));
                    }
                    assert forall|i: int| 0 <= i < qr.len() - 1 implies m3.blk((#[trigger] qr[i]).0 as int, qr[i].1 as int).next as int
                        == lk(qr[i + 1]) by {
                        assert(m0.has_block(qr[i].0 as int, qr[i].1 as int));
                    }
                    if qr.len() > 0 {
                        let j = qr.len() - 1;
                        assert(m0.has_block(qr[j].0 as int, qr[j].1 as int));
                    }
                }
            }
            assert forall|p: int, b: int| #[trigger] m3.has_block(p, b) implies m3.state_wf(p, b) by {
                assert(m0.has_block(p, b));
                assert(m0.state_wf(p, b));
                if (p, b) != (rank as int, block_id as int) && m3.state(p, b) is Queued {
                    let r = m3.state(p, b)->Queued_0 as int;
                    if r == r0 {
                        let k = choose|k: int| 0 <= k < q.len() && q[k] == (p as Rank, b as BlockID);
                        assert(k != 0);
                        assert(q3[k - 1] == (p as Rank, b as BlockID));
                    }
                }
            }
        }
        Some((rank, block_id))
    }
}

} // verus!
