//! The per-rank shared region: its blocks, its FIFO header, and the map from
//! rank to region that every FIFO operation resolves links through.
use vstd::prelude::*;
use vstd::string::StringExecFns;

use crate::fifo::{is_link, lemma_decode_encode, link, unlink, BlockID, FIFO_FREE, RANK_LIMIT};
use crate::Rank;

verus! {

/// Bytes of payload that a send-immediate is expected to carry.
pub const EAGER_LIMIT: usize = 4096;

/// Bytes of payload in one block.
pub const BLOCK_SIZE: usize = 32768;

/// Number of blocks in one region.
pub const MAX_BLOCKS: usize = 256;

/// Where a block stands in its life. This is bookkeeping for the proofs: it
/// is never stored in the region itself.
pub enum BlockState {
    /// In its owner's free list.
    Free,
    /// Allocated by its owner and not yet sent.
    Held,
    /// On its owner's deferred-send queue.
    Pending,
    /// Linked into the inbound FIFO of the given rank.
    Queued(Rank),
    /// Popped by the given rank and not yet handed on.
    Processing(Rank),
}

/// FIFO header in a region: the link words of the first and last block.
pub struct FIFOHeader {
    pub head: i64,
    pub tail: i64,
}

/// A block of a region.
pub struct Block {
    /// Link to the next block in a FIFO, or `FIFO_FREE`.
    pub next: i64,
    /// Selects the active-message callback.
    pub tag: u8,
    /// Set by the receiver once the callback has run: the block is on its way home.
    pub complete: bool,
    /// Bytes of valid payload.
    pub len: usize,
    /// The payload area, `BLOCK_SIZE` bytes.
    pub data: Vec<u8>,
}

/// Data kept in the region of one rank.
pub struct SharedRegion {
    pub fifo: FIFOHeader,
    pub blocks: Vec<Block>,
    /// The blocks linked from `fifo.head`, in order.
    pub queue: Ghost<Seq<(Rank, BlockID)>>,
    /// Where each block of this region stands.
    pub states: Ghost<Seq<BlockState>>,
}

/// Bookkeeping for an outstanding send, keyed by (rank, block id).
#[derive(Clone, Copy, Debug)]
pub struct Descriptor {
    pub rank: Rank,
    pub block_id: BlockID,
    /// Completion callback chosen by the upper layer, as a handle it understands.
    pub cbfunc: Option<usize>,
    pub cbdata: usize,
    pub context: usize,
    pub flags: u32,
    pub order: u8,
    /// Number of segments, always one.
    pub segment_count: usize,
    /// Length of the segment, the block's payload length.
    pub seg_len: usize,
}

impl Descriptor {
    /// The descriptor is the one of block `(rank, block_id)`.
    pub open spec fn names(&self, rank: Rank, block_id: BlockID) -> bool {
        self.rank == rank && self.block_id == block_id
    }

    /// A descriptor for block `(rank, block_id)` with a payload of `len`
    /// bytes and no callback.
    pub open spec fn fresh(rank: Rank, block_id: BlockID, len: usize) -> Descriptor {
        Descriptor {
            rank,
            block_id,
            cbfunc: None,
            cbdata: 0,
            context: 0,
            flags: 0,
            order: 0,
            segment_count: 1,
            seg_len: len,
        }
    }
}

/// Length of the random part of a region's file name.
pub const PATH_SUFFIX_LEN: usize = 16;

/// A character in a-z, A-Z or 0-9.
pub open spec fn is_alphanumeric(c: char) -> bool {
    ('a' <= c && c <= 'z') || ('A' <= c && c <= 'Z') || ('0' <= c && c <= '9')
}

/// The path of a region file: `/dev/shm/<node>-<suffix>.shmem`.
pub open spec fn shm_path(node: Seq<char>, suffix: Seq<char>) -> Seq<char> {
    seq!['/', 'd', 'e', 'v', '/', 's', 'h', 'm', '/'] + node + seq!['-'] + suffix + seq![
        '.',
        's',
        'h',
        'm',
        'e',
        'm',
    ]
}

/// Relies on `fastrand::seed`: reseeds the thread-local generator.
#[verifier::external_body]
fn seed_rng(seed: u64) {
    fastrand::seed(seed)
}

/// Relies on `fastrand::alphanumeric`: a character in a-z, A-Z or 0-9.
#[verifier::external_body]
fn random_alphanumeric() -> (c: char)
    ensures
        is_alphanumeric(c),
{
    fastrand::alphanumeric()
}

/// Relies on `SystemTime::elapsed` on the Unix epoch: whole seconds of wall
/// time, 0 for a clock set before the epoch.
#[verifier::external_body]
fn unix_time_secs() -> u64 {
    std::time::UNIX_EPOCH.elapsed().map(|d| d.as_secs()).unwrap_or(0)
}

/// Relies on `String::push`: appends one character.
#[verifier::external_body]
fn push_char(s: &mut String, c: char)
    ensures
        final(s)@ == old(s)@.push(c),
{
    s.push(c)
}

/// The path of the region file of a process on node `node_name` whose
/// random part is `suffix`: `/dev/shm/<node_name>-<suffix>.shmem`.
pub fn region_path(node_name: &str, suffix: &str) -> (r: String)
    ensures
        r@ == shm_path(node_name@, suffix@),
{
    let mut path = String::from_str("/dev/shm/");
    path.append(node_name);
    path.append("-");
    path.append(suffix);
    path.append(".shmem");
    proof {
        reveal_strlit("/dev/shm/");
        reveal_strlit("-");
        reveal_strlit(".shmem");
        assert(path@ =~= shm_path(node_name@, suffix@));
    }
    path
}

/// A fresh path for the region file of `rank`: sixteen random letters and
/// digits, drawn from a generator seeded from the rank, the process id and
/// the wall time, make the random part of `region_path`.
pub fn make_path(node_name: String, rank: Rank, pid: u32) -> (r: String)
    ensures
        exists|suffix: Seq<char>|
            #![trigger shm_path(node_name@, suffix)]
            suffix.len() == PATH_SUFFIX_LEN && (forall|i: int|
                0 <= i < suffix.len() ==> is_alphanumeric(#[trigger] suffix[i])) && r@ == shm_path(
                node_name@,
                suffix,
            ),
{
    let time = unix_time_secs();
    let seed = (rank as u64 + pid as u64).wrapping_add(time);
    seed_rng(seed);
    let mut suffix = String::new();
    let mut i: usize = 0;
    while i < PATH_SUFFIX_LEN
        invariant
            i <= PATH_SUFFIX_LEN,
            suffix@.len() == i,
            forall|j: int| 0 <= j < suffix@.len() ==> is_alphanumeric(#[trigger] suffix@[j]),
        decreases PATH_SUFFIX_LEN - i,
    {
        let c = random_alphanumeric();
        push_char(&mut suffix, c);
        i = i + 1;
    }
    region_path(node_name.as_str(), suffix.as_str())
}

/// The link word of a queue entry.
pub open spec fn lk(e: (Rank, BlockID)) -> int {
    link(e.0 as int, e.1 as int)
}

/// A link word that is `FIFO_FREE` or names a block id below `MAX_BLOCKS`.
pub open spec fn valid_word(v: i64) -> bool {
    v == FIFO_FREE || (is_link(v as int) && unlink(v as int).1 < MAX_BLOCKS)
}

impl Block {
    pub open spec fn wf(&self) -> bool {
        &&& self.data@.len() == BLOCK_SIZE
        &&& self.len <= BLOCK_SIZE
        &&& valid_word(self.next)
    }

    /// A zeroed, unlinked block.
    pub fn new() -> (r: Block)
        ensures
            r.wf(),
            r.next == FIFO_FREE,
            r.tag == 0,
            !r.complete,
            r.len == 0,
            r.data@ == Seq::new(BLOCK_SIZE as nat, |i: int| 0u8),
    {
        let data: Vec<u8> = vec![0u8; BLOCK_SIZE];
        Block { next: FIFO_FREE, tag: 0, complete: false, len: 0, data }
    }

    /// Write `header` at the start of the payload area, then `payload`
    /// right after it, and set the length to the sum.
    pub fn fill(&mut self, header: &[u8], payload: &[u8])
        requires
            old(self).wf(),
            header@.len() + payload@.len() <= BLOCK_SIZE,
        ensures
            final(self).wf(),
            final(self).len == header@.len() + payload@.len(),
            final(self).data@.subrange(0, header@.len() as int) == header@,
            final(self).data@.subrange(header@.len() as int, final(self).len as int) == payload@,
            final(self).data@.subrange(final(self).len as int, BLOCK_SIZE as int)
                == old(self).data@.subrange(final(self).len as int, BLOCK_SIZE as int),
            final(self).next == old(self).next,
            final(self).tag == old(self).tag,
            final(self).complete == old(self).complete,
    {
        self.copy_in(0, header);
        self.copy_in(header.len(), payload);
        self.len = header.len() + payload.len();
        assert(self.data@.subrange(0, header@.len() as int) =~= header@);
        assert(self.data@.subrange(header@.len() as int, self.len as int) =~= payload@);
        assert(self.data@.subrange(self.len as int, BLOCK_SIZE as int) =~= old(self).data@.subrange(
            self.len as int,
            BLOCK_SIZE as int,
        ));
    }

    /// Leave `reserve` bytes free at the start of the payload area, write
    /// `payload` after them, and set the length to the sum.
    pub fn prepare_fill(&mut self, reserve: usize, payload: &[u8])
        requires
            old(self).wf(),
            reserve + payload@.len() <= BLOCK_SIZE,
        ensures
            final(self).wf(),
            final(self).len == reserve + payload@.len(),
            final(self).data@.subrange(reserve as int, final(self).len as int) == payload@,
            final(self).data@.subrange(0, reserve as int) == old(self).data@.subrange(0, reserve as int),
            final(self).next == old(self).next,
            final(self).tag == old(self).tag,
            final(self).complete == old(self).complete,
    {
        self.copy_in(reserve, payload);
        self.len = reserve + payload.len();
        assert(self.data@.subrange(reserve as int, self.len as int) =~= payload@);
        assert(self.data@.subrange(0, reserve as int) =~= old(self).data@.subrange(0, reserve as int));
    }

    /// Copy `src` into the payload area at offset `at`.
    pub fn copy_in(&mut self, at: usize, src: &[u8])
        requires
            old(self).wf(),
            at + src@.len() <= BLOCK_SIZE,
        ensures
            final(self).wf(),
            final(self).len == old(self).len,
            final(self).next == old(self).next,
            final(self).tag == old(self).tag,
            final(self).complete == old(self).complete,
            final(self).data@.len() == BLOCK_SIZE,
            forall|i: int|
                0 <= i < BLOCK_SIZE ==> #[trigger] final(self).data@[i] == if at <= i < at + src@.len() {
                    src@[i - at]
                } else {
                    old(self).data@[i]
                },
    {
        let mut k: usize = 0;
        while k < src.len()
            invariant
                self.wf(),
                k <= src@.len(),
                at + src@.len() <= BLOCK_SIZE,
                self.len == old(self).len,
                self.next == old(self).next,
                self.tag == old(self).tag,
                self.complete == old(self).complete,
                forall|i: int|
                    0 <= i < BLOCK_SIZE ==> #[trigger] self.data@[i] == if at <= i < at + k {
                        src@[i - at]
                    } else {
                        old(self).data@[i]
                    },
            decreases src@.len() - k,
        {
            self.data.set(at + k, src[k]);
            k = k + 1;
        }
    }
}

impl SharedRegion {
    /// The region as its owner creates it: empty FIFO, every block zeroed and free.
    pub fn new() -> (r: SharedRegion)
        ensures
            r.fresh(),
            forall|b: int|
                0 <= b < MAX_BLOCKS ==> (#[trigger] r.blocks@[b]).len == 0 && r.blocks@[b].tag == 0
                    && r.blocks@[b].data@ == Seq::new(BLOCK_SIZE as nat, |i: int| 0u8),
    {
        let mut blocks: Vec<Block> = Vec::new();
        let mut i: usize = 0;
        while i < MAX_BLOCKS
            invariant
                i <= MAX_BLOCKS,
                blocks@.len() == i,
                forall|j: int|
                    0 <= j < i ==> (#[trigger] blocks@[j]).wf() && blocks@[j].next == FIFO_FREE
                        && !blocks@[j].complete && blocks@[j].len == 0 && blocks@[j].tag == 0
                        && blocks@[j].data@ == Seq::new(BLOCK_SIZE as nat, |k: int| 0u8),
            decreases MAX_BLOCKS - i,
        {
            blocks.push(Block::new());
            i = i + 1;
        }
        SharedRegion {
            fifo: FIFOHeader { head: FIFO_FREE, tail: FIFO_FREE },
            blocks,
            queue: Ghost(Seq::empty()),
            states: Ghost(Seq::new(MAX_BLOCKS as nat, |j: int| BlockState::Free)),
        }
    }

    /// The shape every region keeps.
    pub open spec fn wf(&self) -> bool {
        &&& self.blocks@.len() == MAX_BLOCKS
        &&& self.states@.len() == MAX_BLOCKS
        &&& forall|b: int| 0 <= b < MAX_BLOCKS ==> (#[trigger] self.blocks@[b]).wf()
    }

    /// A region just created: nothing linked, every block free and unlinked.
    pub open spec fn fresh(&self) -> bool {
        &&& self.wf()
        &&& self.fifo.head == FIFO_FREE
        &&& self.fifo.tail == FIFO_FREE
        &&& self.queue@.len() == 0
        &&& forall|b: int|
            0 <= b < MAX_BLOCKS ==> #[trigger] self.states@[b] == BlockState::Free
                && self.blocks@[b].next == FIFO_FREE && !self.blocks@[b].complete
    }
}

/// Map from rank to that rank's region, held in process memory, and the
/// ranks whose regions this process has attached.
///
/// A region stays in the map until its owner removes it; a process that
/// detaches a peer only drops its attachment.
pub struct SharedRegionMap {
    regions: Vec<Option<SharedRegion>>,
    attached: Vec<Rank>,
}

impl SharedRegionMap {
    pub closed spec fn slots(&self) -> Seq<Option<SharedRegion>> {
        self.regions@
    }

    /// The ranks whose regions are attached, in the order they were attached.
    pub closed spec fn attachments(&self) -> Seq<Rank> {
        self.attached@
    }

    /// Whether this process has the region of rank `r` attached.
    pub open spec fn is_attached(&self, r: Rank) -> bool {
        self.attachments().contains(r)
    }

    /// Whether the region of `rank` is attached.
    pub fn attached(&self, rank: Rank) -> (r: bool)
        ensures
            r == self.is_attached(rank),
    {
        let mut i: usize = 0;
        while i < self.attached.len()
            invariant
                i <= self.attached@.len(),
                forall|j: int| 0 <= j < i ==> self.attached@[j] != rank,
            decreases self.attached@.len() - i,
        {
            if self.attached[i] == rank {
                return true;
            }
            i = i + 1;
        }
        false
    }

    /// Detach the region of `rank` from this process. The region itself
    /// stays in the map for the other ranks until its owner removes it.
    pub fn detach(&mut self, rank: Rank)
        ensures
            final(self).slots() == old(self).slots(),
            !final(self).is_attached(rank),
            forall|q: Rank| q != rank ==> (final(self).is_attached(q) <==> old(self).is_attached(q)),
    {
        let mut kept: Vec<Rank> = Vec::new();
        let mut i: usize = 0;
        while i < self.attached.len()
            invariant
                i <= self.attached@.len(),
                self.regions@ == old(self).regions@,
                self.attached@ == old(self).attached@,
                !kept@.contains(rank),
                forall|q: Rank| q != rank ==> (kept@.contains(q) <==> self.attached@.subrange(0, i as int).contains(q)),
            decreases self.attached@.len() - i,
        {
            let q = self.attached[i];
            let ghost before = kept@;
            if q != rank {
                kept.push(q);
            }
            proof {
                let pre = self.attached@.subrange(0, i as int);
                let post = self.attached@.subrange(0, i + 1);
                assert(post =~= pre.push(q));
                assert forall|x: Rank| x != rank implies (kept@.contains(x) <==> post.contains(x)) by {
                    if post.contains(x) && !pre.contains(x) {
                        assert(x == q);
                        assert(kept@[kept@.len() - 1] == q);
                    }
                    if kept@.contains(x) && !before.contains(x) {
                        let k = choose|k: int| 0 <= k < kept@.len() && kept@[k] == x;
                        assert(k == kept@.len() - 1);
                        assert(post[i as int] == x);
                    }
                    if pre.contains(x) {
                        let k = choose|k: int| 0 <= k < pre.len() && pre[k] == x;
                        assert(post[k] == x);
                    }
                    if before.contains(x) {
                        let k = choose|k: int| 0 <= k < before.len() && before[k] == x;
                        assert(kept@[k] == x);
                    }
                }
                if kept@.contains(rank) {
                    let k = choose|k: int| 0 <= k < kept@.len() && kept@[k] == rank;
                    if k < before.len() {
                        assert(before[k] == rank);
                    }
                }
            }
            i = i + 1;
        }
        proof {
            assert(self.attached@.subrange(0, self.attached@.len() as int) =~= self.attached@);
        }
        self.attached = kept;
    }

    /// Whether the region of rank `r` is in the map.
    pub open spec fn present(&self, r: int) -> bool {
        0 <= r < self.slots().len() && self.slots()[r] is Some
    }

    pub open spec fn reg(&self, r: int) -> SharedRegion {
        self.slots()[r].unwrap()
    }

    /// Whether `(p, b)` names a block of a region in the map.
    pub open spec fn has_block(&self, p: int, b: int) -> bool {
        self.present(p) && 0 <= b < MAX_BLOCKS
    }

    pub open spec fn blk(&self, p: int, b: int) -> Block {
        self.reg(p).blocks@[b]
    }

    /// The blocks on the inbound FIFO of rank `r`, from head to tail.
    pub open spec fn queue(&self, r: int) -> Seq<(Rank, BlockID)> {
        self.reg(r).queue@
    }

    pub open spec fn state(&self, p: int, b: int) -> BlockState {
        self.reg(p).states@[b]
    }

    /// The FIFO of rank `r` is the linked list that its ghost queue records:
    /// head and tail name the ends, each block links to the next, the last
    /// links nowhere, no block appears twice, and a block on its way home is
    /// on its owner's FIFO.
    pub open spec fn fifo_wf(&self, r: int) -> bool {
        let q = self.queue(r);
        &&& q.len() == 0 ==> self.reg(r).fifo.head == FIFO_FREE && self.reg(r).fifo.tail == FIFO_FREE
        &&& q.len() > 0 ==> {
            &&& self.reg(r).fifo.head as int == lk(q[0])
            &&& self.reg(r).fifo.tail as int == lk(q.last())
            &&& self.blk(q.last().0 as int, q.last().1 as int).next == FIFO_FREE
        }
        &&& forall|i: int|
            0 <= i < q.len() ==> {
                &&& self.has_block((#[trigger] q[i]).0 as int, q[i].1 as int)
                &&& self.state(q[i].0 as int, q[i].1 as int) == BlockState::Queued(r as Rank)
                &&& self.blk(q[i].0 as int, q[i].1 as int).complete ==> q[i].0 == r
            }
        &&& forall|i: int|
            0 <= i < q.len() - 1 ==> self.blk((#[trigger] q[i]).0 as int, q[i].1 as int).next as int
                == lk(q[i + 1])
        &&& q.no_duplicates()
    }

    /// A block that is marked queued is on that rank's FIFO.
    pub open spec fn state_wf(&self, p: int, b: int) -> bool {
        self.state(p, b) is Queued ==> {
            let r = self.state(p, b)->Queued_0 as int;
            self.present(r) && self.queue(r).contains((p as Rank, b as BlockID))
        }
    }

    /// The invariant of the map.
    pub open spec fn wf(&self) -> bool {
        &&& self.slots().len() <= RANK_LIMIT
        &&& forall|r: int| #[trigger] self.present(r) ==> self.reg(r).wf() && self.fifo_wf(r)
        &&& forall|p: int, b: int| #[trigger] self.has_block(p, b) ==> self.state_wf(p, b)
    }

    /// Everything but the link words, the ghost queues and the block states is
    /// as in `other`.
    pub open spec fn same_payloads(&self, other: &SharedRegionMap) -> bool {
        &&& self.slots().len() == other.slots().len()
        &&& forall|r: int| #[trigger] self.present(r) <==> other.present(r)
        &&& forall|p: int, b: int|
            #[trigger] self.has_block(p, b) ==> {
                &&& self.blk(p, b).tag == other.blk(p, b).tag
                &&& self.blk(p, b).complete == other.blk(p, b).complete
                &&& self.blk(p, b).len == other.blk(p, b).len
                &&& self.blk(p, b).data@ == other.blk(p, b).data@
            }
    }

    /// An empty map.
    pub fn new() -> (r: SharedRegionMap)
        ensures
            r.wf(),
            r.slots().len() == 0,
    {
        SharedRegionMap { regions: Vec::new(), attached: Vec::new() }
    }

    /// Whether the region of `rank` is in the map.
    pub fn contains(&self, rank: Rank) -> (r: bool)
        ensures
            r == self.present(rank as int),
    {
        (rank as usize) < self.regions.len() && self.regions[rank as usize].is_some()
    }

    /// The region of `rank`.
    pub fn region(&self, rank: Rank) -> (r: &SharedRegion)
        requires
            self.present(rank as int),
        ensures
            *r == self.reg(rank as int),
    {
        self.regions[rank as usize].as_ref().unwrap()
    }

    /// Use a mutable reference to the region of `rank`.
    pub(crate) fn region_mut(&mut self, rank: Rank) -> (r: &mut SharedRegion)
        requires
            old(self).present(rank as int),
        ensures
            final(self).attachments() == old(self).attachments(),
            *r == old(self).reg(rank as int),
            final(self).slots() == old(self).slots().update(rank as int, Some(*final(r))),
    {
        self.regions[rank as usize].as_mut().unwrap()
    }
    /// `self` is `other` but for block `(p, b)`: its contents and its state.
    pub open spec fn agrees_except(&self, other: &SharedRegionMap, p: int, b: int) -> bool {
        &&& self.slots().len() == other.slots().len()
        &&& forall|r: int| #[trigger] self.present(r) <==> other.present(r)
        &&& forall|r: int|
            #[trigger] self.present(r) ==> {
                &&& self.reg(r).fifo == other.reg(r).fifo
                &&& self.queue(r) == other.queue(r)
                &&& self.reg(r).blocks@.len() == other.reg(r).blocks@.len()
                &&& self.reg(r).states@.len() == other.reg(r).states@.len()
            }
        &&& forall|p2: int, b2: int|
            #[trigger] self.has_block(p2, b2) && (p2, b2) != (p, b) ==> {
                &&& self.blk(p2, b2) == other.blk(p2, b2)
                &&& self.state(p2, b2) == other.state(p2, b2)
            }
    }

    /// Every block but `(p, b)` keeps its state, its tag, flag, length and
    /// data, and, when it is on no FIFO, its link word too.
    pub open spec fn frame_except(&self, other: &SharedRegionMap, p: int, b: int) -> bool {
        &&& self.slots().len() == other.slots().len()
        &&& forall|r: int| #[trigger] self.present(r) <==> other.present(r)
        &&& forall|p2: int, b2: int|
            #[trigger] other.has_block(p2, b2) && (p2, b2) != (p, b) ==> {
                &&& self.state(p2, b2) == other.state(p2, b2)
                &&& self.blk(p2, b2).tag == other.blk(p2, b2).tag
                &&& self.blk(p2, b2).complete == other.blk(p2, b2).complete
                &&& self.blk(p2, b2).len == other.blk(p2, b2).len
                &&& self.blk(p2, b2).data@ == other.blk(p2, b2).data@
                &&& !(other.state(p2, b2) is Queued) ==> self.blk(p2, b2) == other.blk(p2, b2)
            }
    }

    /// A change confined to one block frames every other block.
    pub proof fn lemma_frame_from_agrees(m0: &SharedRegionMap, m1: &SharedRegionMap, p: int, b: int)
        requires
            m1.agrees_except(m0, p, b),
        ensures
            m1.frame_except(m0, p, b),
    {
        assert forall|p2: int, b2: int| #[trigger] m0.has_block(p2, b2) && (p2, b2) != (p, b) implies {
            &&& m1.blk(p2, b2) == m0.blk(p2, b2)
            &&& m1.state(p2, b2) == m0.state(p2, b2)
        } by {
            assert(m1.has_block(p2, b2));
        }
    }

    /// Frames around the same block compose.
    pub proof fn lemma_frame_trans(m0: &SharedRegionMap, m1: &SharedRegionMap, m2: &SharedRegionMap, p: int, b: int)
        requires
            m1.frame_except(m0, p, b),
            m2.frame_except(m1, p, b),
        ensures
            m2.frame_except(m0, p, b),
    {
        assert forall|p2: int, b2: int| #[trigger] m0.has_block(p2, b2) && (p2, b2) != (p, b) implies {
            &&& m2.state(p2, b2) == m0.state(p2, b2)
            &&& m2.blk(p2, b2).tag == m0.blk(p2, b2).tag
            &&& m2.blk(p2, b2).complete == m0.blk(p2, b2).complete
            &&& m2.blk(p2, b2).len == m0.blk(p2, b2).len
            &&& m2.blk(p2, b2).data@ == m0.blk(p2, b2).data@
            &&& !(m0.state(p2, b2) is Queued) ==> m2.blk(p2, b2) == m0.blk(p2, b2)
        } by {
            assert(m1.has_block(p2, b2));
        }
    }

    /// Two maps with the same regions agree on everything the invariant and
    /// the contracts read.
    pub proof fn lemma_same_slots(m1: &SharedRegionMap, m2: &SharedRegionMap)
        requires
            m2.slots() == m1.slots(),
        ensures
            forall|r: int| #[trigger] m2.present(r) == m1.present(r),
            forall|r: int| #[trigger] m2.reg(r) == m1.reg(r),
            forall|r: int| #[trigger] m2.queue(r) == m1.queue(r),
            forall|p: int, b: int| #[trigger] m2.has_block(p, b) == m1.has_block(p, b),
            forall|p: int, b: int| #[trigger] m2.blk(p, b) == m1.blk(p, b),
            forall|p: int, b: int| #[trigger] m2.state(p, b) == m1.state(p, b),
            m1.wf() ==> m2.wf(),
    {
        if m1.wf() {
            assert forall|r: int| #[trigger] m2.present(r) implies m2.reg(r).wf() && m2.fifo_wf(r) by {
                assert(m1.present(r));
                assert(m1.fifo_wf(r));
                let q = m2.queue(r);
                assert(q == m1.queue(r));
                assert forall|i: int| 0 <= i < q.len() implies {
                    &&& m2.has_block((#[trigger] q[i]).0 as int, q[i].1 as int)
                    &&& m2.state(q[i].0 as int, q[i].1 as int) == BlockState::Queued(r as Rank)
                    &&& m2.blk(q[i].0 as int, q[i].1 as int).complete ==> q[i].0 == r
                } by {
                    assert(m1.has_block(q[i].0 as int, q[i].1 as int));
                }
                assert forall|i: int| 0 <= i < q.len() - 1 implies m2.blk((#[trigger] q[i]).0 as int, q[i].1 as int).next as int
                    == lk(q[i + 1]) by {
                    assert(m1.blk(q[i].0 as int, q[i].1 as int).next as int == lk(q[i + 1]));
                }
                if q.len() > 0 {
                    assert(m1.blk(q.last().0 as int, q.last().1 as int).next == FIFO_FREE);
                }
            }
            assert forall|p: int, b: int| #[trigger] m2.has_block(p, b) implies m2.state_wf(p, b) by {
                assert(m1.has_block(p, b));
                assert(m1.state_wf(p, b));
                if m2.state(p, b) is Queued {
                    let r = m2.state(p, b)->Queued_0 as int;
                    assert(m1.present(r));
                }
            }
        }
    }

    /// A map keeps its own payloads.
    pub proof fn lemma_same_payloads_refl(m: &SharedRegionMap)
        ensures
            m.same_payloads(m),
    {
    }

    /// Changes that keep every payload compose.
    pub proof fn lemma_same_payloads_trans(m0: &SharedRegionMap, m1: &SharedRegionMap, m2: &SharedRegionMap)
        requires
            m1.same_payloads(m0),
            m2.same_payloads(m1),
        ensures
            m2.same_payloads(m0),
    {
        assert forall|p: int, b: int| #[trigger] m2.has_block(p, b) implies {
            &&& m2.blk(p, b).tag == m0.blk(p, b).tag
            &&& m2.blk(p, b).complete == m0.blk(p, b).complete
            &&& m2.blk(p, b).len == m0.blk(p, b).len
            &&& m2.blk(p, b).data@ == m0.blk(p, b).data@
        } by {
            assert(m1.has_block(p, b));
        }
    }

    /// Changes confined to one block compose.
    pub proof fn lemma_agrees_trans(m0: &SharedRegionMap, m1: &SharedRegionMap, m2: &SharedRegionMap, p: int, b: int)
        requires
            m1.agrees_except(m0, p, b),
            m2.agrees_except(m1, p, b),
        ensures
            m2.agrees_except(m0, p, b),
    {
        assert forall|p2: int, b2: int| #[trigger] m2.has_block(p2, b2) && (p2, b2) != (p, b) implies {
            &&& m2.blk(p2, b2) == m0.blk(p2, b2)
            &&& m2.state(p2, b2) == m0.state(p2, b2)
        } by {
            assert(m1.has_block(p2, b2));
        }
        assert forall|r: int| #[trigger] m2.present(r) implies {
            &&& m2.reg(r).fifo == m0.reg(r).fifo
            &&& m2.queue(r) == m0.queue(r)
            &&& m2.reg(r).blocks@.len() == m0.reg(r).blocks@.len()
            &&& m2.reg(r).states@.len() == m0.reg(r).states@.len()
        } by {
            assert(m1.present(r));
        }
    }

    /// A block on no FIFO may change, and change state, as long as it stays
    /// well formed and off every FIFO.
    pub proof fn lemma_unqueued_change(m0: &SharedRegionMap, m1: &SharedRegionMap, p: int, b: int)
        requires
            m0.wf(),
            m0.has_block(p, b),
            !(m0.state(p, b) is Queued),
            !(m1.state(p, b) is Queued),
            m1.blk(p, b).wf(),
            m1.agrees_except(m0, p, b),
        ensures
            m1.wf(),
    {
        assert forall|r: int| #[trigger] m1.present(r) implies m1.reg(r).wf() && m1.fifo_wf(r) by {
            assert(m0.present(r));
            assert(m0.reg(r).wf() && m0.fifo_wf(r));
            assert forall|b2: int| 0 <= b2 < MAX_BLOCKS implies (#[trigger] m1.reg(r).blocks@[b2]).wf() by {
                assert(m0.has_block(r, b2));
                assert(m0.reg(r).blocks@[b2].wf());
                assert(m1.has_block(r, b2));
            }
            let q = m1.queue(r);
            assert forall|i: int| 0 <= i < q.len() implies {
                &&& m1.blk((#[trigger] q[i]).0 as int, q[i].1 as int) == m0.blk(q[i].0 as int, q[i].1 as int)
                &&& m1.state(q[i].0 as int, q[i].1 as int) == m0.state(q[i].0 as int, q[i].1 as int)
            } by {
                assert(m0.has_block(q[i].0 as int, q[i].1 as int));
                assert(m1.has_block(q[i].0 as int, q[i].1 as int));
            }
            if q.len() > 0 {
                let j = q.len() - 1;
                assert(m1.blk(q[j].0 as int, q[j].1 as int) == m0.blk(q[j].0 as int, q[j].1 as int));
            }
            assert forall|i: int| 0 <= i < q.len() - 1 implies m1.blk((#[trigger] q[i]).0 as int, q[i].1 as int).next as int
                == lk(q[i + 1]) by {
                assert(m1.blk(q[i].0 as int, q[i].1 as int) == m0.blk(q[i].0 as int, q[i].1 as int));
            }
        }
        assert forall|p2: int, b2: int| #[trigger] m1.has_block(p2, b2) implies m1.state_wf(p2, b2) by {
            assert(m0.has_block(p2, b2));
            assert(m0.state_wf(p2, b2));
            if m1.state(p2, b2) is Queued {
                let r = m1.state(p2, b2)->Queued_0 as int;
                assert(m0.present(r));
                assert(m1.present(r));
            }
        }
    }

    /// Use a mutable reference to block `b` of the region of `p`.
    pub(crate) fn block_mut(&mut self, p: Rank, b: BlockID) -> (r: &mut Block)
        requires
            old(self).wf(),
            old(self).has_block(p as int, b as int),
        ensures
            final(self).attachments() == old(self).attachments(),
            *r == old(self).blk(p as int, b as int),
            final(self).slots().len() == old(self).slots().len(),
            forall|r2: int| #[trigger] final(self).present(r2) <==> old(self).present(r2),
            forall|r2: int| #[trigger] old(self).present(r2) && r2 != p ==> final(self).reg(r2) == old(self).reg(r2),
            final(self).reg(p as int).fifo == old(self).reg(p as int).fifo,
            final(self).reg(p as int).queue == old(self).reg(p as int).queue,
            final(self).reg(p as int).states == old(self).reg(p as int).states,
            final(self).reg(p as int).blocks@ == old(self).reg(p as int).blocks@.update(b as int, *final(r)),
    {
        proof {
            assert(old(self).present(p as int));
        }
        let reg = self.region_mut(p);
        &mut reg.blocks[b as usize]
    }

    /// Set where block `(p, b)` stands.
    pub(crate) fn set_state(&mut self, p: Rank, b: BlockID, s: Ghost<BlockState>)
        requires
            old(self).has_block(p as int, b as int),
        ensures
            final(self).attachments() == old(self).attachments(),
            final(self).slots().len() == old(self).slots().len(),
            forall|r2: int| #[trigger] final(self).present(r2) <==> old(self).present(r2),
            forall|r2: int| #[trigger] old(self).present(r2) && r2 != p ==> final(self).reg(r2) == old(self).reg(r2),
            final(self).reg(p as int).fifo == old(self).reg(p as int).fifo,
            final(self).reg(p as int).queue == old(self).reg(p as int).queue,
            final(self).reg(p as int).blocks == old(self).reg(p as int).blocks,
            final(self).reg(p as int).states@ == old(self).reg(p as int).states@.update(b as int, s@),
    {
        let reg = self.region_mut(p);
        reg.states = Ghost(reg.states@.update(b as int, s@));
    }

    /// The descriptor of block `(rank, block_id)`, reset: one segment over
    /// the block's payload, no callback.
    pub fn init_descriptor(&self, rank: Rank, block_id: BlockID) -> (r: Descriptor)
        requires
            self.wf(),
            self.has_block(rank as int, block_id as int),
        ensures
            r == Descriptor::fresh(rank, block_id, self.blk(rank as int, block_id as int).len),
    {
        let len = self.region(rank).blocks[block_id as usize].len;
        Descriptor {
            rank,
            block_id,
            cbfunc: None,
            cbdata: 0,
            context: 0,
            flags: 0,
            order: 0,
            segment_count: 1,
            seg_len: len,
        }
    }

    /// Clear the callback and flags of a descriptor.
    pub fn reset_descriptor(&self, des: &mut Descriptor)
        ensures
            *final(des) == (Descriptor {
                cbfunc: None,
                cbdata: 0,
                context: 0,
                flags: 0,
                order: 0,
                ..*old(des)
            }),
    {
        des.cbfunc = None;
        des.cbdata = 0;
        des.context = 0;
        des.flags = 0;
        des.order = 0;
    }
    /// Insert the region of `rank`, a region just created.
    pub fn insert(&mut self, rank: Rank, handle: SharedRegion)
        requires
            old(self).wf(),
            rank < RANK_LIMIT,
            !old(self).present(rank as int),
            handle.fresh(),
        ensures
            final(self).wf(),
            final(self).reg(rank as int) == handle,
            forall|r: int| #[trigger] final(self).present(r) <==> (old(self).present(r) || r == rank),
            forall|r: int| #[trigger] old(self).present(r) ==> final(self).reg(r) == old(self).reg(r),
            final(self).attachments() == old(self).attachments().push(rank),
    {
        let ghost m0 = *self;
        let idx = rank as usize;
        while self.regions.len() <= idx
            invariant
                m0.slots().len() <= self.regions@.len(),
                self.regions@.len() == m0.slots().len() || self.regions@.len() <= idx + 1,
                m0.slots().len() <= RANK_LIMIT,
                self.attached@ == m0.attachments(),
                forall|r: int| 0 <= r < m0.slots().len() ==> #[trigger] self.regions@[r] == m0.slots()[r],
                forall|r: int| m0.slots().len() <= r < self.regions@.len() ==> #[trigger] self.regions@[r] is None,
            decreases idx + 1 - self.regions@.len(),
        {
            self.regions.push(None);
        }
        self.regions.set(idx, Some(handle));
        self.attached.push(rank);
        proof {
            let m1 = *self;
            assert forall|r: int| #[trigger] m0.present(r) implies m1.present(r) && m1.reg(r) == m0.reg(r) by {}
            assert forall|r: int| #[trigger] m1.present(r) implies m1.reg(r).wf() && m1.fifo_wf(r) by {
                if r != rank {
                    assert(m0.present(r));
                    assert(m0.fifo_wf(r));
                    let q = m1.queue(r);
                    assert forall|i: int| 0 <= i < q.len() implies m1.has_block((#[trigger] q[i]).0 as int, q[i].1 as int)
                        && m1.blk(q[i].0 as int, q[i].1 as int) == m0.blk(q[i].0 as int, q[i].1 as int)
                        && m1.state(q[i].0 as int, q[i].1 as int) == m0.state(q[i].0 as int, q[i].1 as int) by {
                        assert(m0.has_block(q[i].0 as int, q[i].1 as int));
                    }
                    if q.len() > 0 {
                        let j = q.len() - 1;
                        assert(m1.blk(q[j].0 as int, q[j].1 as int) == m0.blk(q[j].0 as int, q[j].1 as int));
                    }
                    assert forall|i: int| 0 <= i < q.len() - 1 implies m1.blk((#[trigger] q[i]).0 as int, q[i].1 as int).next as int
                        == lk(q[i + 1]) by {
                        assert(m1.blk(q[i].0 as int, q[i].1 as int) == m0.blk(q[i].0 as int, q[i].1 as int));
                    }
                }
            }
            assert forall|p: int, b: int| #[trigger] m1.has_block(p, b) implies m1.state_wf(p, b) by {
                if p != rank {
                    assert(m0.has_block(p, b));
                    assert(m0.state_wf(p, b));
                    if m1.state(p, b) is Queued {
                        let r = m1.state(p, b)->Queued_0 as int;
                        assert(m0.present(r));
                    }
                }
            }
        }
    }
    /// Every link word in the map, the head and tail of each FIFO and the
    /// `next` of each block, is `FIFO_FREE` or names a block id below
    /// `MAX_BLOCKS`.
    pub proof fn lemma_link_words_valid(&self, r: int)
        requires
            self.wf(),
            self.present(r),
        ensures
            valid_word(self.reg(r).fifo.head),
            valid_word(self.reg(r).fifo.tail),
            forall|b: int| 0 <= b < MAX_BLOCKS ==> valid_word(#[trigger] self.blk(r, b).next),
    {
        assert(self.fifo_wf(r));
        let q = self.queue(r);
        if q.len() > 0 {
            assert(self.has_block(q[0].0 as int, q[0].1 as int));
            assert(self.has_block(q.last().0 as int, q.last().1 as int));
            lemma_decode_encode(q[0].0 as int, q[0].1 as int);
            lemma_decode_encode(q.last().0 as int, q.last().1 as int);
        }
        assert forall|b: int| 0 <= b < MAX_BLOCKS implies valid_word(#[trigger] self.blk(r, b).next) by {
            assert(self.reg(r).blocks@[b].wf());
        }
    }

    /// A forward walk of any FIFO meets no block twice, and a block marked
    /// complete is on the FIFO of the rank that owns it.
    pub proof fn lemma_fifo_entries(&self, r: int)
        requires
            self.wf(),
            self.present(r),
        ensures
            self.queue(r).no_duplicates(),
            forall|i: int|
                0 <= i < self.queue(r).len() && #[trigger] self.blk(
                    self.queue(r)[i].0 as int,
                    self.queue(r)[i].1 as int,
                ).complete ==> self.queue(r)[i].0 == r,
    {
        assert(self.fifo_wf(r));
    }

    /// A block sits on at most one FIFO, the one its state names.
    pub proof fn lemma_on_one_fifo(&self, p: int, b: int, r: int)
        requires
            self.wf(),
            self.has_block(p, b),
            self.present(r),
            self.queue(r).contains((p as Rank, b as BlockID)),
        ensures
            self.state(p, b) == BlockState::Queued(r as Rank),
    {
        assert(self.fifo_wf(r));
        let i = choose|i: int| 0 <= i < self.queue(r).len() && self.queue(r)[i] == (p as Rank, b as BlockID);
        assert(self.has_block(self.queue(r)[i].0 as int, self.queue(r)[i].1 as int));
    }
    /// Remove the region of `rank` from the map, once nothing of it is in
    /// use: its FIFO is empty and every one of its blocks is free.
    pub fn remove(&mut self, rank: Rank) -> (r: Option<SharedRegion>)
        requires
            old(self).wf(),
            old(self).present(rank as int) ==> old(self).queue(rank as int).len() == 0 && forall|b: int|
                0 <= b < MAX_BLOCKS ==> #[trigger] old(self).state(rank as int, b) == BlockState::Free,
        ensures
            final(self).wf(),
            r == if old(self).present(rank as int) {
                Some(old(self).reg(rank as int))
            } else {
                None::<SharedRegion>
            },
            forall|q: int| #[trigger] final(self).present(q) <==> (old(self).present(q) && q != rank),
            forall|q: int| #[trigger] final(self).present(q) ==> final(self).reg(q) == old(self).reg(q),
    {
        if (rank as usize) >= self.regions.len() {
            return None;
        }
        let ghost m0 = *self;
        let r = self.regions[rank as usize].take();
        proof {
            let m1 = *self;
            assert forall|q: int| #[trigger] m1.present(q) implies m1.reg(q) == m0.reg(q) && m0.present(q) && q
                != rank by {}
            assert forall|q: int| #[trigger] m1.present(q) implies m1.reg(q).wf() && m1.fifo_wf(q) by {
                assert(m0.fifo_wf(q));
                let qq = m1.queue(q);
                assert forall|i: int| 0 <= i < qq.len() implies m1.has_block((#[trigger] qq[i]).0 as int, qq[i].1 as int)
                    && m1.blk(qq[i].0 as int, qq[i].1 as int) == m0.blk(qq[i].0 as int, qq[i].1 as int)
                    && m1.state(qq[i].0 as int, qq[i].1 as int) == m0.state(qq[i].0 as int, qq[i].1 as int) by {
                    assert(m0.has_block(qq[i].0 as int, qq[i].1 as int));
                    if qq[i].0 == rank {
                        assert(m0.state(rank as int, qq[i].1 as int) == BlockState::Free);
                    }
                }
                if qq.len() > 0 {
                    let j = qq.len() - 1;
                    assert(m1.blk(qq[j].0 as int, qq[j].1 as int) == m0.blk(qq[j].0 as int, qq[j].1 as int));
                }
                assert forall|i: int| 0 <= i < qq.len() - 1 implies m1.blk((#[trigger] qq[i]).0 as int, qq[i].1 as int).next as int
                    == lk(qq[i + 1]) by {
                    assert(m1.blk(qq[i].0 as int, qq[i].1 as int) == m0.blk(qq[i].0 as int, qq[i].1 as int));
                }
            }
            assert forall|p: int, b: int| #[trigger] m1.has_block(p, b) implies m1.state_wf(p, b) by {
                assert(m0.has_block(p, b));
                assert(m0.state_wf(p, b));
                if m1.state(p, b) is Queued {
                    let q = m1.state(p, b)->Queued_0 as int;
                    assert(m0.present(q));
                    if q == rank {
                        assert(m0.queue(q).contains((p as Rank, b as BlockID)));
                    }
                }
            }
        }
        r
    }
}

} // verus!
