use rsm::block_store::BlockStore;
use rsm::fifo::{encode_rank_block_id, extract_rank_block_id, FIFO, FIFO_FREE};
use rsm::local_data::LocalData;
use rsm::module::{classify_proc, Handler, HandlerKind, PeerKind};
use rsm::shared::{make_path, region_path, SharedRegion, SharedRegionMap, BLOCK_SIZE, MAX_BLOCKS};
use rsm::shmem::{Segment, SegmentOptions};
use rsm::Error;

/// Drain the inbound FIFO of `ld`, recording each handler before committing it.
fn progress(ld: &mut LocalData, map: &mut SharedRegionMap, seen: &mut Vec<(u32, i32, bool, u8, Vec<u8>)>) -> usize {
    ld.progress_pending(map);
    let mut count = 0;
    loop {
        let h: Handler = match ld.poll(map) {
            Some(h) => h,
            None => break,
        };
        match &h.kind {
            HandlerKind::ReceiveCallback(tag, _, payload) => seen.push((h.rank, h.block_id, false, *tag, payload.clone())),
            HandlerKind::CompleteCallback(_) => seen.push((h.rank, h.block_id, true, 0, vec![])),
        }
        if ld.finish(map, h) {
            count += 1;
        }
    }
    count
}

fn two_ranks() -> (SharedRegionMap, LocalData, LocalData) {
    let mut map = SharedRegionMap::new();
    let r0 = LocalData::init(&mut map, 0);
    let r1 = LocalData::init(&mut map, 1);
    (map, r0, r1)
}

#[test]
fn link_word_encoding() {
    assert_eq!(encode_rank_block_id(0, 0), 0);
    assert_eq!(encode_rank_block_id(1, 5), (1i64 << 32) | 5);
    assert_eq!(encode_rank_block_id(3, 255), 3 * 4294967296 + 255);
    assert_eq!(extract_rank_block_id((1i64 << 32) | 5), (1, 5));
    assert_eq!(extract_rank_block_id(7), (0, 7));
    assert_ne!(encode_rank_block_id(0, 0), FIFO_FREE);
}

#[test]
fn link_word_round_trip() {
    for v in [0i64, 1, 255, (2i64 << 32) | 17, (0x7fff_ffffi64 << 32) | 0x7fff_ffff] {
        let (r, b) = extract_rank_block_id(v);
        assert_eq!(encode_rank_block_id(r, b), v);
    }
}

#[test]
fn block_store_is_lifo_and_exhausts() {
    let mut store = BlockStore::new();
    assert_eq!(store.len(), MAX_BLOCKS);
    assert_eq!(store.allocate(), Some(255));
    assert_eq!(store.allocate(), Some(254));
    store.free(255);
    assert_eq!(store.allocate(), Some(255));
    let mut n = 2;
    while store.allocate().is_some() {
        n += 1;
    }
    assert_eq!(n, MAX_BLOCKS);
    assert_eq!(store.allocate(), None);
}

#[test]
fn alloc_after_all_blocks_outstanding_returns_none() {
    let (mut map, mut r0, _r1) = two_ranks();
    for _ in 0..MAX_BLOCKS {
        assert!(r0.allocate(&mut map, 8).is_some());
    }
    assert!(r0.allocate(&mut map, 8).is_none());
    assert_eq!(r0.descriptors.len(), MAX_BLOCKS);
}

#[test]
fn allocate_sets_length_and_descriptor() {
    let (mut map, mut r0, _r1) = two_ranks();
    let d = r0.allocate(&mut map, 100).unwrap();
    assert_eq!(d.rank, 0);
    assert_eq!(d.block_id, 255);
    assert_eq!(d.seg_len, 100);
    assert_eq!(d.segment_count, 1);
    assert_eq!(map.region(0).blocks[255].len, 100);
    assert_eq!(r0.find_descriptor(0, 255), Some(0));
    r0.free(&map, &d);
    assert_eq!(r0.find_descriptor(0, 255), None);
    assert_eq!(r0.block_store.len(), MAX_BLOCKS - 1);
}

#[test]
fn loopback_eager_send_immediate() {
    let (mut map, mut r0, _r1) = two_ranks();
    let out = r0.send_immediate(&mut map, 0, &[0xAA], &[0x01, 0x02, 0x03], 7, false);
    assert_eq!(out.unwrap().is_none(), true);
    let b = 255;
    assert_eq!(map.region(0).fifo.head, encode_rank_block_id(0, b));
    assert_eq!(map.region(0).fifo.tail, encode_rank_block_id(0, b));

    let mut seen = Vec::new();
    let count = progress(&mut r0, &mut map, &mut seen);
    assert_eq!(count, 1);
    // The receive callback saw the message once, then the bounced block came
    // back and was reclaimed in the same pass.
    assert_eq!(seen.len(), 2);
    assert_eq!(seen[0], (0, b, false, 7, vec![0xAA, 0x01, 0x02, 0x03]));
    assert_eq!(seen[0].4.len(), 4);
    assert_eq!(seen[1], (0, b, true, 0, vec![]));
    assert_eq!(r0.block_store.len(), MAX_BLOCKS);
    assert_eq!(map.region(0).fifo.head, FIFO_FREE);
    assert_eq!(map.region(0).fifo.tail, FIFO_FREE);
    assert!(!map.region(0).blocks[b as usize].complete);

    let mut again = Vec::new();
    assert_eq!(progress(&mut r0, &mut map, &mut again), 0);
    assert!(again.is_empty());
}

#[test]
fn cross_rank_single_send() {
    let (mut map, mut r0, mut r1) = two_ranks();
    let to_r1 = r0.add_endpoint(&map, 1);
    let to_r0 = r1.add_endpoint(&map, 0);
    let payload = [0x42u8; 16];
    let d = r0.allocate(&mut map, 16).unwrap();
    r0.write_block(&mut map, d.block_id, 0, &payload);
    assert!(r0.set_callback(&map, d.block_id, Some(11), 5));
    let b = d.block_id;
    r0.send(&mut map, to_r1, &d, 3);
    assert_eq!(r0.pending.len(), 1);
    assert_eq!(map.region(1).fifo.head, FIFO_FREE);

    // Rank 0's progress links the deferred block on rank 1's FIFO.
    let mut seen0 = Vec::new();
    assert_eq!(progress(&mut r0, &mut map, &mut seen0), 0);
    assert!(seen0.is_empty());
    assert!(r0.pending.is_empty());
    assert_eq!(map.region(1).fifo.head, encode_rank_block_id(0, b));

    // Rank 1 runs the tag-3 callback and bounces the block.
    let h = r1.poll(&mut map).unwrap();
    assert_eq!((h.rank, h.block_id), (0, b));
    match &h.kind {
        HandlerKind::ReceiveCallback(tag, ep, data) => {
            assert_eq!(*tag, 3);
            assert_eq!(*ep, Some(to_r0));
            assert_eq!(data, &vec![0x42u8; 16]);
        }
        HandlerKind::CompleteCallback(_) => panic!("expected an incoming message"),
    }
    assert!(r1.finish(&mut map, h));
    assert!(r1.poll(&mut map).is_none());
    assert!(map.region(0).blocks[b as usize].complete);
    assert_eq!(map.region(0).fifo.head, encode_rank_block_id(0, b));

    // Rank 0 sees its block back with its descriptor, and reclaims it.
    let h = r0.poll(&mut map).unwrap();
    match &h.kind {
        HandlerKind::CompleteCallback(Some(des)) => {
            assert_eq!(des.block_id, b);
            assert_eq!(des.cbfunc, Some(11));
            assert_eq!(des.cbdata, 5);
        }
        _ => panic!("expected the returned block with its descriptor"),
    }
    assert!(!r0.finish(&mut map, h));
    assert!(r0.descriptors.is_empty());
    assert_eq!(r0.block_store.len(), MAX_BLOCKS);
    assert!(!map.region(0).blocks[b as usize].complete);
    assert_eq!(map.region(0).blocks[b as usize].next, FIFO_FREE);
}

#[test]
fn empty_fifo_pop() {
    let (mut map, mut r0, _r1) = two_ranks();
    assert_eq!(FIFO::new(0).pop(&mut map), None);
    assert!(r0.poll(&mut map).is_none());
    let mut seen = Vec::new();
    assert_eq!(progress(&mut r0, &mut map, &mut seen), 0);
}

#[test]
fn wrap_around_allocation() {
    let (mut map, mut r0, _r1) = two_ranks();
    for i in 0..3 * MAX_BLOCKS {
        let byte = (i % 251) as u8;
        r0.send_immediate(&mut map, 0, &[], &[byte], 1, false).unwrap();
        let mut seen = Vec::new();
        assert_eq!(progress(&mut r0, &mut map, &mut seen), 1);
        assert_eq!(seen[0].4, vec![byte]);
    }
    assert_eq!(r0.block_store.len(), MAX_BLOCKS);
    let mut ids = Vec::new();
    while let Some(b) = r0.block_store.allocate() {
        ids.push(b);
    }
    ids.sort();
    assert_eq!(ids, (0..MAX_BLOCKS as i32).collect::<Vec<_>>());
}

#[test]
fn interleaved_producers_keep_their_order() {
    let mut map = SharedRegionMap::new();
    let mut c = LocalData::init(&mut map, 0);
    let mut p1 = LocalData::init(&mut map, 1);
    let mut p2 = LocalData::init(&mut map, 2);
    let to_c1 = p1.add_endpoint(&map, 0);
    let to_c2 = p2.add_endpoint(&map, 0);
    c.add_endpoint(&map, 1);
    c.add_endpoint(&map, 2);
    let mut sent = [0u32; 2];
    let mut got: Vec<(u32, u32)> = Vec::new();
    let mut step: u64 = 12345;
    while sent[0] < 1000 || sent[1] < 1000 {
        step = step.wrapping_mul(6364136223846793005).wrapping_add(1442695040888963407);
        let which = if sent[0] == 1000 { 1 } else if sent[1] == 1000 { 0 } else { ((step >> 33) % 2) as usize };
        let (prod, ep) = if which == 0 { (&mut p1, to_c1) } else { (&mut p2, to_c2) };
        let n = sent[which];
        match prod.send_immediate(&mut map, ep, &n.to_le_bytes(), &[], 9, false) {
            Ok(_) => sent[which] += 1,
            Err(e) => assert_eq!(e, Error::OOM),
        }
        if step % 7 == 0 || sent[0] + sent[1] == 2000 {
            let mut seen = Vec::new();
            progress(&mut c, &mut map, &mut seen);
            for (rank, _, _, _, data) in seen {
                got.push((rank, u32::from_le_bytes([data[0], data[1], data[2], data[3]])));
            }
            let mut back = Vec::new();
            progress(&mut p1, &mut map, &mut back);
            progress(&mut p2, &mut map, &mut back);
        }
    }
    for rank in [1u32, 2] {
        let mine: Vec<u32> = got.iter().filter(|x| x.0 == rank).map(|x| x.1).collect();
        assert_eq!(mine, (0..1000).collect::<Vec<u32>>());
    }
    assert_eq!(got.len(), 2000);
}

#[test]
fn send_immediate_without_descriptor_still_reclaims() {
    let (mut map, mut r0, mut r1) = two_ranks();
    let to_r1 = r0.add_endpoint(&map, 1);
    r1.add_endpoint(&map, 0);
    let out = r0.send_immediate(&mut map, to_r1, &[1, 2], &[3], 5, false).unwrap();
    assert!(out.is_none());
    assert!(r0.descriptors.is_empty());
    let mut seen = Vec::new();
    assert_eq!(progress(&mut r1, &mut map, &mut seen), 1);
    assert_eq!(seen[0].4, vec![1, 2, 3]);
    let h = r0.poll(&mut map).unwrap();
    assert!(matches!(h.kind, HandlerKind::CompleteCallback(None)));
    assert!(!r0.finish(&mut map, h));
    assert_eq!(r0.block_store.len(), MAX_BLOCKS);
}

#[test]
fn send_immediate_with_descriptor() {
    let (mut map, mut r0, _r1) = two_ranks();
    let d = r0.send_immediate(&mut map, 0, &[1], &[2, 3], 4, true).unwrap().unwrap();
    assert_eq!((d.rank, d.block_id, d.seg_len), (0, 255, 3));
    assert_eq!(r0.descriptors.len(), 1);
    let mut seen = Vec::new();
    progress(&mut r0, &mut map, &mut seen);
    assert!(r0.descriptors.is_empty());
}

#[test]
fn send_immediate_refused_while_sends_are_deferred() {
    let (mut map, mut r0, _r1) = two_ranks();
    let d = r0.allocate(&mut map, 4).unwrap();
    r0.send(&mut map, 0, &d, 1);
    let free_before = r0.block_store.len();
    let err = r0.send_immediate(&mut map, 0, &[1], &[], 2, true).unwrap_err();
    assert_eq!(err, Error::OOM);
    assert_eq!(err.code(), -2);
    assert_eq!(r0.block_store.len(), free_before);
    assert_eq!(r0.descriptors.len(), 1);
}

#[test]
fn send_immediate_refused_when_no_block_is_free() {
    let (mut map, mut r0, _r1) = two_ranks();
    for _ in 0..MAX_BLOCKS {
        r0.allocate(&mut map, 1).unwrap();
    }
    assert_eq!(r0.send_immediate(&mut map, 0, &[1], &[], 2, false).unwrap_err(), Error::OOM);
}

#[test]
fn prepare_src_leaves_reserve_gap() {
    let (mut map, mut r0, _r1) = two_ranks();
    let d = r0.prepare_src(&mut map, 4, &[9, 8]).unwrap();
    assert_eq!(d.seg_len, 6);
    let blk = &map.region(0).blocks[d.block_id as usize];
    assert_eq!(blk.len, 6);
    assert_eq!(&blk.data[0..6], &[0, 0, 0, 0, 9, 8]);
    let full = vec![7u8; BLOCK_SIZE];
    let d2 = r0.prepare_src(&mut map, 0, &full).unwrap();
    assert_eq!(d2.seg_len, BLOCK_SIZE);
}

#[test]
fn deleting_endpoint_flushes_deferred_sends_first() {
    let (mut map, mut r0, mut r1) = two_ranks();
    let ep = r0.add_endpoint(&map, 1);
    let d = r0.allocate(&mut map, 1).unwrap();
    r0.send(&mut map, ep, &d, 1);
    assert!(map.attached(1));
    assert_eq!(r0.del_endpoint(&mut map, ep), Some(1));
    assert!(r0.endpoints[ep].is_none());
    assert!(!map.attached(1));
    assert!(map.attached(0));
    assert!(r0.pending.is_empty());
    assert_eq!(map.region(1).fifo.head, encode_rank_block_id(0, d.block_id));
    assert_eq!(map.region(0).blocks[d.block_id as usize].tag, 1);
    assert_eq!(r0.del_endpoint(&mut map, ep), None);
    let mut seen = Vec::new();
    assert_eq!(progress(&mut r1, &mut map, &mut seen), 1);
}

#[test]
fn progress_after_drain_changes_nothing() {
    let (mut map, mut r0, _r1) = two_ranks();
    r0.send_immediate(&mut map, 0, &[1], &[], 2, false).unwrap();
    let mut seen = Vec::new();
    progress(&mut r0, &mut map, &mut seen);
    let head = map.region(0).fifo.head;
    let free = r0.block_store.len();
    r0.progress_pending(&mut map);
    assert!(r0.poll(&mut map).is_none());
    assert_eq!(map.region(0).fifo.head, head);
    assert_eq!(r0.block_store.len(), free);
}

#[test]
fn error_codes() {
    assert_eq!(Error::OOM.code(), -2);
    assert_eq!(Error::OpalError(-5).code(), -5);
    assert_eq!(Error::LockError.code(), -1);
    assert_eq!(Error::SharedMemoryFailure.code(), -1);
    assert_eq!(Error::ModexValueRecvFailure.code(), -1);
}

#[test]
fn region_path_shape() {
    let p = make_path("node7".to_string(), 3, 4242);
    assert!(p.starts_with("/dev/shm/node7-"));
    assert!(p.ends_with(".shmem"));
    assert_eq!(p.len(), "/dev/shm/node7-".len() + 16 + ".shmem".len());
    let suffix = &p["/dev/shm/node7-".len()..p.len() - ".shmem".len()];
    assert!(suffix.chars().all(|c| c.is_ascii_alphanumeric()));
}

#[test]
fn procs_are_classified() {
    assert!(classify_proc(1, 2, true, false) == PeerKind::Unreachable);
    assert!(classify_proc(1, 1, false, false) == PeerKind::Unreachable);
    assert!(classify_proc(1, 1, true, true) == PeerKind::Myself);
    assert!(classify_proc(1, 1, true, false) == PeerKind::Peer);
}

#[test]
fn region_map_insert_and_remove() {
    let mut map = SharedRegionMap::new();
    assert!(!map.contains(2));
    map.insert(2, SharedRegion::new());
    assert!(map.contains(2));
    assert!(!map.contains(0));
    assert_eq!(map.region(2).blocks.len(), MAX_BLOCKS);
    assert!(map.remove(2).is_some());
    assert!(!map.contains(2));
    assert!(map.remove(2).is_none());
}

#[test]
fn segment_create() {
    let opts = SegmentOptions {
        backing_directory: "/tmp".to_string(),
        nodename: "n".to_string(),
        euid: 0,
        jobid: 1,
        node_rank: 0,
    };
    assert!(Segment::create(opts, 64) == Segment);
}

#[test]
fn link_words_stay_valid_under_traffic() {
    let (mut map, mut r0, mut r1) = two_ranks();
    let to_r1 = r0.add_endpoint(&map, 1);
    for k in 0..10u8 {
        r0.send_immediate(&mut map, to_r1, &[k], &[], 2, false).unwrap();
    }
    let reg = map.region(1);
    for w in [reg.fifo.head, reg.fifo.tail] {
        assert!(w >= 0);
        let (rank, b) = extract_rank_block_id(w);
        assert_eq!(rank, 0);
        assert!((b as usize) < MAX_BLOCKS);
    }
    for blk in map.region(0).blocks.iter() {
        assert!(blk.next == FIFO_FREE || (blk.next >= 0 && ((blk.next & 0xFFFF_FFFF) as usize) < MAX_BLOCKS));
    }
    let mut seen = Vec::new();
    assert_eq!(progress(&mut r1, &mut map, &mut seen), 10);
    let order: Vec<u8> = seen.iter().map(|x| x.4[0]).collect();
    assert_eq!(order, (0..10).collect::<Vec<u8>>());
}

#[test]
fn block_fill_writes_header_then_payload() {
    let mut blk = rsm::shared::Block::new();
    blk.data[10] = 5;
    blk.fill(&[1, 2], &[3, 4, 5]);
    assert_eq!(blk.len, 5);
    assert_eq!(&blk.data[0..5], &[1, 2, 3, 4, 5]);
    assert_eq!(blk.data[10], 5);
    blk.prepare_fill(3, &[9]);
    assert_eq!(blk.len, 4);
    assert_eq!(&blk.data[0..4], &[1, 2, 3, 9]);
}

#[test]
fn descriptor_init_and_reset() {
    let (mut map, mut r0, _r1) = two_ranks();
    let d = r0.allocate(&mut map, 12).unwrap();
    let mut e = map.init_descriptor(0, d.block_id);
    assert_eq!((e.rank, e.block_id, e.seg_len, e.segment_count), (0, d.block_id, 12, 1));
    e.cbfunc = Some(3);
    e.flags = 7;
    map.reset_descriptor(&mut e);
    assert_eq!(e.cbfunc, None);
    assert_eq!(e.flags, 0);
    assert_eq!(e.block_id, d.block_id);
    assert_eq!(r0.free_descriptor(&map, 0, d.block_id).map(|x| x.block_id), Some(d.block_id));
    assert!(r0.free_descriptor(&map, 0, d.block_id).is_none());
    r0.register_error(Some(4));
    assert_eq!(r0.error_cb, Some(4));
}

#[test]
fn region_path_from_suffix() {
    assert_eq!(region_path("n1", "abcDEF0123456789"), "/dev/shm/n1-abcDEF0123456789.shmem");
    assert_eq!(region_path("", ""), "/dev/shm/-.shmem");
}

#[test]
fn write_block_places_bytes_at_offset() {
    let (mut map, mut r0, _r1) = two_ranks();
    let d = r0.allocate(&mut map, 8).unwrap();
    r0.write_block(&mut map, d.block_id, 3, &[7, 8]);
    let blk = &map.region(0).blocks[d.block_id as usize];
    assert_eq!(&blk.data[0..6], &[0, 0, 0, 7, 8, 0]);
    assert_eq!(blk.len, 8);
    assert!(!r0.set_callback(&map, 3, Some(1), 0));
}

#[test]
fn detach_keeps_other_attachments() {
    let mut map = SharedRegionMap::new();
    map.insert(0, SharedRegion::new());
    map.insert(4, SharedRegion::new());
    assert!(map.attached(0) && map.attached(4));
    map.detach(4);
    assert!(map.attached(0));
    assert!(!map.attached(4));
    assert!(map.contains(4));
}
