//! The progress model: slice partitioning, the completion mask's wire
//! form, failure bookkeeping, and work-item rotation.

use ciruela_sync::engine::{FetchBlocks, FrontTask, PassResult};
use ciruela_sync::digest::compute_digest;
use ciruela_sync::mask::Mask;
use ciruela_sync::progress::{Block, Downloading, PeerFailures};
use ciruela_sync::registry::Registry;
use ciruela_sync::types::{Hash256, PeerAddr, VPath};

fn vpath(s: &str) -> VPath {
    VPath::new(s.as_bytes().to_vec()).expect("absolute path")
}

fn some_hash(b: u8) -> Hash256 {
    Hash256::new(vec![b; 32]).expect("32 bytes")
}

fn dummy_blocks(n: usize) -> Vec<Block> {
    (0..n)
        .map(|i| Block {
            hash: some_hash((i % 250) as u8),
            path: b"f".to_vec(),
            offset: i as u64,
        })
        .collect()
}

#[test]
fn blocks_partition_into_slices_by_residue() {
    let mut dw = Downloading::new(some_hash(1), vpath("/x"), false);
    dw.fill_blocks(&dummy_blocks(600));
    assert_eq!(dw.slices.len(), 256);
    // slice i holds the blocks numbered i, i+256, i+512, ...
    for (i, s) in dw.slices.iter().enumerate() {
        assert_eq!(s.index as usize, i);
        assert_eq!(s.in_progress, 0);
        let expect = if i + 512 < 600 { 3 } else { 2 };
        assert_eq!(s.blocks.len(), expect, "slice {}", i);
        for (m, b) in s.blocks.iter().enumerate() {
            assert_eq!(b.offset as usize, i + 256 * m);
        }
    }
}

#[test]
fn few_blocks_make_few_slices() {
    let mut dw = Downloading::new(some_hash(1), vpath("/x"), false);
    dw.fill_blocks(&dummy_blocks(3));
    assert_eq!(dw.slices.len(), 3);
    for (i, s) in dw.slices.iter().enumerate() {
        assert_eq!(s.index as usize, i);
        assert_eq!(s.blocks.len(), 1);
    }
}

#[test]
fn mask_wire_form() {
    let mut m = Mask::empty();
    m.set(0);
    m.set(63);
    m.set(64);
    m.set(255);
    let words = m.to_words();
    assert_eq!(words.len(), 4);
    assert_eq!(words[0], 1 | (1u64 << 63));
    assert_eq!(words[1], 1);
    assert_eq!(words[2], 0);
    assert_eq!(words[3], 1u64 << 63);
    assert!(m.get(0) && m.get(63) && m.get(64) && m.get(255));
    assert!(!m.get(1));
}

#[test]
fn failure_set_grows_and_clears() {
    let a = PeerAddr { ip: 1, port: 1 };
    let b = PeerAddr { ip: 2, port: 1 };
    let mut f = PeerFailures::empty();
    assert!(!f.contains(a));
    f.add_failure(a);
    f.add_failure(a);
    f.add_failure(b);
    assert!(f.contains(a) && f.contains(b));
    f.clear_peer(a);
    assert!(!f.contains(a));
    assert!(f.contains(b));
}

#[test]
fn virtual_paths_must_be_absolute() {
    assert!(VPath::new(b"/ok".to_vec()).is_some());
    assert!(VPath::new(b"relative".to_vec()).is_none());
    assert!(VPath::new(Vec::new()).is_none());
}

#[test]
fn not_ready_front_items_rotate_to_the_back() {
    let peer = PeerAddr { ip: 1, port: 1 };
    let data: Vec<Vec<u8>> = vec![vec![1u8; 4], vec![2u8; 4]];
    let mut reg = Registry::new();
    let payload_hashes: Vec<Hash256> = data.iter().map(compute_digest).collect();
    let id = some_hash(9);
    let cid = reg.register(peer);
    reg.publish_image(cid, id.clone_hash());
    let mut dw = Downloading::new(id, vpath("/x"), false);
    let blocks: Vec<Block> = payload_hashes
        .iter()
        .map(|h| Block { hash: h.clone_hash(), path: b"f".to_vec(), offset: 0 })
        .collect();
    dw.fill_blocks(&blocks);
    let mut eng = FetchBlocks::new(0);
    let out = eng.scheduler_pass(&mut dw, &reg, 0, false);
    assert!(matches!(out.result, PassResult::Scheduled));
    assert_eq!(out.fetches.len(), 2);
    let first = match eng.front_task() {
        Some(FrontTask::FetchPending { request }) => request,
        other => panic!("expected a fetch at the front, got {:?}", other.is_some()),
    };
    eng.requeue_front(&dw);
    let second = match eng.front_task() {
        Some(FrontTask::FetchPending { request }) => request,
        _ => panic!("expected a fetch at the front"),
    };
    assert_ne!(first, second);
    eng.requeue_front(&dw);
    let again = match eng.front_task() {
        Some(FrontTask::FetchPending { request }) => request,
        _ => panic!("expected a fetch at the front"),
    };
    assert_eq!(first, again);
}
