//! Driving the block fetch engine through whole downloads: the happy
//! path, checksum poisoning, cluster stalls and the overall deadline.

use ciruela_sync::digest::compute_digest;
use ciruela_sync::engine::{
    FailReason, FetchBlocks, FetchCmd, FrontTask, PassResult, CONCURRENCY,
    RETRY_CLUSTER_FAILURE_MS,
};
use ciruela_sync::index::{block_list, FileEntry, IndexData};
use ciruela_sync::progress::Downloading;
use ciruela_sync::registry::Registry;
use ciruela_sync::types::{Hash256, PeerAddr, VPath};

fn vpath(s: &str) -> VPath {
    VPath::new(s.as_bytes().to_vec()).expect("absolute path")
}

fn image_with_blocks(block_size: u64, data: &[Vec<u8>]) -> (Hash256, IndexData, Vec<Vec<u8>>) {
    // one file per data item; each item is already a single block
    let mut files = Vec::new();
    let mut payloads = Vec::new();
    for (i, d) in data.iter().enumerate() {
        assert!(d.len() as u64 <= block_size);
        files.push(FileEntry {
            path: format!("f{}", i).into_bytes(),
            size: d.len() as u64,
            hashes: vec![compute_digest(d)],
        });
        payloads.push(d.clone());
    }
    let x = IndexData { block_size, files };
    let bytes = ciruela_sync::index::serialize(&x);
    (compute_digest(&bytes), x, payloads)
}

struct Cluster {
    reg: Registry,
    dw: Downloading,
    eng: FetchBlocks,
}

fn setup(data: &[Vec<u8>], peers: &[PeerAddr]) -> (Cluster, Vec<Vec<u8>>) {
    let (id, x, payloads) = image_with_blocks(64, data);
    let mut reg = Registry::new();
    for p in peers {
        let cid = reg.register(*p);
        reg.publish_image(cid, id.clone_hash());
    }
    let mut dw = Downloading::new(id, vpath("/app"), false);
    let blocks = block_list(&x);
    dw.fill_blocks(&blocks);
    let eng = FetchBlocks::new(1000);
    (Cluster { reg, dw, eng }, payloads)
}

/// Answer every in-flight task: fetches with the payload chosen by
/// `answer`, writes by completion.
fn drain_tasks(c: &mut Cluster, answer: &dyn Fn(&FetchCmd) -> Vec<u8>, cmds: &[FetchCmd]) {
    let mut pending: Vec<&FetchCmd> = cmds.iter().collect();
    loop {
        match c.eng.front_task() {
            None => break,
            Some(FrontTask::FetchPending { request }) => {
                let pos = pending
                    .iter()
                    .position(|cmd| cmd.request == request)
                    .expect("command for request");
                let cmd = pending.remove(pos);
                let data = answer(cmd);
                c.eng.on_fetch_ready(&mut c.dw, data, 2000);
            }
            Some(FrontTask::WritePending { .. }) => {
                c.eng.on_write_done(&mut c.dw);
            }
        }
    }
}

#[test]
fn happy_path_single_peer() {
    let peer = PeerAddr { ip: 0x0a000001, port: 24783 };
    let data: Vec<Vec<u8>> = vec![vec![1u8; 1], vec![2u8; 64], vec![3u8; 17]];
    let (mut c, payloads) = setup(&data, &[peer]);
    let mut fetched: usize = 0;
    let mut rounds: usize = 0;
    loop {
        rounds += 1;
        assert!(rounds < 100, "must converge");
        let out = c.eng.scheduler_pass(&mut c.dw, &c.reg, 2000, false);
        match out.result {
            PassResult::Done => break,
            PassResult::Scheduled => {
                fetched += out.fetches.len();
                // every scheduled fetch goes to the single peer
                for cmd in &out.fetches {
                    assert_eq!(cmd.peer, peer);
                }
                let payloads = payloads.clone();
                drain_tasks(
                    &mut c,
                    &move |cmd: &FetchCmd| {
                        payloads
                            .iter()
                            .find(|p| compute_digest(p).same(&cmd.hash))
                            .expect("payload for hash")
                            .clone()
                    },
                    &out.fetches,
                );
            }
            PassResult::NotReady => {}
            PassResult::Failed(_) => panic!("no failure expected"),
        }
    }
    assert_eq!(fetched, 3);
    // every seeded slice is complete and its mask bit is set
    assert_eq!(c.dw.slices.len(), 0);
    assert!(c.dw.mask.get(0));
    assert!(c.dw.mask.get(1));
    assert!(c.dw.mask.get(2));
    assert!(!c.dw.mask.get(3));
}

#[test]
fn in_flight_never_exceeds_allowance() {
    let peer = PeerAddr { ip: 0x0a000001, port: 24783 };
    let data: Vec<Vec<u8>> = (0..40u8).map(|i| vec![i; 8]).collect();
    let (mut c, _payloads) = setup(&data, &[peer]);
    let out = c.eng.scheduler_pass(&mut c.dw, &c.reg, 2000, false);
    assert!(matches!(out.result, PassResult::Scheduled));
    let total: u64 = c.dw.slices.iter().map(|s| s.in_progress as u64).sum();
    assert!(total <= CONCURRENCY as u64 + 1);
    assert!(c.eng.futures.len() <= CONCURRENCY + 1);
    // with the in-flight set full, the next pass issues nothing
    let out2 = c.eng.scheduler_pass(&mut c.dw, &c.reg, 2500, false);
    assert!(matches!(out2.result, PassResult::NotReady));
    assert_eq!(out2.fetches.len(), 0);
}

#[test]
fn checksum_poisoning_penalizes_peer() {
    let bad_peer = PeerAddr { ip: 0x0a000001, port: 24783 };
    let good_peer = PeerAddr { ip: 0x0a000002, port: 24783 };
    let data: Vec<Vec<u8>> = vec![vec![5u8; 10]];
    let (mut c, payloads) = setup(&data, &[bad_peer, good_peer]);
    let out = c.eng.scheduler_pass(&mut c.dw, &c.reg, 2000, false);
    assert!(matches!(out.result, PassResult::Scheduled));
    assert_eq!(out.fetches.len(), 1);
    assert_eq!(out.fetches[0].peer, bad_peer);
    // the peer answers with wrong bytes: no write is commanded
    let w = c.eng.on_fetch_ready(&mut c.dw, vec![0u8; 10], 2000);
    assert!(w.is_none());
    // the block is back in its slice and the peer is recorded as failed
    assert_eq!(c.dw.slices[0].blocks.len(), 1);
    assert_eq!(c.dw.slices[0].in_progress, 0);
    assert!(c.dw.slices[0].failures.peers.contains(&bad_peer));
    // the next pass picks the other peer and the image completes
    let out2 = c.eng.scheduler_pass(&mut c.dw, &c.reg, 3000, false);
    assert!(matches!(out2.result, PassResult::Scheduled));
    assert_eq!(out2.fetches[0].peer, good_peer);
    let w2 = c.eng.on_fetch_ready(&mut c.dw, payloads[0].clone(), 3000);
    let cmd = w2.expect("verified block is written");
    assert_eq!(cmd.data, payloads[0]);
    // while the write is pending the slice stays, and its bit stays clear
    assert_eq!(c.dw.slices[0].in_progress, 1);
    let mid = c.eng.scheduler_pass(&mut c.dw, &c.reg, 3500, false);
    assert!(matches!(mid.result, PassResult::NotReady));
    assert_eq!(c.dw.slices.len(), 1);
    assert!(!c.dw.mask.get(0));
    // only the durable write completes the slice
    c.eng.on_write_done(&mut c.dw);
    let out3 = c.eng.scheduler_pass(&mut c.dw, &c.reg, 4000, false);
    assert!(matches!(out3.result, PassResult::Done));
    assert!(c.dw.mask.get(0));
}

#[test]
fn cluster_stall_aborts_after_grace() {
    let peer = PeerAddr { ip: 0x0a000001, port: 24783 };
    let data: Vec<Vec<u8>> = vec![vec![5u8; 10]];
    let (mut c, _payloads) = setup(&data, &[peer]);
    let out = c.eng.scheduler_pass(&mut c.dw, &c.reg, 2000, false);
    assert!(matches!(out.result, PassResult::Scheduled));
    // the transfer fails and the only source disconnects
    c.eng.on_fetch_failed(&mut c.dw);
    let gone = c.dw.ever_sources[0];
    c.reg.close(gone);
    // nothing to schedule: the retry timer is armed
    let out2 = c.eng.scheduler_pass(&mut c.dw, &c.reg, 3000, false);
    assert!(matches!(out2.result, PassResult::NotReady));
    assert!(c.eng.retry_armed);
    // before the grace period the engine keeps waiting
    let out3 = c.eng.scheduler_pass(&mut c.dw, &c.reg, 4000, true);
    assert!(matches!(out3.result, PassResult::NotReady));
    // after the grace period with every source gone it gives up
    let late = 1000 + RETRY_CLUSTER_FAILURE_MS + 1;
    let out4 = c.eng.scheduler_pass(&mut c.dw, &c.reg, late, true);
    assert!(matches!(out4.result, PassResult::Failed(FailReason::ClusterStalled)));
}

#[test]
fn deadline_overrides_progress() {
    let peer = PeerAddr { ip: 0x0a000001, port: 24783 };
    let data: Vec<Vec<u8>> = vec![vec![5u8; 10], vec![6u8; 10]];
    let (mut c, _payloads) = setup(&data, &[peer]);
    let past_deadline = c.eng.deadline;
    let out = c.eng.scheduler_pass(&mut c.dw, &c.reg, past_deadline, false);
    assert!(matches!(out.result, PassResult::Failed(FailReason::DeadlineReached)));
}

#[test]
fn mask_bits_only_rise() {
    let peer = PeerAddr { ip: 0x0a000001, port: 24783 };
    let data: Vec<Vec<u8>> = vec![vec![1u8; 4], vec![2u8; 4]];
    let (mut c, payloads) = setup(&data, &[peer]);
    let mut seen = vec![false; 256];
    let mut rounds: usize = 0;
    loop {
        rounds += 1;
        assert!(rounds < 100);
        let out = c.eng.scheduler_pass(&mut c.dw, &c.reg, 2000, false);
        // once set, a bit stays set
        for (i, was) in seen.iter_mut().enumerate() {
            let now = c.dw.mask.get(i);
            assert!(now || !*was, "mask bit {} fell", i);
            *was = now;
        }
        match out.result {
            PassResult::Done => break,
            PassResult::Scheduled => {
                let payloads = payloads.clone();
                drain_tasks(
                    &mut c,
                    &move |cmd: &FetchCmd| {
                        payloads
                            .iter()
                            .find(|p| compute_digest(p).same(&cmd.hash))
                            .expect("payload")
                            .clone()
                    },
                    &out.fetches,
                );
            }
            PassResult::NotReady => {}
            PassResult::Failed(_) => panic!("unexpected failure"),
        }
    }
    assert!(seen[0] && seen[1]);
}
