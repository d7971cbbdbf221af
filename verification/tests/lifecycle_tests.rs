//! The lifecycle driver's transition table, index validation, the
//! placement semantics, and the registry.

use ciruela_sync::digest::compute_digest;
use ciruela_sync::driver::{
    check_index, driver_step, AbortReason, DriverAction, DriverEvent, DriverState,
};
use ciruela_sync::index::{serialize, IndexData};
use ciruela_sync::progress::PeerFailures;
use ciruela_sync::proto::{dispatch_frame, BaseDir, DirState, FrameAction, Message};
use ciruela_sync::registry::Registry;
use ciruela_sync::types::{Hash256, PeerAddr, VPath};

fn vpath(s: &str) -> VPath {
    VPath::new(s.as_bytes().to_vec()).expect("absolute path")
}

fn some_hash(b: u8) -> Hash256 {
    Hash256::new(vec![b; 32]).expect("32 bytes")
}

#[test]
fn happy_lifecycle_reaches_done() {
    let s0 = DriverState::FetchingIndex;
    let (s1, a1, r1) = driver_step(s0, DriverEvent::IndexOk);
    assert_eq!(s1, DriverState::Staging);
    assert_eq!(a1, DriverAction::StartStaging);
    assert!(r1.is_none());
    let (s2, a2, _) = driver_step(s1, DriverEvent::StagingOk);
    assert_eq!(s2, DriverState::Hardlinking);
    assert_eq!(a2, DriverAction::ResolveHardlinks);
    let (s3, a3, _) = driver_step(s2, DriverEvent::HardlinkOk);
    assert_eq!(s3, DriverState::Fetching);
    assert_eq!(a3, DriverAction::RunEngine);
    let (s4, a4, _) = driver_step(s3, DriverEvent::EngineDone);
    assert_eq!(s4, DriverState::Committing);
    assert_eq!(a4, DriverAction::CommitImage);
    let (s5, a5, r5) = driver_step(s4, DriverEvent::CommitOk);
    assert_eq!(s5, DriverState::Done);
    assert_eq!(a5, DriverAction::ReportCommitted);
    assert!(r5.is_none());
}

#[test]
fn already_exists_is_success() {
    let (s, a, r) = driver_step(DriverState::Staging, DriverEvent::StagingAlreadyExists);
    assert_eq!(s, DriverState::AlreadyExisted);
    assert_eq!(a, DriverAction::ReportCommitted);
    assert!(r.is_none());
}

#[test]
fn each_failure_carries_its_reason() {
    let cases = [
        (DriverState::FetchingIndex, DriverEvent::IndexUnavailable, "cant_fetch_index"),
        (DriverState::Staging, DriverEvent::StagingFailed, "cant_create_directory"),
        (
            DriverState::Hardlinking,
            DriverEvent::HardlinkFailed,
            "internal_error_when_hardlinking",
        ),
        (DriverState::Fetching, DriverEvent::EngineFailed, "cluster_abort_no_file_source"),
        (DriverState::Committing, DriverEvent::CommitFailed, "commit_error"),
    ];
    for (state, event, tag) in cases {
        let (s, a, r) = driver_step(state, event);
        assert_eq!(s, DriverState::Aborted);
        assert_eq!(a, DriverAction::ReportAborted);
        assert_eq!(r.expect("abort carries a reason").tag(), tag);
    }
}

#[test]
fn check_index_requires_matching_digest() {
    let x = IndexData { block_size: 4, files: Vec::new() };
    let bytes = serialize(&x);
    let id = compute_digest(&bytes);
    assert!(check_index(&bytes, &id).is_some());
    let wrong = some_hash(9);
    assert!(check_index(&bytes, &wrong).is_none());
    // valid digest over an unparseable blob is rejected too
    let garbage = vec![1u8, 2, 3];
    let gid = compute_digest(&garbage);
    assert!(check_index(&garbage, &gid).is_none());
}

#[test]
fn append_keeps_both_versions() {
    let mut base = BaseDir::new();
    let a1 = base.append_dir(
        b"v1".to_vec(),
        DirState { image: some_hash(1), timestamp_ms: 1000 },
    );
    let a2 = base.append_dir(
        b"v2".to_vec(),
        DirState { image: some_hash(2), timestamp_ms: 1500 },
    );
    assert!(a1 && a2);
    assert_eq!(base.dirs.len(), 2);
    assert_eq!(base.dirs[0].0, b"v1".to_vec());
    assert_eq!(base.dirs[1].0, b"v2".to_vec());
}

#[test]
fn append_rejects_same_name_different_image() {
    let mut base = BaseDir::new();
    assert!(base.append_dir(
        b"v1".to_vec(),
        DirState { image: some_hash(1), timestamp_ms: 1000 },
    ));
    // the same dated name with the same image is idempotent
    assert!(base.append_dir(
        b"v1".to_vec(),
        DirState { image: some_hash(1), timestamp_ms: 1000 },
    ));
    // with different contents it is rejected and nothing changes
    assert!(!base.append_dir(
        b"v1".to_vec(),
        DirState { image: some_hash(2), timestamp_ms: 1001 },
    ));
    assert_eq!(base.dirs.len(), 1);
    assert!(base.dirs[0].1.image.same(&some_hash(1)));
}

#[test]
fn replace_later_timestamp_wins() {
    let mut base = BaseDir::new();
    assert!(base.replace_dir(
        b"cur".to_vec(),
        DirState { image: some_hash(1), timestamp_ms: 1000 },
    ));
    // the later placement replaces the earlier one
    assert!(base.replace_dir(
        b"cur".to_vec(),
        DirState { image: some_hash(2), timestamp_ms: 1800 },
    ));
    assert!(base.dirs[0].1.image.same(&some_hash(2)));
    // the earlier (stale) placement is rejected with accepted=false
    assert!(!base.replace_dir(
        b"cur".to_vec(),
        DirState { image: some_hash(3), timestamp_ms: 1500 },
    ));
    assert!(base.dirs[0].1.image.same(&some_hash(2)));
    assert_eq!(base.dirs.len(), 1);
}

#[test]
fn registry_selection_skips_failed_peers() {
    let img = some_hash(7);
    let p1 = PeerAddr { ip: 1, port: 10 };
    let p2 = PeerAddr { ip: 2, port: 10 };
    let mut reg = Registry::new();
    let c1 = reg.register(p1);
    let c2 = reg.register(p2);
    assert_eq!(c1 + 1, c2);
    reg.publish_image(c1, img.clone_hash());
    reg.publish_image(c2, img.clone_hash());
    let mut failures = PeerFailures::empty();
    let path = vpath("/dir");
    let picked = reg.get_connection_by_mask(&path, &img, 0, &failures).expect("a peer");
    assert_eq!(picked.1, p1);
    failures.add_failure(p1);
    let picked2 = reg.get_connection_by_mask(&path, &img, 0, &failures).expect("other peer");
    assert_eq!(picked2.1, p2);
    failures.add_failure(p2);
    assert!(reg.get_connection_by_mask(&path, &img, 0, &failures).is_none());
    // a cleared failure makes the peer eligible again
    failures.clear_peer(p1);
    let picked3 = reg.get_connection_by_mask(&path, &img, 0, &failures).expect("peer again");
    assert_eq!(picked3.1, p1);
}

#[test]
fn registry_stall_detection() {
    let img = some_hash(7);
    let p1 = PeerAddr { ip: 1, port: 10 };
    let mut reg = Registry::new();
    let c1 = reg.register(p1);
    reg.publish_image(c1, img.clone_hash());
    let ever = vec![c1];
    assert!(!reg.check_stalled(&img, &ever));
    reg.close(c1);
    assert!(reg.check_stalled(&img, &ever));
    assert!(!reg.has_image_source(&img));
}

#[test]
fn start_begins_with_index_fetch() {
    let (dw, state, action) = ciruela_sync::driver::start(some_hash(3), vpath("/a"), true);
    assert_eq!(state, DriverState::FetchingIndex);
    assert_eq!(action, DriverAction::FetchIndex);
    assert!(dw.replacing);
    assert_eq!(dw.slices.len(), 0);
    assert!(!dw.mask.get(0));
}

#[test]
fn publish_index_frame_records_advertisement() {
    let img = some_hash(4);
    let p = PeerAddr { ip: 9, port: 1 };
    let mut reg = Registry::new();
    let cid = reg.register(p);
    assert!(!reg.has_image_source(&img));
    let act = dispatch_frame(&mut reg, cid, Message::NotifyPublishIndex { image: img.clone_hash() });
    assert_eq!(act, FrameAction::NoReply);
    assert!(reg.has_image_source(&img));
    let q = reg.conns[0].fetch_index(7, &img);
    match q {
        Message::RequestGetIndex { request_id, image } => {
            assert_eq!(request_id, 7);
            assert!(image.same(&img));
        }
        _ => panic!("expected a get-index request"),
    }
}

#[test]
fn closed_channel_message() {
    assert_eq!(ciruela_sync::closed(()), "channel closed");
}
