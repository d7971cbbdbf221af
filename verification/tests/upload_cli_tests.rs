//! The client upload tracker's one-shot completion, the aggregation of
//! results, and the sync command-line decisions.

use ciruela_sync::cli::{parse_operand, split_pair, sync_exit_code, PlacementMode};
use ciruela_sync::upload::{cluster_ok, overall_ok, upload_exit_code, Progress};
use ciruela_sync::types::PeerAddr;

const A1: PeerAddr = PeerAddr { ip: 1, port: 1 };
const A2: PeerAddr = PeerAddr { ip: 2, port: 1 };

#[test]
fn completion_fires_once_when_all_confirm() {
    let mut p = Progress::new(0);
    p.register_target(A1);
    p.register_target(A2);
    let f1 = p.received_image(A1, 101, b"one".to_vec(), false);
    assert!(!f1, "a host is still awaited");
    let f2 = p.received_image(A2, 102, b"two".to_vec(), false);
    assert!(f2, "last confirmation fires the signal");
    // a late duplicate does not fire again
    let f3 = p.received_image(A2, 102, b"two".to_vec(), false);
    assert!(!f3);
    assert!(p.is_ok());
    // the confirmation log is keyed by machine: no duplicate entries
    assert_eq!(p.hosts_done.len(), 2);
}

#[test]
fn forwarded_confirmation_keeps_address_required() {
    let mut p = Progress::new(0);
    p.register_target(A1);
    let f = p.received_image(A1, 101, b"one".to_vec(), true);
    assert!(!f, "a forwarded confirmation does not release the address");
    assert_eq!(p.ips_needed.len(), 1);
    let f2 = p.received_image(A1, 101, b"one".to_vec(), false);
    assert!(f2);
    assert_eq!(p.hosts_done.len(), 1);
}

#[test]
fn closed_connection_counts_as_error() {
    let mut p = Progress::new(0);
    p.register_target(A1);
    p.register_target(A2);
    let f1 = p.connection_closed(A1);
    assert!(!f1);
    assert!(!p.is_ok());
    let f2 = p.connection_closed(A2);
    assert!(f2, "emptying the required set fires completion");
    // after the signal, closes are ignored
    let f3 = p.connection_closed(A2);
    assert!(!f3);
    assert_eq!(p.hosts_errored.len(), 2);
}

#[test]
fn rejection_releases_address_without_error() {
    let mut p = Progress::new(0);
    p.register_target(A1);
    p.rejected(A1);
    assert_eq!(p.ips_needed.len(), 0);
    assert!(p.is_ok());
}

#[test]
fn add_ids_skips_confirmed_machines() {
    let mut p = Progress::new(0);
    p.register_target(A1);
    p.received_image(A1, 101, b"one".to_vec(), true);
    p.add_ids(vec![(101, b"one".to_vec()), (102, b"two".to_vec()), (102, b"again".to_vec())]);
    assert_eq!(p.ids_needed.len(), 1);
    assert_eq!(p.ids_needed[0].0, 102);
    // a later announcement of a known machine adds nothing
    p.add_ids(vec![(102, b"two".to_vec()), (103, b"three".to_vec())]);
    assert_eq!(p.ids_needed.len(), 2);
    assert_eq!(p.ids_needed[1].0, 103);
}

#[test]
fn aggregation_and_exit_codes() {
    assert!(cluster_ok(&vec![false, true]));
    assert!(!cluster_ok(&vec![false, false]));
    assert!(!cluster_ok(&Vec::new()));
    assert!(overall_ok(&vec![true, true]));
    assert!(!overall_ok(&vec![true, false]));
    assert!(overall_ok(&Vec::new()));
    assert_eq!(upload_exit_code(Ok(true)), 0);
    assert_eq!(upload_exit_code(Ok(false)), 1);
    assert_eq!(upload_exit_code(Err(())), 2);
}

#[test]
fn split_pair_takes_first_colon() {
    let arg = b"src:dir:/dest".to_vec();
    let (src, dst) = split_pair(&arg).expect("has a colon");
    assert_eq!(src, b"src".to_vec());
    assert_eq!(dst, b"dir:/dest".to_vec());
    assert!(split_pair(&b"nocolon".to_vec()).is_none());
}

#[test]
fn parse_operand_requires_absolute_destination() {
    let ok = parse_operand(&b"./local:/apps/web".to_vec(), PlacementMode::Append)
        .expect("valid operand");
    assert_eq!(ok.source, b"./local".to_vec());
    assert_eq!(ok.dest.bytes, b"/apps/web".to_vec());
    assert_eq!(ok.mode, PlacementMode::Append);
    assert!(parse_operand(&b"./local:relative".to_vec(), PlacementMode::Replace).is_none());
    assert!(parse_operand(&b"nocolon".to_vec(), PlacementMode::Replace).is_none());
}

#[test]
fn sync_exit_codes() {
    assert_eq!(sync_exit_code(true, false, true), 2);
    assert_eq!(sync_exit_code(false, true, true), 1);
    assert_eq!(sync_exit_code(false, false, false), 1);
    assert_eq!(sync_exit_code(false, false, true), 0);
}
