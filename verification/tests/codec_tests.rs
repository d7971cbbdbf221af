//! Round-trip and error behaviour of the index codec, and the digest
//! wrapper against a known vector.

use ciruela_sync::digest::compute_digest;
use ciruela_sync::index::{parse, serialize, FileEntry, IndexData, ParseError};
use ciruela_sync::types::Hash256;

fn hash_of(data: &[u8]) -> Hash256 {
    compute_digest(&data.to_vec())
}

fn sample_index(block_size: u64) -> IndexData {
    // three files sized 1, B and 2B+17 bytes
    let b = block_size as usize;
    let f1 = vec![7u8; 1];
    let f2 = vec![8u8; b];
    let f3 = vec![9u8; 2 * b + 17];
    let entry = |name: &str, data: &Vec<u8>| -> FileEntry {
        let mut hashes = Vec::new();
        for chunk in data.chunks(b) {
            hashes.push(hash_of(chunk));
        }
        FileEntry { path: name.as_bytes().to_vec(), size: data.len() as u64, hashes }
    };
    IndexData {
        block_size,
        files: vec![entry("one", &f1), entry("two", &f2), entry("three", &f3)],
    }
}

#[test]
fn index_round_trip() {
    let x = sample_index(32);
    let bytes = serialize(&x);
    let y = parse(&bytes).expect("round trip parses");
    assert_eq!(y.block_size, x.block_size);
    assert_eq!(y.files.len(), x.files.len());
    for (a, b) in x.files.iter().zip(y.files.iter()) {
        assert_eq!(a.path, b.path);
        assert_eq!(a.size, b.size);
        assert_eq!(a.hashes.len(), b.hashes.len());
        for (ha, hb) in a.hashes.iter().zip(b.hashes.iter()) {
            assert!(ha.same(hb));
        }
    }
}

#[test]
fn serialization_is_stable() {
    let bytes1 = serialize(&sample_index(32));
    let bytes2 = serialize(&sample_index(32));
    assert_eq!(bytes1, bytes2);
    let id1 = compute_digest(&bytes1);
    let id2 = compute_digest(&bytes2);
    assert!(id1.same(&id2));
}

#[test]
fn digest_matches_known_vector() {
    // BLAKE2b-256 of the empty string
    let d = compute_digest(&Vec::new());
    let expected = [
        0x0eu8, 0x57, 0x51, 0xc0, 0x26, 0xe5, 0x43, 0xb2, 0xe8, 0xab, 0x2e, 0xb0, 0x60, 0x99,
        0xda, 0xa1, 0xd1, 0xe5, 0xdf, 0x47, 0x77, 0x8f, 0x77, 0x87, 0xfa, 0xab, 0x45, 0xcd,
        0xf1, 0x2f, 0xe3, 0xa8,
    ];
    assert_eq!(d.bytes, expected.to_vec());
}

#[test]
fn well_formedness_is_decidable() {
    assert!(sample_index(32).check_wf());
    assert!(!IndexData { block_size: 0, files: Vec::new() }.check_wf());
    // a file with too few hashes for its size is rejected
    let bad = IndexData {
        block_size: 4,
        files: vec![FileEntry { path: b"f".to_vec(), size: 9, hashes: vec![hash_of(b"x")] }],
    };
    assert!(!bad.check_wf());
    // a hash of the wrong width is rejected
    let bad2 = IndexData {
        block_size: 4,
        files: vec![FileEntry {
            path: b"f".to_vec(),
            size: 1,
            hashes: vec![Hash256 { bytes: vec![1, 2, 3] }],
        }],
    };
    assert!(!bad2.check_wf());
}

#[test]
fn parse_rejects_short_input() {
    assert!(matches!(parse(&vec![0u8; 15]), Err(ParseError::Truncated)));
}

#[test]
fn parse_rejects_zero_block_size() {
    let mut bytes = vec![0u8; 16];
    bytes[8] = 0; // zero files, zero block size
    assert!(matches!(parse(&bytes), Err(ParseError::ZeroBlockSize)));
}

#[test]
fn parse_rejects_trailing_bytes() {
    let x = IndexData { block_size: 32, files: Vec::new() };
    let mut bytes = serialize(&x);
    bytes.push(0);
    assert!(matches!(parse(&bytes), Err(ParseError::TrailingBytes)));
}

#[test]
fn parse_rejects_truncated_entry() {
    let x = sample_index(32);
    let bytes = serialize(&x);
    let cut = bytes[..bytes.len() - 1].to_vec();
    assert!(matches!(parse(&cut), Err(ParseError::Truncated)));
}

#[test]
fn empty_index_round_trip() {
    let x = IndexData { block_size: 1, files: Vec::new() };
    let bytes = serialize(&x);
    let y = parse(&bytes).expect("empty index parses");
    assert_eq!(y.block_size, 1);
    assert_eq!(y.files.len(), 0);
}
