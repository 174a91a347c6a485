use sha2::Digest;
use window_delta::window::windows;
use window_delta::DeltaError;

fn sha256_of(bytes: &[u8]) -> Vec<u8> {
    let mut hasher = sha2::Sha256::new();
    hasher.update(bytes);
    hasher.finalize().to_vec()
}

#[test]
fn windows_every_offset() {
    let buf: Vec<u8> = b"abcdef".to_vec();
    let container = windows(&buf, 3).unwrap();
    assert_eq!(container.chunks.len(), 4);
    for (i, chunk) in container.chunks.iter().enumerate() {
        assert_eq!(chunk.position, i);
        assert_eq!(chunk.size, 3);
        assert_eq!(chunk.hash, sha256_of(&buf[i..i + 3]));
    }
}

#[test]
fn windows_single_window() {
    let buf: Vec<u8> = b"abc".to_vec();
    let container = windows(&buf, 3).unwrap();
    assert_eq!(container.chunks.len(), 1);
    assert_eq!(container.chunks[0].position, 0);
}

#[test]
fn windows_larger_than_buffer_is_empty() {
    let buf: Vec<u8> = b"abc".to_vec();
    let container = windows(&buf, 4).unwrap();
    assert_eq!(container.chunks.len(), 0);
}

#[test]
fn windows_empty_buffer_is_empty() {
    let buf: Vec<u8> = Vec::new();
    let container = windows(&buf, 1).unwrap();
    assert_eq!(container.chunks.len(), 0);
}

#[test]
fn windows_zero_size_is_rejected() {
    let buf: Vec<u8> = b"abc".to_vec();
    assert_eq!(windows(&buf, 0).unwrap_err(), DeltaError::InvalidWindowSize);
}

#[test]
fn fingerprint_is_a_real_digest() {
    let buf: Vec<u8> = b"gu".to_vec();
    let container = windows(&buf, 2).unwrap();
    let hash = &container.chunks[0].hash;
    assert_eq!(hash.len(), 32);
    assert_ne!(hash.as_slice(), b"gu".as_slice());
    assert_eq!(*hash, sha256_of(b"gu"));
}

#[test]
fn lookup_finds_last_descriptor_with_fingerprint() {
    // windows of "ababa" at size 2: "ab", "ba", "ab", "ba" - the index must
    // keep the most recently inserted descriptor per fingerprint.
    let buf: Vec<u8> = b"ababa".to_vec();
    let container = windows(&buf, 2).unwrap();
    let index = container.hash_to_chunk();
    assert_eq!(index.lookup(&container.chunks[0].hash), Some(2));
    assert_eq!(index.lookup(&container.chunks[1].hash), Some(3));
}

#[test]
fn lookup_misses_unknown_fingerprint() {
    let buf: Vec<u8> = b"abcd".to_vec();
    let other: Vec<u8> = b"wxyz".to_vec();
    let index = windows(&buf, 2).unwrap().hash_to_chunk();
    let foreign = windows(&other, 2).unwrap();
    assert_eq!(index.lookup(&foreign.chunks[0].hash), None);
}
