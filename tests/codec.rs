use recursive_remote::codec::{concat_chunks, decode, encode, encode_sealed, split_chunks, CodecError};
use sha2::Digest;

fn sha(b: &[u8]) -> Vec<u8> {
    sha2::Sha256::digest(b).to_vec()
}

#[test]
fn chunks_are_full_then_short() {
    let data: Vec<u8> = (0u8..25).collect();
    let chunks = split_chunks(&data, 10);
    let sizes: Vec<usize> = chunks.iter().map(|c| c.len()).collect();
    assert_eq!(sizes, vec![10, 10, 5]);
    assert_eq!(concat_chunks(&chunks), data);
}

#[test]
fn exact_multiple_ends_with_empty_chunk() {
    let data: Vec<u8> = (0u8..20).collect();
    let chunks = split_chunks(&data, 10);
    let sizes: Vec<usize> = chunks.iter().map(|c| c.len()).collect();
    assert_eq!(sizes, vec![10, 10, 0]);
}

#[test]
fn empty_input_gives_one_empty_blob_and_empty_hash() {
    let e = encode(&[], 10);
    assert_eq!(e.chunks.len(), 1);
    assert!(e.chunks[0].is_empty());
    assert_eq!(
        hex::encode(&e.sha256),
        "e3b0c44298fc1c149afbf4c8996fb92427ae41e4649b934ca495991b7852b855"
    );
}

#[test]
fn codec_round_trip_cleartext() {
    let data: Vec<u8> = (0..1000u32).map(|i| (i * 7 % 251) as u8).collect();
    for c in [10usize, 11, 64, 999, 1000, 4096] {
        let e = encode(&data, c);
        assert_eq!(e.sha256, sha(&data));
        let (out, h) = decode(&e.chunks, Some(&e.sha256)).ok().unwrap();
        assert_eq!(out, data);
        assert_eq!(h, sha(&data));
    }
}

#[test]
fn chunking_independence() {
    let data = b"hello hello hello hello hello hello 2".to_vec();
    let a = encode(&data, 10);
    let b = encode(&data, 16);
    assert_eq!(a.sha256, b.sha256);
    assert_ne!(a.chunks, b.chunks);
}

#[test]
fn sealed_content_keeps_plaintext_hash() {
    let plain = b"plaintext".to_vec();
    let sealed = b"some sealed bytes, longer".to_vec();
    let e = encode_sealed(&plain, &sealed, 10);
    assert_eq!(e.sha256, sha(&plain));
    assert_eq!(concat_chunks(&e.chunks), sealed);
}

#[test]
fn integrity_rejection_names_expected_hash() {
    let data = b"payload".to_vec();
    let e = encode(&data, 10);
    let mut wrong = e.sha256.clone();
    wrong[0] ^= 1;
    match decode(&e.chunks, Some(&wrong)) {
        Err(err) => {
            assert!(matches!(err, CodecError::IntegrityFailure { .. }));
            let m = err.message();
            assert!(m.contains("Expected sha256"));
            assert!(m.contains(&hex::encode(&wrong)));
        }
        Ok(_) => panic!("decode accepted a wrong hash"),
    }
}

#[test]
fn flipped_payload_bit_is_rejected() {
    let data: Vec<u8> = (0u8..40).collect();
    let e = encode(&data, 10);
    let mut chunks = e.chunks.clone();
    chunks[1][3] ^= 0x10;
    assert!(decode(&chunks, Some(&e.sha256)).is_err());
}

#[test]
fn unverified_decode_reports_hash() {
    let data = b"abc".to_vec();
    let e = encode(&data, 10);
    let (out, h) = decode(&e.chunks, None).ok().unwrap();
    assert_eq!(out, data);
    assert_eq!(
        hex::encode(h),
        "ba7816bf8f01cfea414140de5dae2223b00361a396177a9cb410ff61f20015ad"
    );
}
