use git_objects::compress::{compress, data_or_corrupt, decompress, stream_or_failure};
use git_objects::digest::{digest, object_location, object_path, parse_digest, to_hex};
use git_objects::error::StoreError;

const EMPTY_SHA1: &str = "da39a3ee5e6b4b0d3255bfef95601890afd80709";

#[test]
fn sha1_of_nothing_is_the_known_digest() {
    assert_eq!(to_hex(&digest(b"")), EMPTY_SHA1);
}

#[test]
fn sha1_of_hello_world_is_the_known_digest() {
    assert_eq!(
        to_hex(&digest(b"hello world")),
        "2aae6c35c94fcfb415dbe95f408b9ce91ee846ed"
    );
}

#[test]
fn hex_is_lower_case_high_half_first() {
    let mut hash = [0u8; 20];
    hash[0] = 0x01;
    hash[1] = 0xab;
    hash[2] = 0xf0;
    hash[19] = 0x9c;
    assert_eq!(
        to_hex(&hash),
        "01abf0000000000000000000000000000000009c"
    );
}

#[test]
fn parse_digest_reads_both_cases() {
    let lower = parse_digest(EMPTY_SHA1).unwrap();
    let upper = parse_digest("DA39A3EE5E6B4B0D3255BFEF95601890AFD80709").unwrap();
    assert_eq!(lower, upper);
    assert_eq!(lower[0], 0xda);
    assert_eq!(lower[1], 0x39);
    assert_eq!(lower[19], 0x09);
    assert_eq!(to_hex(&lower), EMPTY_SHA1);
}

#[test]
fn parse_digest_rejects_what_is_no_digest() {
    assert_eq!(parse_digest(""), Err(StoreError::InvalidDigest));
    assert_eq!(
        parse_digest("da39a3ee5e6b4b0d3255bfef95601890afd8070"),
        Err(StoreError::InvalidDigest)
    );
    assert_eq!(
        parse_digest("da39a3ee5e6b4b0d3255bfef95601890afd807090"),
        Err(StoreError::InvalidDigest)
    );
    assert_eq!(
        parse_digest("ga39a3ee5e6b4b0d3255bfef95601890afd80709"),
        Err(StoreError::InvalidDigest)
    );
    assert_eq!(
        parse_digest("da39a3ee5e6b4b0d3255bfef95601890afd8070\u{e9}"),
        Err(StoreError::InvalidDigest)
    );
}

#[test]
fn location_splits_the_digest_after_two_characters() {
    let hash = parse_digest(EMPTY_SHA1).unwrap();
    let at = object_location(&hash);
    assert_eq!(at.directory, "da");
    assert_eq!(at.file, "39a3ee5e6b4b0d3255bfef95601890afd80709");
}

#[test]
fn path_of_the_empty_digest() {
    assert_eq!(
        object_path(".git/objects", EMPTY_SHA1),
        Ok(String::from(
            ".git/objects/da/39a3ee5e6b4b0d3255bfef95601890afd80709"
        ))
    );
}

#[test]
fn path_of_a_malformed_digest_is_refused() {
    assert_eq!(
        object_path(".git/objects", "da39"),
        Err(StoreError::InvalidDigest)
    );
    assert_eq!(
        object_path(".git/objects", "zz39a3ee5e6b4b0d3255bfef95601890afd80709"),
        Err(StoreError::InvalidDigest)
    );
}

#[test]
fn compress_makes_a_stream_that_decompress_reads() {
    let data = b"blob 11\0hello world".to_vec();
    let stream = compress(&data).unwrap();
    assert_ne!(stream, data);
    assert_eq!(stream[0], 0x78);
    assert_eq!(decompress(&stream), Ok(data));
}

#[test]
fn compress_shrinks_what_repeats() {
    let data = vec![b'a'; 10_000];
    let stream = compress(&data).unwrap();
    assert!(stream.len() < 200);
    assert_eq!(decompress(&stream), Ok(data));
}

#[test]
fn decompress_ignores_what_follows_the_stream() {
    let data = b"some bytes".to_vec();
    let mut stream = compress(&data).unwrap();
    stream.extend_from_slice(b"trailing");
    assert_eq!(decompress(&stream), Ok(data));
}

#[test]
fn decompress_rejects_what_is_no_stream() {
    assert_eq!(decompress(b"not a zlib stream"), Err(StoreError::CorruptStream));
    assert_eq!(decompress(b""), Err(StoreError::CorruptStream));
}

#[test]
fn decompress_rejects_a_stream_cut_short() {
    let stream = compress(&vec![7u8; 500]).unwrap();
    assert_eq!(
        decompress(&stream[..stream.len() - 3]),
        Err(StoreError::CorruptStream)
    );
}

#[test]
fn decompress_rejects_a_damaged_checksum() {
    let mut stream = compress(b"checked").unwrap();
    let last = stream.len() - 1;
    stream[last] ^= 0xff;
    assert_eq!(decompress(&stream), Err(StoreError::CorruptStream));
}

#[test]
fn a_compressor_that_gives_up_is_a_failure() {
    assert_eq!(stream_or_failure(None), Err(StoreError::CompressionFailed));
    assert_eq!(stream_or_failure(Some(vec![1, 2])), Ok(vec![1, 2]));
    assert_eq!(data_or_corrupt(None), Err(StoreError::CorruptStream));
    assert_eq!(data_or_corrupt(Some(vec![3])), Ok(vec![3]));
}
