use git_objects::codec::{decode, encode, encode_object, ObjectKind, HEADER_SCAN_LIMIT};
use git_objects::decimal::{format_decimal, parse_decimal};
use git_objects::error::StoreError;

#[test]
fn encode_blob_writes_the_canonical_form() {
    assert_eq!(encode("blob", b"world"), Ok(b"blob 5\0world".to_vec()));
}

#[test]
fn encode_tree_kind_writes_the_tree_tag() {
    assert_eq!(encode("tree", b""), Ok(b"tree 0\0".to_vec()));
}

#[test]
fn encode_rejects_an_unknown_kind() {
    assert_eq!(encode("commit", b"world"), Err(StoreError::EncodingError));
    assert_eq!(encode("", b"world"), Err(StoreError::EncodingError));
    assert_eq!(encode("Blob", b"world"), Err(StoreError::EncodingError));
    assert_eq!(encode("blobs", b"world"), Err(StoreError::EncodingError));
}

#[test]
fn kind_names_and_tags_are_read() {
    assert_eq!(ObjectKind::from_name("blob"), Some(ObjectKind::Blob));
    assert_eq!(ObjectKind::from_name("tree"), Some(ObjectKind::Tree));
    assert_eq!(ObjectKind::from_name("tag"), None);
    assert_eq!(ObjectKind::from_tag(b"tree"), Some(ObjectKind::Tree));
    assert_eq!(ObjectKind::from_tag(b"blob"), Some(ObjectKind::Blob));
    assert_eq!(ObjectKind::from_tag(b"blub"), None);
    assert_eq!(ObjectKind::Blob.tag_bytes(), b"blob".to_vec());
    assert_eq!(ObjectKind::Tree.tag_bytes(), b"tree".to_vec());
}

#[test]
fn decode_gives_back_kind_and_payload() {
    let bytes = encode_object(ObjectKind::Tree, b"abc");
    assert_eq!(decode(&bytes), Ok((ObjectKind::Tree, b"abc".to_vec())));
}

#[test]
fn decode_inverts_encode_for_both_kinds() {
    let payloads: Vec<Vec<u8>> = vec![
        Vec::new(),
        b"a".to_vec(),
        b"with\0nul and space".to_vec(),
        vec![0u8; 1000],
        (0..=255u8).collect(),
    ];
    for payload in payloads {
        for kind in [ObjectKind::Blob, ObjectKind::Tree] {
            let bytes = encode_object(kind, &payload);
            assert_eq!(decode(&bytes), Ok((kind, payload.clone())));
        }
    }
}

#[test]
fn decode_without_nul_is_corrupt() {
    assert_eq!(decode(b"blob 5 world"), Err(StoreError::CorruptObject));
    assert_eq!(decode(b""), Err(StoreError::CorruptObject));
}

#[test]
fn decode_rejects_an_unknown_type() {
    assert_eq!(decode(b"blub 5\0world"), Err(StoreError::CorruptObject));
    assert_eq!(decode(b"commit 5\0world"), Err(StoreError::CorruptObject));
}

#[test]
fn decode_rejects_a_bad_length() {
    assert_eq!(decode(b"blob five\0world"), Err(StoreError::CorruptObject));
    assert_eq!(decode(b"blob \0world"), Err(StoreError::CorruptObject));
    assert_eq!(decode(b"blob -5\0world"), Err(StoreError::CorruptObject));
    assert_eq!(decode(b"blob +5\0world"), Err(StoreError::CorruptObject));
    assert_eq!(decode(b"blob  5\0world"), Err(StoreError::CorruptObject));
    assert_eq!(decode(b"blob5\0world"), Err(StoreError::CorruptObject));
}

#[test]
fn decode_rejects_a_short_payload() {
    assert_eq!(decode(b"blob 6\0world"), Err(StoreError::CorruptObject));
    assert_eq!(
        decode(b"blob 99999999999999999999\0world"),
        Err(StoreError::CorruptObject)
    );
}

#[test]
fn decode_reads_no_further_than_the_length() {
    assert_eq!(
        decode(b"blob 3\0world"),
        Ok((ObjectKind::Blob, b"wor".to_vec()))
    );
    assert_eq!(decode(b"blob 0\0world"), Ok((ObjectKind::Blob, Vec::new())));
}

#[test]
fn decode_takes_leading_zeros() {
    assert_eq!(
        decode(b"blob 005\0world"),
        Ok((ObjectKind::Blob, b"world".to_vec()))
    );
}

#[test]
fn decode_looks_for_the_nul_within_the_scan_limit() {
    assert_eq!(HEADER_SCAN_LIMIT, 32);
    let mut inside = b"blob ".to_vec();
    inside.extend(std::iter::repeat(b'0').take(25));
    inside.push(b'1');
    assert_eq!(inside.len(), 31);
    inside.push(0);
    inside.push(b'x');
    assert_eq!(decode(&inside), Ok((ObjectKind::Blob, b"x".to_vec())));
    let mut outside = b"blob ".to_vec();
    outside.extend(std::iter::repeat(b'0').take(26));
    outside.push(b'1');
    assert_eq!(outside.len(), 32);
    outside.push(0);
    outside.push(b'x');
    assert_eq!(decode(&outside), Err(StoreError::CorruptObject));
}

#[test]
fn decimal_is_written_without_leading_zeros() {
    assert_eq!(format_decimal(0), b"0".to_vec());
    assert_eq!(format_decimal(7), b"7".to_vec());
    assert_eq!(format_decimal(10), b"10".to_vec());
    assert_eq!(format_decimal(1234567890), b"1234567890".to_vec());
    assert_eq!(
        format_decimal(usize::MAX),
        usize::MAX.to_string().into_bytes()
    );
}

#[test]
fn decimal_is_read_digit_by_digit() {
    assert_eq!(parse_decimal(b"0"), Some(0));
    assert_eq!(parse_decimal(b"42"), Some(42));
    assert_eq!(parse_decimal(b"0042"), Some(42));
    assert_eq!(parse_decimal(b""), None);
    assert_eq!(parse_decimal(b"4 2"), None);
    assert_eq!(parse_decimal(b"+42"), None);
    assert_eq!(parse_decimal(b"42a"), None);
    assert_eq!(
        parse_decimal(usize::MAX.to_string().as_bytes()),
        Some(usize::MAX)
    );
    assert_eq!(parse_decimal(b"340282366920938463463374607431768211456"), None);
}
