use git_objects::error::StoreError;
use git_objects::order::{compare_entries, precedes, sort_entries};
use std::cmp::Ordering;
use git_objects::tree::{digest_at, encode_tree, parse_tree, Mode, Object};

fn entry(mode: Mode, name: &[u8], fill: u8) -> Object {
    Object {
        mode,
        name: name.to_vec(),
        hash: [fill; 20],
    }
}

fn names(entries: &[Object]) -> Vec<Vec<u8>> {
    entries.iter().map(|e| e.name.clone()).collect()
}

#[test]
fn serialize_writes_mode_space_name_nul_digest() {
    let e = entry(Mode::Regular, b"hello.txt", 0xab);
    let mut expected = b"100644 hello.txt\0".to_vec();
    expected.extend_from_slice(&[0xab; 20]);
    assert_eq!(e.serialize(), expected);
    assert_eq!(e.serialize().len(), 37);
}

#[test]
fn modes_are_written_as_a_tree_holds_them() {
    assert_eq!(Mode::Regular.token_bytes(), b"100644".to_vec());
    assert_eq!(Mode::Executable.token_bytes(), b"100755".to_vec());
    assert_eq!(Mode::Symlink.token_bytes(), b"120000".to_vec());
    assert_eq!(Mode::Directory.token_bytes(), b"40000".to_vec());
    assert!(Mode::Directory.is_directory());
    assert!(!Mode::Symlink.is_directory());
}

#[test]
fn modes_are_read_from_their_tokens_only() {
    assert_eq!(Mode::from_token(b"100644"), Some(Mode::Regular));
    assert_eq!(Mode::from_token(b"100755"), Some(Mode::Executable));
    assert_eq!(Mode::from_token(b"120000"), Some(Mode::Symlink));
    assert_eq!(Mode::from_token(b"40000"), Some(Mode::Directory));
    assert_eq!(Mode::from_token(b"040000"), None);
    assert_eq!(Mode::from_token(b"100664"), None);
    assert_eq!(Mode::from_token(b"160000"), None);
    assert_eq!(Mode::from_token(b"40001"), None);
    assert_eq!(Mode::from_token(b""), None);
}

#[test]
fn encode_tree_concatenates_the_entries() {
    let entries = vec![
        entry(Mode::Regular, b"a", 1),
        entry(Mode::Directory, b"b", 2),
    ];
    let mut expected = b"100644 a\0".to_vec();
    expected.extend_from_slice(&[1; 20]);
    expected.extend_from_slice(b"40000 b\0");
    expected.extend_from_slice(&[2; 20]);
    assert_eq!(encode_tree(&entries), expected);
    assert_eq!(encode_tree(&Vec::new()), Vec::<u8>::new());
}

#[test]
fn parse_tree_inverts_encode_tree() {
    let entries = vec![
        entry(Mode::Executable, b"run me.sh", 3),
        entry(Mode::Symlink, b"link", 0),
        entry(Mode::Directory, b"dir", 32),
        entry(Mode::Regular, "caf\u{e9}".as_bytes(), 255),
    ];
    assert_eq!(parse_tree(&encode_tree(&entries)), Ok(entries));
    assert_eq!(parse_tree(b""), Ok(Vec::new()));
}

#[test]
fn parse_tree_rejects_a_partial_entry() {
    let full = encode_tree(&vec![entry(Mode::Regular, b"a", 1)]);
    for cut in 1..full.len() {
        assert_eq!(
            parse_tree(&full[..cut]),
            Err(StoreError::CorruptObject),
            "cut at {}",
            cut
        );
    }
    let mut twice = full.clone();
    twice.extend_from_slice(b"100644 next");
    assert_eq!(parse_tree(&twice), Err(StoreError::CorruptObject));
}

#[test]
fn parse_tree_rejects_an_entry_without_space_or_mode() {
    let mut no_space = b"100644name\0".to_vec();
    no_space.extend_from_slice(&[1; 20]);
    assert_eq!(parse_tree(&no_space), Err(StoreError::CorruptObject));
    let mut unknown = b"100600 name\0".to_vec();
    unknown.extend_from_slice(&[1; 20]);
    assert_eq!(parse_tree(&unknown), Err(StoreError::CorruptObject));
}

#[test]
fn digest_at_copies_twenty_bytes() {
    let bytes: Vec<u8> = (0..40u8).collect();
    let hash = digest_at(&bytes, 5);
    assert_eq!(hash.to_vec(), (5..25u8).collect::<Vec<u8>>());
}

#[test]
fn a_file_sorts_before_a_directory_of_its_stem() {
    let file = entry(Mode::Regular, b"foo.txt", 1);
    let dir = entry(Mode::Directory, b"foo", 2);
    assert!(precedes(&file, &dir));
    assert!(!precedes(&dir, &file));
    let sorted = sort_entries(vec![dir.clone(), file.clone()]);
    assert_eq!(sorted, vec![file.clone(), dir.clone()]);
    let payload = encode_tree(&sorted);
    assert!(payload.starts_with(b"100644 foo.txt\0"));
    assert_eq!(sort_entries(vec![file.clone(), dir.clone()]), vec![file, dir]);
}

#[test]
fn a_shorter_file_name_sorts_first() {
    let file = entry(Mode::Regular, b"foo", 1);
    let longer = entry(Mode::Regular, b"foo.txt", 2);
    let other = entry(Mode::Directory, b"foo2", 3);
    assert!(precedes(&file, &longer));
    assert!(precedes(&file, &other));
    assert!(!precedes(&longer, &file));
}

#[test]
fn a_directory_counts_as_if_a_slash_followed() {
    let dir = entry(Mode::Directory, b"foo", 1);
    let minus = entry(Mode::Regular, b"foo-bar", 2);
    let zero = entry(Mode::Regular, b"foo0", 3);
    assert!(precedes(&minus, &dir));
    assert!(precedes(&dir, &zero));
    assert_eq!(
        names(&sort_entries(vec![zero, dir, minus])),
        vec![b"foo-bar".to_vec(), b"foo".to_vec(), b"foo0".to_vec()]
    );
}

#[test]
fn names_that_differ_early_are_ordered_bytewise() {
    let a = entry(Mode::Directory, b"abc", 1);
    let b = entry(Mode::Regular, b"abd", 2);
    let upper = entry(Mode::Regular, b"Zebra", 3);
    assert!(precedes(&a, &b));
    assert!(precedes(&upper, &a));
    assert!(!precedes(&a, &a));
}

#[test]
fn entries_of_one_name_rank_the_same() {
    let file = entry(Mode::Regular, b"same", 1);
    let dir = entry(Mode::Directory, b"same", 2);
    assert!(!precedes(&file, &dir));
    assert!(!precedes(&dir, &file));
}

#[test]
fn sort_entries_orders_a_directory_listing() {
    let listing = vec![
        entry(Mode::Regular, b"src.txt", 1),
        entry(Mode::Directory, b"src", 2),
        entry(Mode::Regular, b"README", 3),
        entry(Mode::Regular, b"a", 4),
        entry(Mode::Directory, b"a.d", 5),
        entry(Mode::Executable, b"Makefile", 6),
    ];
    let sorted = sort_entries(listing.clone());
    assert_eq!(
        names(&sorted),
        vec![
            b"Makefile".to_vec(),
            b"README".to_vec(),
            b"a".to_vec(),
            b"a.d".to_vec(),
            b"src.txt".to_vec(),
            b"src".to_vec(),
        ]
    );
    for e in &listing {
        assert_eq!(sorted.iter().filter(|s| *s == e).count(), 1);
    }
    for i in 0..sorted.len() {
        for j in i + 1..sorted.len() {
            assert!(precedes(&sorted[i], &sorted[j]));
        }
    }
    assert_eq!(sort_entries(Vec::new()), Vec::new());
}

#[test]
fn compare_entries_gives_an_ordering() {
    let file = entry(Mode::Regular, b"foo.txt", 1);
    let dir = entry(Mode::Directory, b"foo", 2);
    let twin = entry(Mode::Regular, b"foo", 3);
    assert_eq!(compare_entries(&file, &dir), Ordering::Less);
    assert_eq!(compare_entries(&dir, &file), Ordering::Greater);
    assert_eq!(compare_entries(&dir, &twin), Ordering::Equal);
    assert_eq!(compare_entries(&dir, &dir), Ordering::Equal);
    let mut listing = vec![dir.clone(), file.clone()];
    listing.sort_by(compare_entries);
    assert_eq!(listing, vec![file, dir]);
}
