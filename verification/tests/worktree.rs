use git_objects::builder::{compute_file_hash, process_directory, write_tree};
use git_objects::digest::{digest, to_hex};
use git_objects::error::StoreError;
use git_objects::store::ObjectStore;
use git_objects::tree::{Mode, Object};
use git_objects::worktree::{is_reserved_name, is_valid_name, Directory, Node, Rejected};

fn file(content: &[u8]) -> Node {
    Node::File {
        content: content.to_vec(),
        executable: false,
    }
}

fn directory(entries: Vec<(&[u8], Node)>) -> Directory {
    let mut dir = Directory::new();
    for (name, node) in entries {
        assert_eq!(dir.add(name.to_vec(), node), Ok(()));
    }
    dir
}

#[test]
fn end_to_end_one_file() {
    let dir = directory(vec![(b"hello.txt", file(b"world"))]);
    let mut store = ObjectStore::new();
    let root = process_directory(&dir, &mut store).unwrap().unwrap();

    let blob = digest(b"blob 5\0world");
    assert_eq!(store.get(&to_hex(&blob)), Ok(b"blob 5\0world".to_vec()));

    let mut payload = b"100644 hello.txt\0".to_vec();
    payload.extend_from_slice(&blob);
    let mut canonical = b"tree 37\0".to_vec();
    canonical.extend_from_slice(&payload);
    assert_eq!(root, digest(&canonical));
    assert_eq!(store.get(&to_hex(&root)), Ok(canonical));
    assert_eq!(store.objects().len(), 2);

    assert_eq!(
        store.read_tree_entries(&to_hex(&root)),
        Ok(vec![Object {
            mode: Mode::Regular,
            name: b"hello.txt".to_vec(),
            hash: blob,
        }])
    );
    assert_eq!(store.read_blob(&to_hex(&blob)), Ok(b"world".to_vec()));
}

#[test]
fn an_empty_directory_is_left_out() {
    let dir = directory(vec![
        (b"empty", Node::Directory(Directory::new())),
        (b"a.txt", file(b"hi")),
    ]);
    let mut store = ObjectStore::new();
    let root = process_directory(&dir, &mut store).unwrap().unwrap();
    let entries = store.read_tree_entries(&to_hex(&root)).unwrap();
    assert_eq!(
        entries,
        vec![Object {
            mode: Mode::Regular,
            name: b"a.txt".to_vec(),
            hash: compute_file_hash(b"hi"),
        }]
    );
    assert_eq!(store.objects().len(), 2);
}

#[test]
fn a_directory_of_empty_directories_has_no_tree() {
    let inner = directory(vec![(b"deeper", Node::Directory(Directory::new()))]);
    let dir = directory(vec![(b"outer", Node::Directory(inner))]);
    let mut store = ObjectStore::new();
    assert_eq!(process_directory(&dir, &mut store), Ok(None));
    assert_eq!(store.objects().len(), 0);
    assert_eq!(write_tree(&dir, &mut store), Err(StoreError::EmptyTree));
    assert_eq!(
        write_tree(&Directory::new(), &mut store),
        Err(StoreError::EmptyTree)
    );
}

#[test]
fn the_reserved_name_is_left_out() {
    let git = directory(vec![(b"HEAD", file(b"ref: refs/heads/main\n"))]);
    let dir = directory(vec![
        (b".git", Node::Directory(git)),
        (b"kept", file(b"x")),
    ]);
    let mut store = ObjectStore::new();
    let root = write_tree(&dir, &mut store).unwrap();
    let entries = store.read_tree_entries(&to_hex(&root)).unwrap();
    assert_eq!(entries.len(), 1);
    assert_eq!(entries[0].name, b"kept".to_vec());
    assert_eq!(store.objects().len(), 2);
    assert!(is_reserved_name(b".git"));
    assert!(!is_reserved_name(b".gitignore"));
    assert!(!is_reserved_name(b"git"));
}

#[test]
fn only_the_reserved_name_gives_no_tree() {
    let dir = directory(vec![(b".git", file(b"gitdir: elsewhere"))]);
    let mut store = ObjectStore::new();
    assert_eq!(process_directory(&dir, &mut store), Ok(None));
}

#[test]
fn modes_follow_what_the_entries_are() {
    let sub = directory(vec![(b"inner", file(b"in"))]);
    let dir = directory(vec![
        (
            b"run",
            Node::File {
                content: b"#!/bin/sh\n".to_vec(),
                executable: true,
            },
        ),
        (
            b"link",
            Node::Symlink {
                target: b"run".to_vec(),
            },
        ),
        (b"plain", file(b"p")),
        (b"sub", Node::Directory(sub)),
    ]);
    let mut store = ObjectStore::new();
    let root = write_tree(&dir, &mut store).unwrap();
    let entries = store.read_tree_entries(&to_hex(&root)).unwrap();
    let found: Vec<(Mode, Vec<u8>)> = entries.iter().map(|e| (e.mode, e.name.clone())).collect();
    assert_eq!(
        found,
        vec![
            (Mode::Symlink, b"link".to_vec()),
            (Mode::Regular, b"plain".to_vec()),
            (Mode::Executable, b"run".to_vec()),
            (Mode::Directory, b"sub".to_vec()),
        ]
    );
    assert_eq!(entries[0].hash, compute_file_hash(b"run"));
    let inner = store.read_tree_entries(&to_hex(&entries[3].hash)).unwrap();
    assert_eq!(inner.len(), 1);
    assert_eq!(inner[0].hash, compute_file_hash(b"in"));
}

#[test]
fn the_tree_is_sorted_whatever_the_listing_order() {
    let forward = directory(vec![
        (b"foo", Node::Directory(directory(vec![(b"x", file(b"1"))]))),
        (b"foo.txt", file(b"2")),
        (b"bar", file(b"3")),
    ]);
    let backward = directory(vec![
        (b"bar", file(b"3")),
        (b"foo.txt", file(b"2")),
        (b"foo", Node::Directory(directory(vec![(b"x", file(b"1"))]))),
    ]);
    let mut one = ObjectStore::new();
    let mut other = ObjectStore::new();
    let root = write_tree(&forward, &mut one).unwrap();
    assert_eq!(write_tree(&backward, &mut other), Ok(root));
    let names: Vec<Vec<u8>> = one
        .read_tree_entries(&to_hex(&root))
        .unwrap()
        .into_iter()
        .map(|e| e.name)
        .collect();
    assert_eq!(
        names,
        vec![b"bar".to_vec(), b"foo.txt".to_vec(), b"foo".to_vec()]
    );
}

#[test]
fn the_tree_matches_git_for_a_known_directory() {
    let dir = directory(vec![(b"hello.txt", file(b"hello world\n"))]);
    let mut store = ObjectStore::new();
    let root = write_tree(&dir, &mut store).unwrap();
    assert_eq!(
        to_hex(&compute_file_hash(b"hello world\n")),
        "3b18e512dba79e4c8300dd08aeb37f8e728b8dad"
    );
    assert_eq!(to_hex(&root), "68aba62e560c0ebc3396e8ae9335232cd93a3f60");
}

#[test]
fn equal_files_are_stored_once() {
    let dir = directory(vec![
        (b"one", file(b"same")),
        (b"two", file(b"same")),
        (b"copy", Node::Directory(directory(vec![(b"one", file(b"same"))]))),
    ]);
    let mut store = ObjectStore::new();
    write_tree(&dir, &mut store).unwrap();
    assert_eq!(store.objects().len(), 3);
    let again = store.objects().len();
    write_tree(&dir, &mut store).unwrap();
    assert_eq!(store.objects().len(), again);
}

#[test]
fn compute_file_hash_hashes_the_blob_form() {
    assert_eq!(compute_file_hash(b"world"), digest(b"blob 5\0world"));
    assert_eq!(
        to_hex(&compute_file_hash(b"")),
        "e69de29bb2d1d6434b8b29ae775ad8c2e48c5391"
    );
}

#[test]
fn a_directory_rejects_bad_names() {
    let mut dir = Directory::new();
    assert_eq!(dir.add(Vec::new(), file(b"x")), Err(Rejected::InvalidName));
    assert_eq!(
        dir.add(b"a/b".to_vec(), file(b"x")),
        Err(Rejected::InvalidName)
    );
    assert_eq!(
        dir.add(b"a\0b".to_vec(), file(b"x")),
        Err(Rejected::InvalidName)
    );
    assert_eq!(dir.len(), 0);
    assert!(is_valid_name(b"a b"));
    assert!(!is_valid_name(b"/"));
    assert!(!is_valid_name(b""));
}

#[test]
fn a_directory_rejects_a_second_entry_of_a_name() {
    let mut dir = Directory::new();
    assert_eq!(dir.add(b"name".to_vec(), file(b"x")), Ok(()));
    assert_eq!(
        dir.add(b"name".to_vec(), Node::Directory(Directory::new())),
        Err(Rejected::DuplicateName)
    );
    assert_eq!(dir.add(b"Name".to_vec(), file(b"y")), Ok(()));
    assert_eq!(dir.len(), 2);
    assert!(dir.has_name(b"name"));
    assert!(!dir.has_name(b"other"));
    assert_eq!(dir.entries()[1].name, b"Name".to_vec());
}
