//! The commands of the tool, and what each of them does to a store and
//! prints. What a command needs read, its caller reads; what it prints
//! comes back as bytes.

use crate::builder::{blob_digest, tree_digest, write_tree, writes};
use crate::bytes::extend_bytes;
use crate::codec::ObjectKind;
use crate::digest::{hex_of, lemma_hex_digit_value, to_hex};
use crate::error::StoreError;
use crate::store::{blob_in, lemma_put_one, put_all, storable, tree_in, ObjectStore};
use crate::tree::{entry_views, Object, ObjectView};
use crate::worktree::Directory;
use vstd::prelude::*;
use vstd::slice::slice_to_vec;
use vstd::string::StringSliceAdditionalSpecFns;

verus! {

/// A command of the tool.
#[derive(Debug)]
pub enum Command {
    /// Sets up an empty repository.
    Init,
    /// Prints the content of a blob.
    CatFile { pretty_print: bool, object_hash: String },
    /// Stores a file as a blob and prints its digest.
    HashObject { write_object: bool, object_file: String },
    /// Prints the names in a tree.
    LsTree { name_only: bool, tree_sha: String },
    /// Stores the working directory as a tree and prints its digest.
    WriteTree,
}

/// The arguments of the tool: one command.
#[derive(Debug)]
pub struct Args {
    pub command: Command,
}

/// What a caller has read for a command.
pub enum Supplied {
    /// Nothing: the command works on the store alone.
    Nothing,
    /// The content of the file that `HashObject` names.
    File(Vec<u8>),
    /// The working directory, for `WriteTree`.
    WorkingDirectory(Directory),
}

/// Whether `supplied` is what `command` works on: a file short enough to be
/// stored for `HashObject`, the working directory for `WriteTree`.
pub open spec fn fits(command: Command, supplied: Supplied) -> bool {
    match command {
        Command::HashObject { write_object, object_file } => supplied matches Supplied::File(
            contents,
        ) && storable(contents@.len()),
        Command::WriteTree => supplied is WorkingDirectory,
        _ => true,
    }
}

/// What `Init` prints.
pub open spec fn init_message() -> Seq<u8> {
    "Initialized git directory\n".spec_bytes()
}

/// A digest in hexadecimal and a line feed, as ASCII.
pub open spec fn digest_line(hash: Seq<u8>) -> Seq<u8> {
    Seq::new(
        2 * hash.len() + 1,
        |i: int|
            if i < 2 * hash.len() {
                hex_of(hash)[i] as u8
            } else {
                10u8
            },
    )
}

/// The names of the entries, each with a line feed behind it.
pub open spec fn name_lines(entries: Seq<ObjectView>) -> Seq<u8>
    decreases entries.len(),
{
    if entries.len() == 0 {
        Seq::empty()
    } else {
        name_lines(entries.drop_last()) + entries.last().name + seq![10u8]
    }
}

/// What `command` prints, or how it fails, and the store that it leaves.
pub open spec fn outcome(command: Command, supplied: Supplied, store: Map<Seq<u8>, Seq<u8>>) -> (
    Result<Seq<u8>, StoreError>,
    Map<Seq<u8>, Seq<u8>>,
) {
    match command {
        Command::Init => (Ok(init_message()), store),
        Command::CatFile { pretty_print, object_hash } => (blob_in(store, object_hash@), store),
        Command::HashObject { write_object, object_file } => {
            let contents = supplied->File_0@;
            let (after, whole) = put_all(store, seq![(ObjectKind::Blob, contents)]);
            if whole {
                (Ok(digest_line(blob_digest(contents))), after)
            } else {
                (Err(StoreError::CompressionFailed), after)
            }
        },
        Command::LsTree { name_only, tree_sha } => (
            match tree_in(store, tree_sha@) {
                Ok(entries) => Ok(name_lines(entries)),
                Err(e) => Err(e),
            },
            store,
        ),
        Command::WriteTree => {
            let dir = supplied->WorkingDirectory_0@;
            let (after, whole) = put_all(store, writes(dir));
            if !whole {
                (Err(StoreError::CompressionFailed), after)
            } else {
                match tree_digest(dir) {
                    Some(root) => (Ok(digest_line(root)), after),
                    None => (Err(StoreError::EmptyTree), after),
                }
            }
        },
    }
}

/// Writes a digest in hexadecimal, and a line feed behind it.
pub fn write_digest_line(hash: &[u8; 20]) -> (line: Vec<u8>)
    ensures
        line@ == digest_line(hash@),
{
    let text = to_hex(hash);
    proof {
        assert forall|i: int| 0 <= i < text@.len() implies '\0' <= #[trigger] text@[i]
            <= '\u{7f}' by {
            lemma_hex_digit_value(hash@[i / 2] as int / 16);
            lemma_hex_digit_value(hash@[i / 2] as int % 16);
        }
        vstd::utf8::is_ascii_chars_encode_utf8(text@);
    }
    let mut line = slice_to_vec(text.as_str().as_bytes());
    line.push(10);
    assert(line@ =~= digest_line(hash@));
    line
}

/// Writes the names of the entries, each with a line feed behind it.
pub fn write_name_lines(entries: &Vec<Object>) -> (lines: Vec<u8>)
    ensures
        lines@ == name_lines(entry_views(entries@)),
{
    let ghost views = entry_views(entries@);
    let mut lines: Vec<u8> = Vec::new();
    let mut i: usize = 0;
    while i < entries.len()
        invariant
            0 <= i <= entries.len(),
            views == entry_views(entries@),
            lines@ == name_lines(views.take(i as int)),
        decreases entries.len() - i,
    {
        proof {
            assert(views.take(i + 1).drop_last() =~= views.take(i as int));
            assert(views.take(i + 1).last() == entries@[i as int]@);
        }
        extend_bytes(&mut lines, entries[i].name.as_slice());
        lines.push(10);
        proof {
            assert(lines@ =~= name_lines(views.take(i as int)) + entries@[i as int]@.name
                + seq![10u8]);
        }
        i = i + 1;
    }
    proof {
        assert(views.take(entries.len() as int) =~= views);
    }
    lines
}

/// Runs a command on `store`, and returns what it prints.
///
/// `Init` only prints its message: to make the directories is the caller's
/// part. `CatFile` prints the content of the blob that `object_hash` names.
/// `HashObject` stores the supplied file as a blob, whatever `write_object`
/// says, and prints the digest. `LsTree` prints the names in the tree that
/// `tree_sha` names, whatever `name_only` says. `WriteTree` stores the tree
/// of the supplied directory and prints its digest; it fails with
/// `EmptyTree` where the directory has nothing to store.
pub fn execute_git_function(
    command: &Command,
    supplied: &Supplied,
    store: &mut ObjectStore,
) -> (out: Result<Vec<u8>, StoreError>)
    requires
        fits(*command, *supplied),
    ensures
        final(store)@ == outcome(*command, *supplied, old(store)@).1,
        match outcome(*command, *supplied, old(store)@).0 {
            Ok(printed) => out matches Ok(got) && got@ == printed,
            Err(e) => out matches Err(got) && got == e,
        },
{
    match command {
        Command::Init => Ok(slice_to_vec("Initialized git directory\n".as_bytes())),
        Command::CatFile { pretty_print, object_hash } => store.read_blob(object_hash.as_str()),
        Command::HashObject { write_object, object_file } => {
            match supplied {
                Supplied::File(contents) => {
                    proof {
                        lemma_put_one(store@, ObjectKind::Blob, contents@);
                    }
                    match store.put_object(ObjectKind::Blob, contents.as_slice()) {
                        Ok(hash) => Ok(write_digest_line(&hash)),
                        Err(e) => Err(e),
                    }
                },
                _ => {
                    // Not reached: `fits` asks for a file.
                    assert(false);
                    Err(StoreError::EncodingError)
                },
            }
        },
        Command::LsTree { name_only, tree_sha } => {
            match store.read_tree_entries(tree_sha.as_str()) {
                Ok(entries) => Ok(write_name_lines(&entries)),
                Err(e) => Err(e),
            }
        },
        Command::WriteTree => {
            match supplied {
                Supplied::WorkingDirectory(dir) => {
                    match write_tree(dir, store) {
                        Ok(root) => Ok(write_digest_line(&root)),
                        Err(e) => Err(e),
                    }
                },
                _ => {
                    // Not reached: `fits` asks for the working directory.
                    assert(false);
                    Err(StoreError::EmptyTree)
                },
            }
        },
    }
}

} // verus!
