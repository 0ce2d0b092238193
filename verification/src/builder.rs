//! Building the tree of a directory: a blob for each file and link, a tree
//! for each directory that has anything to store, and the tree of the
//! directory itself over them.

use crate::codec::{canonical_form, encode_object, ObjectKind};
use crate::decimal::lemma_digits_of_u64;
use crate::digest::{digest, sha1_of};
use crate::error::StoreError;
use crate::order::{
    distinct_plain_names, in_order, insertion_point, lemma_insertion_point,
    lemma_member_of_sorted, lemma_sorted_in_order, lemma_sorted_is_permutation, plain_name,
    sort_entries, sorted_entries,
};
use crate::store::{
    entries_of, lemma_entries_after_put, lemma_put_all_concat, lemma_put_one, put_all, storable,
    ObjectStore,
};
use crate::tree::{
    encode_tree, entry_bytes, entry_views, lemma_payload_push, tree_payload, valid_entry, Mode,
    Object, ObjectView,
};
use crate::worktree::{
    entries_model, entry_model, is_reserved_name, lemma_entries_model, lemma_weight_push,
    names_weight, reserved_name, valid_name, well_formed, Directory, EntryView, Node, NodeView,
};
use vstd::prelude::*;
use vstd::slice::slice_to_vec;

verus! {

/// The digest of the blob with the given content.
pub open spec fn blob_digest(content: Seq<u8>) -> Seq<u8> {
    sha1_of(canonical_form(ObjectKind::Blob, content))
}

/// The entry that stands for `e` in the tree of its directory, if any does.
///
/// None does for what stands under the reserved name, nor for a directory
/// with nothing to store. A file is entered with the digest of its content
/// as a blob, a link with that of its target, a directory with that of its
/// tree.
pub open spec fn entry_object(e: EntryView) -> Option<ObjectView>
    decreases e, 0nat,
{
    if e.name == reserved_name() {
        None
    } else {
        match e.node {
            NodeView::File { content, executable } => Some(
                ObjectView {
                    mode: if executable {
                        Mode::Executable
                    } else {
                        Mode::Regular
                    },
                    name: e.name,
                    hash: blob_digest(content),
                },
            ),
            NodeView::Symlink { target } => Some(
                ObjectView { mode: Mode::Symlink, name: e.name, hash: blob_digest(target) },
            ),
            NodeView::Directory { entries } => match tree_digest(entries) {
                Some(hash) => Some(ObjectView { mode: Mode::Directory, name: e.name, hash }),
                None => None,
            },
        }
    }
}

/// The entries of the tree of a directory, in the order of the directory.
pub open spec fn listed(entries: Seq<EntryView>) -> Seq<ObjectView>
    decreases entries, 0nat,
{
    if entries.len() == 0 {
        Seq::empty()
    } else {
        match entry_object(entries.last()) {
            Some(object) => listed(entries.drop_last()).push(object),
            None => listed(entries.drop_last()),
        }
    }
}

/// The payload of the tree of a directory: its entries, sorted.
pub open spec fn tree_bytes(entries: Seq<EntryView>) -> Seq<u8>
    decreases entries, 1nat,
{
    tree_payload(sorted_entries(listed(entries)))
}

/// The digest of the tree of a directory; `None` for a directory with
/// nothing to store.
pub open spec fn tree_digest(entries: Seq<EntryView>) -> Option<Seq<u8>>
    decreases entries, 2nat,
{
    if listed(entries).len() == 0 {
        None
    } else {
        Some(sha1_of(canonical_form(ObjectKind::Tree, tree_bytes(entries))))
    }
}

/// The objects that are stored for one entry of a directory, in the order
/// in which they are stored.
pub open spec fn entry_writes(e: EntryView) -> Seq<(ObjectKind, Seq<u8>)>
    decreases e, 0nat,
{
    if e.name == reserved_name() {
        Seq::empty()
    } else {
        match e.node {
            NodeView::File { content, executable } => seq![(ObjectKind::Blob, content)],
            NodeView::Symlink { target } => seq![(ObjectKind::Blob, target)],
            NodeView::Directory { entries } => writes(entries),
        }
    }
}

/// The objects that are stored for the entries of a directory.
pub open spec fn writes_within(entries: Seq<EntryView>) -> Seq<(ObjectKind, Seq<u8>)>
    decreases entries, 0nat,
{
    if entries.len() == 0 {
        Seq::empty()
    } else {
        writes_within(entries.drop_last()) + entry_writes(entries.last())
    }
}

/// The objects that are stored for a directory: those for its entries, then
/// its own tree if it has anything to store.
pub open spec fn writes(entries: Seq<EntryView>) -> Seq<(ObjectKind, Seq<u8>)>
    decreases entries, 1nat,
{
    if listed(entries).len() == 0 {
        writes_within(entries)
    } else {
        writes_within(entries).push((ObjectKind::Tree, tree_bytes(entries)))
    }
}

/// What fails within the first entries of a directory fails for the whole
/// of it, and leaves the store the same.
pub proof fn lemma_put_all_prefix(store: Map<Seq<u8>, Seq<u8>>, entries: Seq<EntryView>, k: int)
    requires
        0 <= k <= entries.len(),
        !put_all(store, writes_within(entries.take(k))).1,
    ensures
        put_all(store, writes(entries)) == put_all(store, writes_within(entries.take(k))),
    decreases entries.len() - k,
{
    let head = writes_within(entries.take(k));
    if k == entries.len() {
        assert(entries.take(k) =~= entries);
        if listed(entries).len() != 0 {
            let tree = seq![(ObjectKind::Tree, tree_bytes(entries))];
            assert(writes(entries) =~= head + tree);
            lemma_put_all_concat(store, head, tree);
        }
    } else {
        let longer = entries.take(k + 1);
        assert(longer.drop_last() =~= entries.take(k));
        assert(longer.last() == entries[k]);
        lemma_put_all_concat(store, head, entry_writes(entries[k]));
        lemma_put_all_prefix(store, entries, k + 1);
    }
}

/// A payload grows by the bytes of an entry wherever the entry is put in.
pub proof fn lemma_payload_insert(entries: Seq<ObjectView>, at: int, e: ObjectView)
    requires
        0 <= at <= entries.len(),
    ensures
        tree_payload(entries.insert(at, e)).len() == tree_payload(entries).len() + entry_bytes(
            e,
        ).len(),
    decreases entries.len(),
{
    let longer = entries.insert(at, e);
    if at == 0 {
        assert(longer.drop_first() =~= entries);
        assert(longer.first() == e);
    } else {
        lemma_payload_insert(entries.drop_first(), at - 1, e);
        assert(longer.drop_first() =~= entries.drop_first().insert(at - 1, e));
        assert(longer.first() == entries.first());
    }
}

/// Sorting the entries does not change the length of the payload.
pub proof fn lemma_sorted_payload_len(entries: Seq<ObjectView>)
    ensures
        tree_payload(sorted_entries(entries)).len() == tree_payload(entries).len(),
    decreases entries.len(),
{
    if entries.len() > 0 {
        let rest = sorted_entries(entries.drop_first());
        lemma_sorted_payload_len(entries.drop_first());
        lemma_insertion_point(rest, entries.first(), 0);
        lemma_payload_insert(rest, insertion_point(rest, entries.first(), 0), entries.first());
    }
}

/// The entries of the tree of a directory have names of the directory, each
/// at most once and in the same order; so they are as plain and as distinct
/// as the names of the directory are.
pub proof fn lemma_listed_names(entries: Seq<EntryView>)
    requires
        forall|i: int| 0 <= i < entries.len() ==> valid_name((#[trigger] entries[i]).name),
        forall|i: int, j: int|
            0 <= i < j < entries.len() ==> (#[trigger] entries[i]).name != (
            #[trigger] entries[j]).name,
    ensures
        distinct_plain_names(listed(entries)),
        forall|k: int|
            0 <= k < listed(entries).len() ==> exists|i: int|
                0 <= i < entries.len() && entries[i].name == (#[trigger] listed(entries)[k]).name,
        forall|k: int|
            0 <= k < listed(entries).len() ==> valid_name((#[trigger] listed(entries)[k]).name),
    decreases entries.len(),
{
    if entries.len() > 0 {
        let rest = entries.drop_last();
        let last = entries.last();
        lemma_listed_names(rest);
        let found = listed(entries);
        let before = listed(rest);
        match entry_object(last) {
            Some(object) => {
                assert(object.name == last.name);
                assert(found == before.push(object));
            },
            None => {
                assert(found == before);
            },
        }
        assert forall|k: int| 0 <= k < before.len() implies exists|i: int|
            0 <= i < entries.len() - 1 && entries[i].name == (#[trigger] before[k]).name by {
            let i = choose|i: int| 0 <= i < rest.len() && rest[i].name == before[k].name;
            assert(rest[i] == entries[i]);
        }
        assert forall|k: int| 0 <= k < found.len() implies exists|i: int|
            0 <= i < entries.len() && entries[i].name == (#[trigger] found[k]).name by {
            if k < before.len() {
                assert(found[k] == before[k]);
                let i = choose|i: int|
                    0 <= i < entries.len() - 1 && entries[i].name == before[k].name;
                assert(entries[i].name == found[k].name);
            } else {
                assert(found[k].name == last.name);
                assert(entries[entries.len() - 1].name == found[k].name);
            }
        }
        assert forall|k: int| 0 <= k < found.len() implies valid_name(
            (#[trigger] found[k]).name,
        ) by {
            let i = choose|i: int| 0 <= i < entries.len() && entries[i].name == found[k].name;
            assert(valid_name(entries[i].name));
        }
        assert forall|a: int, b: int| 0 <= a < b < found.len() implies (#[trigger] found[a]).name
            != (#[trigger] found[b]).name by {
            if b < before.len() {
                assert(found[a] == before[a] && found[b] == before[b]);
            } else {
                assert(found[a] == before[a]);
                let i = choose|i: int|
                    0 <= i < entries.len() - 1 && entries[i].name == before[a].name;
                assert(entries[i].name != entries[entries.len() - 1].name);
            }
        }
        assert forall|k: int| 0 <= k < found.len() implies plain_name(#[trigger] found[k]) by {
            assert(valid_name(found[k].name));
        }
    }
}

/// The digest under which the content of a file is stored as a blob.
/// Nothing is stored.
pub fn compute_file_hash(contents: &[u8]) -> (hash: [u8; 20])
    requires
        storable(contents@.len()),
    ensures
        hash@ == blob_digest(contents@),
{
    let canonical = encode_object(ObjectKind::Blob, contents);
    proof {
        lemma_digits_of_u64(contents@.len());
    }
    digest(canonical.as_slice())
}

/// Whether the digest that came out is the one that was due.
pub open spec fn same_digest(got: Option<[u8; 20]>, due: Option<Seq<u8>>) -> bool {
    match (got, due) {
        (Some(hash), Some(digest)) => hash@ == digest,
        (None, None) => true,
        _ => false,
    }
}

/// The sorted entries of a directory are in order, and its tree is read
/// back as them, if only the digests in them have 20 bytes.
pub proof fn lemma_tree_reads_back(entries: Seq<EntryView>)
    requires
        well_formed(entries),
        tree_bytes(entries).len() <= u64::MAX,
        forall|k: int|
            0 <= k < listed(entries).len() ==> (#[trigger] listed(entries)[k]).hash.len() == 20,
    ensures
        in_order(sorted_entries(listed(entries))),
        entries_of(canonical_form(ObjectKind::Tree, tree_bytes(entries))) == Ok::<
            Seq<ObjectView>,
            StoreError,
        >(sorted_entries(listed(entries))),
{
    let found = listed(entries);
    let sorted = sorted_entries(found);
    lemma_listed_names(entries);
    lemma_sorted_in_order(found);
    lemma_sorted_is_permutation(found);
    assert forall|k: int| 0 <= k < sorted.len() implies valid_entry(#[trigger] sorted[k]) by {
        lemma_member_of_sorted(found, sorted, k);
        let i = choose|i: int| 0 <= i < found.len() && found[i] == sorted[k];
        assert(valid_name(found[i].name));
    }
    lemma_entries_after_put(sorted);
}

/// Builds the tree of a directory in `store`: a blob for each file and
/// link, the tree of each directory in it, and its own tree over them, with
/// the entries sorted. Returns the digest of the tree; `None` for a
/// directory with nothing to store, for which no tree is stored.
///
/// What stands under the reserved name is left out, and so is a directory
/// with nothing to store. Fails with `CompressionFailed` as soon as the
/// compressor gives up on an object; what was stored until then stays.
pub fn process_directory(dir: &Directory, store: &mut ObjectStore) -> (out: Result<
    Option<[u8; 20]>,
    StoreError,
>)
    ensures
        final(store)@ == put_all(old(store)@, writes(dir@)).0,
        match out {
            Ok(root) => put_all(old(store)@, writes(dir@)).1 && same_digest(
                root,
                tree_digest(dir@),
            ),
            Err(e) => !put_all(old(store)@, writes(dir@)).1 && e == StoreError::CompressionFailed,
        },
        out is Ok ==> in_order(sorted_entries(listed(dir@))),
        out is Ok ==> entries_of(canonical_form(ObjectKind::Tree, tree_bytes(dir@))) == Ok::<
            Seq<ObjectView>,
            StoreError,
        >(sorted_entries(listed(dir@))),
    decreases dir@,
{
    let ghost before = store@;
    let ghost model = dir@;
    let entries = dir.entries();
    let mut found: Vec<Object> = Vec::new();
    let mut i: usize = 0;
    proof {
        lemma_entries_model(entries@);
        assert(model.take(0) =~= Seq::<EntryView>::empty());
        assert(entry_views(found@) =~= Seq::<ObjectView>::empty());
    }
    while i < entries.len()
        invariant
            0 <= i <= entries.len(),
            model == dir@,
            before == old(store)@,
            entries_model(entries@) == model,
            model.len() == entries@.len(),
            well_formed(model),
            entry_views(found@) == listed(model.take(i as int)),
            put_all(before, writes_within(model.take(i as int))) == (store@, true),
            tree_payload(entry_views(found@)).len() <= names_weight(model.take(i as int)),
        decreases entries.len() - i,
    {
        let entry = &entries[i];
        let ghost e = model[i as int];
        let ghost earlier = model.take(i as int);
        let ghost views = entry_views(found@);
        let ghost stored = store@;
        proof {
            lemma_entries_model(entries@);
            assert(e == entry_model(*entry));
            assert(model.take(i + 1).drop_last() =~= earlier);
            assert(model.take(i + 1).last() == e);
            assert(model.take(i + 1) =~= earlier.push(e));
            lemma_weight_push(earlier, e);
            lemma_put_all_concat(before, writes_within(earlier), entry_writes(e));
        }
        let object: Option<Object> = if is_reserved_name(entry.name.as_slice()) {
            proof {
                assert(writes_within(earlier) + entry_writes(e) =~= writes_within(earlier));
            }
            None
        } else {
            match &entry.node {
                Node::File { content, executable } => {
                    let ghost blob = seq![(ObjectKind::Blob, content@)];
                    proof {
                        assert(entry_writes(e) == blob);
                        lemma_put_one(stored, ObjectKind::Blob, content@);
                    }
                    let hash = match store.put_object(ObjectKind::Blob, content.as_slice()) {
                        Ok(hash) => hash,
                        Err(error) => {
                            proof {
                                lemma_put_all_prefix(before, model, i + 1);
                            }
                            return Err(error);
                        },
                    };
                    let mode = if *executable {
                        Mode::Executable
                    } else {
                        Mode::Regular
                    };
                    Some(Object { mode, name: slice_to_vec(entry.name.as_slice()), hash })
                },
                Node::Symlink { target } => {
                    let ghost blob = seq![(ObjectKind::Blob, target@)];
                    proof {
                        assert(entry_writes(e) == blob);
                        lemma_put_one(stored, ObjectKind::Blob, target@);
                    }
                    let hash = match store.put_object(ObjectKind::Blob, target.as_slice()) {
                        Ok(hash) => hash,
                        Err(error) => {
                            proof {
                                lemma_put_all_prefix(before, model, i + 1);
                            }
                            return Err(error);
                        },
                    };
                    Some(
                        Object {
                            mode: Mode::Symlink,
                            name: slice_to_vec(entry.name.as_slice()),
                            hash,
                        },
                    )
                },
                Node::Directory(inner) => {
                    proof {
                        assert(e.node == NodeView::Directory { entries: inner@ });
                        assert(entry_writes(e) == writes(inner@));
                    }
                    match process_directory(inner, store) {
                        Ok(Some(hash)) => Some(
                            Object {
                                mode: Mode::Directory,
                                name: slice_to_vec(entry.name.as_slice()),
                                hash,
                            },
                        ),
                        Ok(None) => None,
                        Err(error) => {
                            proof {
                                lemma_put_all_prefix(before, model, i + 1);
                            }
                            return Err(error);
                        },
                    }
                },
            }
        };
        match object {
            Some(object) => {
                proof {
                    assert(entry_object(e) == Some(object@));
                    lemma_payload_push(views, object@);
                    object.mode.lemma_token();
                    assert(entry_views(found@.push(object)) =~= views.push(object@));
                }
                found.push(object);
            },
            None => {
                proof {
                    assert(entry_object(e) is None);
                }
            },
        }
        i = i + 1;
    }
    proof {
        assert(model.take(entries.len() as int) =~= model);
        assert forall|k: int| 0 <= k < listed(model).len() implies (#[trigger] listed(
            model,
        )[k]).hash.len() == 20 by {
            assert(listed(model)[k] == found@[k]@);
        }
        lemma_sorted_payload_len(listed(model));
        lemma_tree_reads_back(model);
    }
    if found.len() == 0 {
        return Ok(None);
    }
    let sorted = sort_entries(found);
    let payload = encode_tree(&sorted);
    let ghost tree = seq![(ObjectKind::Tree, payload@)];
    proof {
        assert(writes(model) =~= writes_within(model) + tree);
        lemma_put_one(store@, ObjectKind::Tree, payload@);
        lemma_put_all_concat(before, writes_within(model), tree);
    }
    match store.put_object(ObjectKind::Tree, payload.as_slice()) {
        Ok(hash) => Ok(Some(hash)),
        Err(error) => Err(error),
    }
}

/// Builds the tree of a working directory in `store` and returns its
/// digest. Fails with `EmptyTree` where the directory has nothing to store,
/// and as `process_directory` does.
pub fn write_tree(dir: &Directory, store: &mut ObjectStore) -> (out: Result<[u8; 20], StoreError>)
    ensures
        final(store)@ == put_all(old(store)@, writes(dir@)).0,
        match out {
            Ok(root) => put_all(old(store)@, writes(dir@)).1 && tree_digest(dir@) == Some(root@),
            Err(e) => if put_all(old(store)@, writes(dir@)).1 {
                e == StoreError::EmptyTree && tree_digest(dir@) is None
            } else {
                e == StoreError::CompressionFailed
            },
        },
{
    match process_directory(dir, store) {
        Ok(Some(root)) => Ok(root),
        Ok(None) => Err(StoreError::EmptyTree),
        Err(error) => Err(error),
    }
}

} // verus!
