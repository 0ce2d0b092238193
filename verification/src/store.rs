//! The object store: stored objects by their digests.
//!
//! An object is kept as the zlib stream of its canonical form, under the
//! SHA-1 of that form. What is once kept under a digest stays: a second
//! object under the same digest is taken to be the first and dropped.

use crate::bytes::bytes_equal;
use crate::codec::{
    canonical_form, decode, decoded, encode_object, lemma_decode_inverts_encode, ObjectKind,
};
use crate::compress::{compress, decompress, zlib_deflated, zlib_inflated};
use crate::decimal::lemma_digits_of_u64;
use crate::digest::{
    digest, digest_of_text, hashable, hex_of, is_digest_text, lemma_parse_inverts_hex,
    parse_digest, sha1_of,
};
use crate::error::StoreError;
use crate::tree::{
    entry_views, lemma_parse_inverts_payload, parse_tree, parsed_tree, tree_payload,
    valid_entry, Object, ObjectView,
};
use vstd::prelude::*;

verus! {

/// One object as it is kept: its digest, and the zlib stream of its
/// canonical form.
#[derive(Clone, Debug, PartialEq, Eq)]
pub struct StoredObject {
    pub hash: [u8; 20],
    pub data: Vec<u8>,
}

/// A store with `data` under `hash`, unless it holds that digest already.
pub open spec fn put_if_absent(
    store: Map<Seq<u8>, Seq<u8>>,
    hash: Seq<u8>,
    data: Seq<u8>,
) -> Map<Seq<u8>, Seq<u8>> {
    if store.contains_key(hash) {
        store
    } else {
        store.insert(hash, data)
    }
}

/// What is to be done on disk for a stored object.
#[derive(Clone, Copy, Debug, PartialEq, Eq, Structural)]
pub struct WritePlan {
    /// Whether the directory named by the first two characters of the
    /// digest is to be made.
    pub create_directory: bool,
    /// Whether the object file is to be written.
    pub write_file: bool,
}

/// Decides what is to be done on disk for a stored object: an object file
/// that exists is left as it is, since its path says what it holds; a
/// directory is made for a file that is to be written and has none.
pub fn plan_write(directory_exists: bool, file_exists: bool) -> (plan: WritePlan)
    ensures
        plan.write_file == !file_exists,
        plan.create_directory == (!file_exists && !directory_exists),
{
    WritePlan {
        create_directory: !file_exists && !directory_exists,
        write_file: !file_exists,
    }
}

/// Whether a payload is short enough for its object to be hashed: with 32
/// bytes more, which is room for the header, it must stay below the 2^61
/// bytes that SHA-1 takes.
pub open spec fn storable(len: nat) -> bool {
    hashable(len + 32)
}

/// Whether a payload of `len` bytes is short enough to be stored.
pub fn is_storable(len: usize) -> (fits: bool)
    ensures
        fits == storable(len as nat),
{
    (len as u64) < 0x2000_0000_0000_0000u64 - 32
}

/// What `get` finds under `digest` in `store`: the canonical form of the
/// object, or why there is none to be had.
pub open spec fn fetched(store: Map<Seq<u8>, Seq<u8>>, digest: Seq<char>) -> Result<
    Seq<u8>,
    StoreError,
> {
    if !is_digest_text(digest) {
        Err(StoreError::InvalidDigest)
    } else if !store.contains_key(digest_of_text(digest)) {
        Err(StoreError::ObjectNotFound)
    } else {
        match zlib_inflated(store[digest_of_text(digest)]) {
            None => Err(StoreError::CorruptStream),
            Some(bytes) => if decoded(bytes) is Some {
                Ok(bytes)
            } else {
                Err(StoreError::CorruptObject)
            },
        }
    }
}

/// The payload of the object in canonical form `bytes`, where it is of
/// `kind`.
pub open spec fn payload_as(bytes: Seq<u8>, kind: ObjectKind) -> Result<Seq<u8>, StoreError> {
    match decoded(bytes) {
        None => Err(StoreError::CorruptObject),
        Some((found, payload)) => if found == kind {
            Ok(payload)
        } else {
            Err(StoreError::WrongObjectKind)
        },
    }
}

/// What `read_blob` reads under `digest` in `store`.
pub open spec fn blob_in(store: Map<Seq<u8>, Seq<u8>>, digest: Seq<char>) -> Result<
    Seq<u8>,
    StoreError,
> {
    match fetched(store, digest) {
        Err(e) => Err(e),
        Ok(bytes) => payload_as(bytes, ObjectKind::Blob),
    }
}

/// The entries of the tree in canonical form `bytes`.
pub open spec fn entries_of(bytes: Seq<u8>) -> Result<Seq<ObjectView>, StoreError> {
    match payload_as(bytes, ObjectKind::Tree) {
        Err(e) => Err(e),
        Ok(payload) => match parsed_tree(payload) {
            None => Err(StoreError::CorruptObject),
            Some(entries) => Ok(entries),
        },
    }
}

/// What `read_tree_entries` reads under `digest` in `store`.
pub open spec fn tree_in(store: Map<Seq<u8>, Seq<u8>>, digest: Seq<char>) -> Result<
    Seq<ObjectView>,
    StoreError,
> {
    match fetched(store, digest) {
        Err(e) => Err(e),
        Ok(bytes) => entries_of(bytes),
    }
}

/// The payload of an object that is expected to be of `kind`. Fails with
/// `CorruptObject` where `bytes` are no object in canonical form, and with
/// `WrongObjectKind` where they are one of the other kind.
pub fn expect_kind(bytes: &[u8], kind: ObjectKind) -> (out: Result<Vec<u8>, StoreError>)
    ensures
        match payload_as(bytes@, kind) {
            Ok(payload) => out matches Ok(got) && got@ == payload,
            Err(e) => out matches Err(got) && got == e,
        },
{
    let (found, payload) = match decode(bytes) {
        Ok(object) => object,
        Err(e) => {
            return Err(e);
        },
    };
    if found == kind {
        Ok(payload)
    } else {
        Err(StoreError::WrongObjectKind)
    }
}

/// The entries of a tree object in canonical form.
pub fn tree_entries(bytes: &[u8]) -> (out: Result<Vec<Object>, StoreError>)
    ensures
        match entries_of(bytes@) {
            Ok(entries) => out matches Ok(got) && entry_views(got@) == entries,
            Err(e) => out matches Err(got) && got == e,
        },
{
    let payload = match expect_kind(bytes, ObjectKind::Tree) {
        Ok(payload) => payload,
        Err(e) => {
            return Err(e);
        },
    };
    parse_tree(payload.as_slice())
}

/// Stored objects by their digests.
pub struct ObjectStore {
    objects: Vec<StoredObject>,
}

impl View for ObjectStore {
    type V = Map<Seq<u8>, Seq<u8>>;

    /// The stream that is kept under each digest.
    closed spec fn view(&self) -> Map<Seq<u8>, Seq<u8>> {
        Map::new(
            |hash: Seq<u8>| self.index_of(hash) < self.objects@.len(),
            |hash: Seq<u8>| self.objects@[self.index_of(hash)].data@,
        )
    }
}

impl ObjectStore {
    /// No digest is kept twice.
    #[verifier::type_invariant]
    spec fn distinct(self) -> bool {
        forall|i: int, j: int|
            0 <= i < j < self.objects@.len() ==> (#[trigger] self.objects@[i]).hash@
                != (#[trigger] self.objects@[j]).hash@
    }

    /// The index of the object under `hash`; the number of objects, where
    /// there is none.
    spec fn index_of(self, hash: Seq<u8>) -> int {
        if exists|i: int| 0 <= i < self.objects@.len() && self.objects@[i].hash@ == hash {
            choose|i: int| 0 <= i < self.objects@.len() && self.objects@[i].hash@ == hash
        } else {
            self.objects@.len() as int
        }
    }

    /// A store that holds nothing.
    pub fn new() -> (store: ObjectStore)
        ensures
            store@ == Map::<Seq<u8>, Seq<u8>>::empty(),
    {
        let store = ObjectStore { objects: Vec::new() };
        assert(store@ =~= Map::<Seq<u8>, Seq<u8>>::empty());
        store
    }

    /// Where the object under `hash` stands among the stored objects.
    fn position(&self, hash: &[u8; 20]) -> (at: usize)
        ensures
            at == self.index_of(hash@),
            at <= self.objects@.len(),
    {
        let mut at: usize = 0;
        while at < self.objects.len()
            invariant
                0 <= at <= self.objects@.len(),
                forall|i: int| 0 <= i < at ==> self.objects@[i].hash@ != hash@,
            decreases self.objects@.len() - at,
        {
            if bytes_equal(self.objects[at].hash.as_slice(), hash.as_slice()) {
                proof {
                    use_type_invariant(self);
                    let found = self.index_of(hash@);
                    assert(self.objects@[at as int].hash@ == hash@);
                    assert(self.objects@[found].hash@ == hash@);
                }
                return at;
            }
            at = at + 1;
        }
        at
    }

    /// Whether an object is kept under `hash`.
    pub fn contains(&self, hash: &[u8; 20]) -> (kept: bool)
        ensures
            kept == self@.contains_key(hash@),
    {
        self.position(hash) < self.objects.len()
    }

    /// The stream that is kept under `hash`, if there is one.
    pub fn stored(&self, hash: &[u8; 20]) -> (data: Option<&Vec<u8>>)
        ensures
            match data {
                Some(stream) => self@.contains_key(hash@) && self@[hash@] == stream@,
                None => !self@.contains_key(hash@),
            },
    {
        let at = self.position(hash);
        if at < self.objects.len() {
            Some(&self.objects[at].data)
        } else {
            None
        }
    }

    /// The stored objects, each digest once, in the order in which they
    /// came.
    pub fn objects(&self) -> (all: &Vec<StoredObject>)
        ensures
            forall|i: int|
                0 <= i < all@.len() ==> self@.contains_key((#[trigger] all@[i]).hash@)
                    && self@[all@[i].hash@] == all@[i].data@,
            forall|hash: Seq<u8>| #[trigger]
                self@.contains_key(hash) ==> exists|i: int|
                    0 <= i < all@.len() && all@[i].hash@ == hash,
    {
        proof {
            use_type_invariant(self);
        }
        &self.objects
    }

    /// Keeps `data` under `hash`, unless something is kept there already.
    /// Says whether it was kept.
    pub fn insert(&mut self, hash: [u8; 20], data: Vec<u8>) -> (kept: bool)
        ensures
            final(self)@ == put_if_absent(old(self)@, hash@, data@),
            kept == !old(self)@.contains_key(hash@),
    {
        proof {
            use_type_invariant(&*self);
        }
        if self.position(&hash) < self.objects.len() {
            return false;
        }
        let ghost before = *self;
        let mut objects: Vec<StoredObject> = Vec::new();
        std::mem::swap(&mut objects, &mut self.objects);
        objects.push(StoredObject { hash, data });
        self.objects = objects;
        proof {
            let n = before.objects@.len() as int;
            assert(self.objects@[n].hash@ == hash@);
            assert forall|h: Seq<u8>| #[trigger] self@.contains_key(h) == put_if_absent(
                before@,
                hash@,
                data@,
            ).contains_key(h) by {
                if h == hash@ {
                } else if before@.contains_key(h) {
                    let i = before.index_of(h);
                    assert(self.objects@[i].hash@ == h);
                } else if self@.contains_key(h) {
                    let i = self.index_of(h);
                    assert(before.objects@[i].hash@ == h);
                }
            }
            assert forall|h: Seq<u8>| #[trigger] self@.contains_key(h) implies self@[h]
                == put_if_absent(before@, hash@, data@)[h] by {
                let i = self.index_of(h);
                if h != hash@ {
                    assert(before.objects@[i].hash@ == h);
                    let j = before.index_of(h);
                    assert(self.objects@[j].hash@ == h);
                }
            }
            assert(self@ =~= put_if_absent(before@, hash@, data@));
        }
        true
    }

    /// Stores an object: encodes it, hashes the canonical form, compresses
    /// it, and keeps the stream under the digest unless the store holds that
    /// digest already. Returns the digest either way. Fails with
    /// `CompressionFailed` where the compressor does; the store is then as
    /// it was.
    pub fn put_object(&mut self, kind: ObjectKind, payload: &[u8]) -> (out: Result<
        [u8; 20],
        StoreError,
    >)
        requires
            storable(payload@.len()),
        ensures
            match zlib_deflated(canonical_form(kind, payload@)) {
                Some(stream) => out matches Ok(hash) && hash@ == sha1_of(
                    canonical_form(kind, payload@),
                ) && final(self)@ == put_if_absent(old(self)@, hash@, stream) && zlib_inflated(
                    stream,
                ) == Some(canonical_form(kind, payload@)),
                None => out matches Err(e) && e == StoreError::CompressionFailed && final(self)@
                    == old(self)@,
            },
    {
        let canonical = encode_object(kind, payload);
        proof {
            lemma_digits_of_u64(payload@.len());
        }
        let hash = digest(canonical.as_slice());
        let stream = match compress(canonical.as_slice()) {
            Ok(stream) => stream,
            Err(e) => {
                return Err(e);
            },
        };
        self.insert(hash, stream);
        Ok(hash)
    }

    /// Stores an object whose kind is given by name. Fails with
    /// `EncodingError` on any name but `blob` and `tree`, and as
    /// `put_object` does.
    pub fn put(&mut self, kind: &str, payload: &[u8]) -> (out: Result<[u8; 20], StoreError>)
        requires
            storable(payload@.len()),
        ensures
            match ObjectKind::named(kind@) {
                None => out matches Err(e) && e == StoreError::EncodingError && final(self)@
                    == old(self)@,
                Some(k) => match zlib_deflated(canonical_form(k, payload@)) {
                    Some(stream) => out matches Ok(hash) && hash@ == sha1_of(
                        canonical_form(k, payload@),
                    ) && final(self)@ == put_if_absent(old(self)@, hash@, stream)
                        && zlib_inflated(stream) == Some(canonical_form(k, payload@)),
                    None => out matches Err(e) && e == StoreError::CompressionFailed
                        && final(self)@ == old(self)@,
                },
            },
    {
        match ObjectKind::from_name(kind) {
            Some(k) => self.put_object(k, payload),
            None => Err(StoreError::EncodingError),
        }
    }

    /// The canonical form of the object that `digest` names. Fails with
    /// `InvalidDigest` where `digest` is not 40 hexadecimal digits, with
    /// `ObjectNotFound` where nothing is kept under it, with `CorruptStream`
    /// where what is kept is no zlib stream, and with `CorruptObject` where
    /// the stream does not hold an object.
    pub fn get(&self, digest: &str) -> (out: Result<Vec<u8>, StoreError>)
        ensures
            match fetched(self@, digest@) {
                Ok(bytes) => out matches Ok(got) && got@ == bytes,
                Err(e) => out matches Err(got) && got == e,
            },
    {
        let hash = match parse_digest(digest) {
            Ok(hash) => hash,
            Err(e) => {
                return Err(e);
            },
        };
        let stream = match self.stored(&hash) {
            Some(stream) => stream,
            None => {
                return Err(StoreError::ObjectNotFound);
            },
        };
        let bytes = match decompress(stream.as_slice()) {
            Ok(bytes) => bytes,
            Err(e) => {
                return Err(e);
            },
        };
        match decode(bytes.as_slice()) {
            Ok(_) => Ok(bytes),
            Err(e) => Err(e),
        }
    }

    /// The content of the blob that `digest` names, as it was stored. Fails
    /// as `get` does, and with `WrongObjectKind` where the object is a
    /// tree.
    pub fn read_blob(&self, digest: &str) -> (out: Result<Vec<u8>, StoreError>)
        ensures
            match blob_in(self@, digest@) {
                Ok(payload) => out matches Ok(got) && got@ == payload,
                Err(e) => out matches Err(got) && got == e,
            },
    {
        let bytes = match self.get(digest) {
            Ok(bytes) => bytes,
            Err(e) => {
                return Err(e);
            },
        };
        expect_kind(bytes.as_slice(), ObjectKind::Blob)
    }

    /// The entries of the tree that `digest` names, in the order in which
    /// the tree holds them. Fails as `get` does, with `WrongObjectKind`
    /// where the object is a blob, and with `CorruptObject` where the
    /// payload is not a sequence of whole entries.
    pub fn read_tree_entries(&self, digest: &str) -> (out: Result<Vec<Object>, StoreError>)
        ensures
            match tree_in(self@, digest@) {
                Ok(entries) => out matches Ok(got) && entry_views(got@) == entries,
                Err(e) => out matches Err(got) && got == e,
            },
    {
        let bytes = match self.get(digest) {
            Ok(bytes) => bytes,
            Err(e) => {
                return Err(e);
            },
        };
        tree_entries(bytes.as_slice())
    }
}

/// Storing under a digest a second time changes nothing, whatever is
/// offered.
pub proof fn lemma_second_put_is_dropped(
    store: Map<Seq<u8>, Seq<u8>>,
    hash: Seq<u8>,
    first: Seq<u8>,
    second: Seq<u8>,
)
    ensures
        put_if_absent(put_if_absent(store, hash, first), hash, second) == put_if_absent(
            store,
            hash,
            first,
        ),
{
}

/// An object that was stored under a digest that the store did not hold is
/// read back as it was: `get` gives its canonical form.
pub proof fn lemma_get_after_put(
    store: Map<Seq<u8>, Seq<u8>>,
    kind: ObjectKind,
    payload: Seq<u8>,
    hash: Seq<u8>,
    stream: Seq<u8>,
)
    requires
        payload.len() <= u64::MAX,
        hash.len() == 20,
        !store.contains_key(hash),
        zlib_inflated(stream) == Some(canonical_form(kind, payload)),
    ensures
        fetched(put_if_absent(store, hash, stream), hex_of(hash)) == Ok::<Seq<u8>, StoreError>(
            canonical_form(kind, payload),
        ),
        payload_as(canonical_form(kind, payload), kind) == Ok::<Seq<u8>, StoreError>(payload),
{
    lemma_parse_inverts_hex(hash);
    lemma_decode_inverts_encode(kind, payload);
}

/// A tree of valid entries that was stored is read back entry by entry.
pub proof fn lemma_entries_after_put(entries: Seq<ObjectView>)
    requires
        tree_payload(entries).len() <= u64::MAX,
        forall|i: int| 0 <= i < entries.len() ==> valid_entry(#[trigger] entries[i]),
    ensures
        entries_of(canonical_form(ObjectKind::Tree, tree_payload(entries))) == Ok::<
            Seq<ObjectView>,
            StoreError,
        >(entries),
{
    lemma_decode_inverts_encode(ObjectKind::Tree, tree_payload(entries));
    lemma_parse_inverts_payload(entries);
}

/// The store after the objects were put into it one by one, up to the first
/// that the compressor gave up on, and whether it took them all.
pub open spec fn put_all(store: Map<Seq<u8>, Seq<u8>>, objects: Seq<(ObjectKind, Seq<u8>)>) -> (
    Map<Seq<u8>, Seq<u8>>,
    bool,
)
    decreases objects.len(),
{
    if objects.len() == 0 {
        (store, true)
    } else {
        let (before, whole) = put_all(store, objects.drop_last());
        let form = canonical_form(objects.last().0, objects.last().1);
        if !whole {
            (before, false)
        } else {
            match zlib_deflated(form) {
                Some(stream) => (put_if_absent(before, sha1_of(form), stream), true),
                None => (before, false),
            }
        }
    }
}

/// Putting one object is `put_object`.
pub proof fn lemma_put_one(store: Map<Seq<u8>, Seq<u8>>, kind: ObjectKind, payload: Seq<u8>)
    ensures
        put_all(store, seq![(kind, payload)]) == match zlib_deflated(
            canonical_form(kind, payload),
        ) {
            Some(stream) => (
                put_if_absent(store, sha1_of(canonical_form(kind, payload)), stream),
                true,
            ),
            None => (store, false),
        },
{
    let one = seq![(kind, payload)];
    assert(one.drop_last() =~= Seq::<(ObjectKind, Seq<u8>)>::empty());
    assert(one.last() == (kind, payload));
    reveal_with_fuel(put_all, 2);
}

/// Putting an object a second time changes nothing: the store is as after
/// the first time, and the digest is the same.
pub proof fn lemma_put_twice(store: Map<Seq<u8>, Seq<u8>>, kind: ObjectKind, payload: Seq<u8>)
    ensures
        put_all(store, seq![(kind, payload), (kind, payload)]) == put_all(
            store,
            seq![(kind, payload)],
        ),
{
    let once = seq![(kind, payload)];
    let twice = seq![(kind, payload), (kind, payload)];
    assert(twice =~= once + once);
    lemma_put_all_concat(store, once, once);
    lemma_put_one(store, kind, payload);
    lemma_put_one(put_all(store, once).0, kind, payload);
}

/// Putting two runs of objects is putting the first and then, if the store
/// took all of it, the second.
pub proof fn lemma_put_all_concat(
    store: Map<Seq<u8>, Seq<u8>>,
    first: Seq<(ObjectKind, Seq<u8>)>,
    second: Seq<(ObjectKind, Seq<u8>)>,
)
    ensures
        put_all(store, first + second) == if put_all(store, first).1 {
            put_all(put_all(store, first).0, second)
        } else {
            put_all(store, first)
        },
    decreases second.len(),
{
    if second.len() == 0 {
        assert(first + second =~= first);
    } else {
        lemma_put_all_concat(store, first, second.drop_last());
        assert((first + second).drop_last() =~= first + second.drop_last());
        assert((first + second).last() == second.last());
    }
}

} // verus!
