//! Tree entries and the payload of a tree object: for each entry its mode in
//! ASCII, a space, its name, a NUL and the 20 bytes of its digest, one entry
//! after the other with nothing between them.

use crate::bytes::{copy_range, extend_bytes, find_byte, lemma_find_byte_is, position_of};
use crate::error::StoreError;
use vstd::prelude::*;
use vstd::slice::slice_subrange;

verus! {

/// What an entry of a tree is: the modes that a tree is written with.
#[derive(Clone, Copy, Debug, PartialEq, Eq, Structural)]
pub enum Mode {
    /// `100644`: a regular file.
    Regular,
    /// `100755`: an executable file.
    Executable,
    /// `120000`: a symbolic link.
    Symlink,
    /// `40000`: a directory.
    Directory,
}

impl Mode {
    /// The mode in ASCII, as a tree payload holds it.
    pub open spec fn token(self) -> Seq<u8> {
        match self {
            Mode::Regular => seq![49u8, 48u8, 48u8, 54u8, 52u8, 52u8],
            Mode::Executable => seq![49u8, 48u8, 48u8, 55u8, 53u8, 53u8],
            Mode::Symlink => seq![49u8, 50u8, 48u8, 48u8, 48u8, 48u8],
            Mode::Directory => seq![52u8, 48u8, 48u8, 48u8, 48u8],
        }
    }

    /// The mode that a token spells.
    pub open spec fn of_token(token: Seq<u8>) -> Option<Mode> {
        if token =~= Mode::Regular.token() {
            Some(Mode::Regular)
        } else if token =~= Mode::Executable.token() {
            Some(Mode::Executable)
        } else if token =~= Mode::Symlink.token() {
            Some(Mode::Symlink)
        } else if token =~= Mode::Directory.token() {
            Some(Mode::Directory)
        } else {
            None
        }
    }

    /// A token spells the mode that it is the token of, and holds neither a
    /// space nor a NUL.
    pub proof fn lemma_token(self)
        ensures
            Mode::of_token(self.token()) == Some(self),
            5 <= self.token().len() <= 6,
            forall|i: int| 0 <= i < self.token().len() ==> 48 <= #[trigger] self.token()[i] <= 55,
    {
        assert(Mode::Regular.token()[3] != Mode::Executable.token()[3]);
        assert(Mode::Regular.token()[1] != Mode::Symlink.token()[1]);
        assert(Mode::Executable.token()[1] != Mode::Symlink.token()[1]);
        assert(Mode::Directory.token().len() == 5);
        assert(Mode::Regular.token().len() == 6);
        assert(Mode::Executable.token().len() == 6);
        assert(Mode::Symlink.token().len() == 6);
    }

    /// Writes the mode in ASCII.
    pub fn token_bytes(&self) -> (token: Vec<u8>)
        ensures
            token@ == self.token(),
    {
        let mut token: Vec<u8> = Vec::new();
        match self {
            Mode::Regular => {
                token.push(49);
                token.push(48);
                token.push(48);
                token.push(54);
                token.push(52);
                token.push(52);
            },
            Mode::Executable => {
                token.push(49);
                token.push(48);
                token.push(48);
                token.push(55);
                token.push(53);
                token.push(53);
            },
            Mode::Symlink => {
                token.push(49);
                token.push(50);
                token.push(48);
                token.push(48);
                token.push(48);
                token.push(48);
            },
            Mode::Directory => {
                token.push(52);
                token.push(48);
                token.push(48);
                token.push(48);
                token.push(48);
            },
        }
        assert(token@ =~= self.token());
        token
    }

    /// Reads a mode from its token. `None` for any other bytes.
    pub fn from_token(token: &[u8]) -> (mode: Option<Mode>)
        ensures
            mode == Mode::of_token(token@),
    {
        if token.len() == 5 {
            if token[0] == 52 && token[1] == 48 && token[2] == 48 && token[3] == 48 && token[4]
                == 48 {
                assert(token@ =~= Mode::Directory.token());
                return Some(Mode::Directory);
            }
            return None;
        }
        if token.len() != 6 || token[0] != 49 || token[2] != 48 {
            proof {
                if token.len() == 6 {
                    assert(Mode::Regular.token()[0] == 49 && Mode::Regular.token()[2] == 48);
                    assert(Mode::Executable.token()[0] == 49 && Mode::Executable.token()[2] == 48);
                    assert(Mode::Symlink.token()[0] == 49 && Mode::Symlink.token()[2] == 48);
                }
            }
            return None;
        }
        if token[1] == 48 && token[3] == 54 && token[4] == 52 && token[5] == 52 {
            assert(token@ =~= Mode::Regular.token());
            Some(Mode::Regular)
        } else if token[1] == 48 && token[3] == 55 && token[4] == 53 && token[5] == 53 {
            assert(token@ =~= Mode::Executable.token());
            Some(Mode::Executable)
        } else if token[1] == 50 && token[3] == 48 && token[4] == 48 && token[5] == 48 {
            assert(token@ =~= Mode::Symlink.token());
            Some(Mode::Symlink)
        } else {
            proof {
                let r = Mode::Regular.token();
                let x = Mode::Executable.token();
                let s = Mode::Symlink.token();
                assert(r[1] == 48 && r[3] == 54 && r[4] == 52 && r[5] == 52);
                assert(x[1] == 48 && x[3] == 55 && x[4] == 53 && x[5] == 53);
                assert(s[1] == 50 && s[3] == 48 && s[4] == 48 && s[5] == 48);
            }
            None
        }
    }

    /// Whether the mode is that of a directory.
    pub fn is_directory(&self) -> (directory: bool)
        ensures
            directory == (*self == Mode::Directory),
    {
        match self {
            Mode::Directory => true,
            _ => false,
        }
    }
}

/// One entry of a tree: a named reference to a stored object.
#[derive(Clone, Debug, PartialEq, Eq)]
pub struct Object {
    /// What the entry is.
    pub mode: Mode,
    /// The entry's name in its directory, as raw bytes.
    pub name: Vec<u8>,
    /// The digest of the blob or tree that the entry stands for.
    pub hash: [u8; 20],
}

/// An entry as a plain value.
pub struct ObjectView {
    pub mode: Mode,
    pub name: Seq<u8>,
    pub hash: Seq<u8>,
}

impl View for Object {
    type V = ObjectView;

    open spec fn view(&self) -> ObjectView {
        ObjectView { mode: self.mode, name: self.name@, hash: self.hash@ }
    }
}

/// The entries of a vector as plain values.
pub open spec fn entry_views(entries: Seq<Object>) -> Seq<ObjectView> {
    Seq::new(entries.len(), |i: int| entries[i]@)
}

/// Whether an entry can stand in a tree: its name holds neither a NUL nor a
/// path separator, and its digest has 20 bytes.
pub open spec fn valid_entry(e: ObjectView) -> bool {
    &&& e.hash.len() == 20
    &&& forall|i: int| 0 <= i < e.name.len() ==> #[trigger] e.name[i] != 0 && e.name[i] != 47
}

/// The bytes of one entry in a tree payload.
pub open spec fn entry_bytes(e: ObjectView) -> Seq<u8> {
    e.mode.token() + seq![32u8] + e.name + seq![0u8] + e.hash
}

/// The payload of a tree with the given entries, in the given order.
pub open spec fn tree_payload(entries: Seq<ObjectView>) -> Seq<u8>
    decreases entries.len(),
{
    if entries.len() == 0 {
        Seq::empty()
    } else {
        entry_bytes(entries.first()) + tree_payload(entries.drop_first())
    }
}

/// One more entry at the end of a tree adds its bytes at the end of the
/// payload.
pub proof fn lemma_payload_push(entries: Seq<ObjectView>, e: ObjectView)
    ensures
        tree_payload(entries.push(e)) == tree_payload(entries) + entry_bytes(e),
    decreases entries.len(),
{
    let longer = entries.push(e);
    if entries.len() == 0 {
        assert(longer.drop_first() =~= Seq::<ObjectView>::empty());
        assert(longer.first() == e);
        assert(tree_payload(longer.drop_first()) =~= Seq::<u8>::empty());
        assert(tree_payload(longer) =~= entry_bytes(e));
        assert(tree_payload(entries) + entry_bytes(e) =~= entry_bytes(e));
    } else {
        lemma_payload_push(entries.drop_first(), e);
        assert(longer.drop_first() =~= entries.drop_first().push(e));
        assert(longer.first() == entries.first());
        assert(tree_payload(longer) =~= tree_payload(entries) + entry_bytes(e));
    }
}

impl Object {
    /// The bytes of the entry in a tree payload: the mode, a space, the
    /// name, a NUL, the digest.
    pub fn serialize(&self) -> (out: Vec<u8>)
        ensures
            out@ == entry_bytes(self@),
    {
        let mut out = self.mode.token_bytes();
        out.push(32);
        extend_bytes(&mut out, self.name.as_slice());
        out.push(0);
        extend_bytes(&mut out, self.hash.as_slice());
        out
    }
}

/// Writes the payload of a tree with the given entries, in the given order.
pub fn encode_tree(entries: &Vec<Object>) -> (out: Vec<u8>)
    ensures
        out@ == tree_payload(entry_views(entries@)),
{
    let ghost views = entry_views(entries@);
    let mut out: Vec<u8> = Vec::new();
    let mut i: usize = 0;
    while i < entries.len()
        invariant
            0 <= i <= entries.len(),
            views == entry_views(entries@),
            out@ == tree_payload(views.take(i as int)),
        decreases entries.len() - i,
    {
        let bytes = entries[i].serialize();
        proof {
            lemma_payload_push(views.take(i as int), views[i as int]);
            assert(views.take(i + 1) =~= views.take(i as int).push(views[i as int]));
        }
        extend_bytes(&mut out, bytes.as_slice());
        i = i + 1;
    }
    proof {
        assert(views.take(entries.len() as int) =~= views);
    }
    out
}

/// The entry at the start of a tree payload, and how many bytes it takes.
///
/// The entry runs up to the first NUL and 20 bytes beyond it. What stands
/// before the NUL is a mode token, a space and the name; the name may hold
/// further spaces.
pub open spec fn first_entry(payload: Seq<u8>) -> Option<(ObjectView, int)> {
    let nul = find_byte(payload, 0, 0);
    if nul >= payload.len() || payload.len() - (nul + 1) < 20 {
        None
    } else {
        let head = payload.take(nul);
        let space = find_byte(head, 32, 0);
        if space >= head.len() {
            None
        } else {
            match Mode::of_token(head.take(space)) {
                None => None,
                Some(mode) => Some(
                    (
                        ObjectView {
                            mode,
                            name: head.skip(space + 1),
                            hash: payload.subrange(nul + 1, nul + 21),
                        },
                        nul + 21,
                    ),
                ),
            }
        }
    }
}

/// The entries that a tree payload holds, if it is a sequence of whole
/// entries. (An entry takes more than 20 bytes and no more than there are;
/// the bounds on `used` say so where the recursion needs it.)
pub open spec fn parsed_tree(payload: Seq<u8>) -> Option<Seq<ObjectView>>
    decreases payload.len(),
{
    if payload.len() == 0 {
        Some(Seq::empty())
    } else {
        match first_entry(payload) {
            None => None,
            Some((entry, used)) => if 0 < used <= payload.len() {
                match parsed_tree(payload.skip(used)) {
                    None => None,
                    Some(rest) => Some(seq![entry] + rest),
                }
            } else {
                None
            },
        }
    }
}

/// The bytes of a valid entry, with anything behind them, start with that
/// entry.
pub proof fn lemma_first_entry(e: ObjectView, rest: Seq<u8>)
    requires
        valid_entry(e),
    ensures
        first_entry(entry_bytes(e) + rest) == Some((e, entry_bytes(e).len() as int)),
        entry_bytes(e).len() > 0,
{
    let token = e.mode.token();
    let head = token + seq![32u8] + e.name;
    let payload = entry_bytes(e) + rest;
    e.mode.lemma_token();
    assert forall|j: int| 0 <= j < head.len() implies head[j] != 0 by {
        if j < token.len() {
            assert(head[j] == token[j]);
        } else if j > token.len() {
            assert(head[j] == e.name[j - token.len() - 1]);
        }
    }
    assert forall|j: int| 0 <= j < head.len() implies payload[j] == head[j] by {}
    assert(payload[head.len() as int] == 0);
    lemma_find_byte_is(payload, 0, 0, head.len() as int);
    assert(payload.take(head.len() as int) =~= head);
    assert forall|j: int| 0 <= j < token.len() implies head[j] != 32 by {
        assert(head[j] == token[j]);
    }
    lemma_find_byte_is(head, 32, 0, token.len() as int);
    assert(head.take(token.len() as int) =~= token);
    assert(head.skip(token.len() as int + 1) =~= e.name);
    let nul = head.len() as int;
    assert(payload.subrange(nul + 1, nul + 21) =~= e.hash);
    assert(entry_bytes(e).len() == nul + 21);
}

/// Parsing the payload of a tree of valid entries gives the entries back.
pub proof fn lemma_parse_inverts_payload(entries: Seq<ObjectView>)
    requires
        forall|i: int| 0 <= i < entries.len() ==> valid_entry(#[trigger] entries[i]),
    ensures
        parsed_tree(tree_payload(entries)) == Some(entries),
    decreases entries.len(),
{
    if entries.len() > 0 {
        let e = entries.first();
        let rest = tree_payload(entries.drop_first());
        lemma_first_entry(e, rest);
        lemma_parse_inverts_payload(entries.drop_first());
        let payload = tree_payload(entries);
        assert(payload.skip(entry_bytes(e).len() as int) =~= rest);
        assert(seq![e] + entries.drop_first() =~= entries);
    }
}

/// Copies the 20 bytes of a digest out of `src`, starting at `from`.
pub fn digest_at(src: &[u8], from: usize) -> (hash: [u8; 20])
    requires
        from + 20 <= src.len(),
    ensures
        hash@ == src@.subrange(from as int, from + 20),
{
    let mut hash: [u8; 20] = [0u8; 20];
    let mut i: usize = 0;
    while i < 20
        invariant
            0 <= i <= 20,
            from + 20 <= src.len(),
            forall|j: int| 0 <= j < i ==> #[trigger] hash@[j] == src@[from + j],
        decreases 20 - i,
    {
        hash[i] = src[from + i];
        i = i + 1;
    }
    assert(hash@ =~= src@.subrange(from as int, from + 20));
    hash
}

/// With `found` in front of them: the entries of the rest of a payload.
pub open spec fn after(found: Seq<ObjectView>, rest: Option<Seq<ObjectView>>) -> Option<
    Seq<ObjectView>,
> {
    match rest {
        Some(entries) => Some(found + entries),
        None => None,
    }
}

/// Reads the entries of a tree payload, in the order in which it holds them.
/// Fails with `CorruptObject` where the payload ends within an entry, or an
/// entry has no space before its NUL or a mode that no tree is written with.
pub fn parse_tree(payload: &[u8]) -> (out: Result<Vec<Object>, StoreError>)
    ensures
        match parsed_tree(payload@) {
            Some(entries) => out matches Ok(read) && entry_views(read@) == entries,
            None => out matches Err(e) && e == StoreError::CorruptObject,
        },
{
    let mut read: Vec<Object> = Vec::new();
    let mut pos: usize = 0;
    assert(payload@.skip(0) =~= payload@);
    assert(entry_views(read@) =~= Seq::<ObjectView>::empty());
    assert(after(Seq::<ObjectView>::empty(), parsed_tree(payload@)) =~= parsed_tree(payload@)) by {
        if parsed_tree(payload@) is Some {
            assert(Seq::<ObjectView>::empty() + parsed_tree(payload@)->0 =~= parsed_tree(
                payload@,
            )->0);
        }
    }
    while pos < payload.len()
        invariant
            0 <= pos <= payload.len(),
            parsed_tree(payload@) == after(
                entry_views(read@),
                parsed_tree(payload@.skip(pos as int)),
            ),
        decreases payload.len() - pos,
    {
        let rest = slice_subrange(payload, pos, payload.len());
        assert(rest@ =~= payload@.skip(pos as int));
        let nul = position_of(rest, 0, 0, rest.len());
        if nul >= rest.len() || rest.len() - (nul + 1) < 20 {
            return Err(StoreError::CorruptObject);
        }
        let head = slice_subrange(rest, 0, nul);
        assert(head@ =~= rest@.take(nul as int));
        let space = position_of(head, 32, 0, head.len());
        if space >= head.len() {
            return Err(StoreError::CorruptObject);
        }
        let token = slice_subrange(head, 0, space);
        assert(token@ =~= head@.take(space as int));
        let mode = match Mode::from_token(token) {
            Some(mode) => mode,
            None => {
                return Err(StoreError::CorruptObject);
            },
        };
        let name = copy_range(head, space + 1, head.len());
        assert(name@ =~= head@.skip(space + 1));
        let hash = digest_at(rest, nul + 1);
        let entry = Object { mode, name, hash };
        proof {
            let used = nul + 21;
            let found = entry_views(read@);
            let tail = parsed_tree(rest@.skip(used));
            assert(first_entry(rest@) == Some((entry@, used as int)));
            assert(rest@.skip(used) =~= payload@.skip(pos + used));
            assert(parsed_tree(rest@) == after(seq![entry@], tail));
            assert(entry_views(read@.push(entry)) =~= found.push(entry@));
            if tail is Some {
                assert(found + (seq![entry@] + tail->0) =~= found.push(entry@) + tail->0);
            }
        }
        read.push(entry);
        pos = pos + nul + 21;
    }
    proof {
        let found = entry_views(read@);
        assert(payload@.skip(pos as int) =~= Seq::<u8>::empty());
        assert(found + Seq::<ObjectView>::empty() =~= found);
    }
    Ok(read)
}

} // verus!
