//! A directory as plain values: what a caller has read from a working
//! directory, and what a tree is built from.

use crate::bytes::bytes_equal;
use crate::store::{is_storable, storable};
use vstd::prelude::*;

verus! {

/// What a directory holds under one name.
pub enum Node {
    /// A regular file and its content.
    File { content: Vec<u8>, executable: bool },
    /// A symbolic link and the path it points to.
    Symlink { target: Vec<u8> },
    /// A directory and what it holds.
    Directory(Directory),
}

/// One name in a directory, and what stands under it.
pub struct DirEntry {
    pub name: Vec<u8>,
    pub node: Node,
}

/// The entries of a directory, in the order in which they were added.
pub struct Directory {
    entries: Vec<DirEntry>,
    weight: u64,
}

/// A node as a plain value.
pub enum NodeView {
    File { content: Seq<u8>, executable: bool },
    Symlink { target: Seq<u8> },
    Directory { entries: Seq<EntryView> },
}

/// An entry of a directory as a plain value.
pub struct EntryView {
    pub name: Seq<u8>,
    pub node: NodeView,
}

/// The node as a plain value.
pub open spec fn node_model(node: Node) -> NodeView
    decreases node,
{
    match node {
        Node::File { content, executable } => NodeView::File { content: content@, executable },
        Node::Symlink { target } => NodeView::Symlink { target: target@ },
        Node::Directory(dir) => NodeView::Directory { entries: dir_model(dir) },
    }
}

/// The entry as a plain value.
pub open spec fn entry_model(entry: DirEntry) -> EntryView
    decreases entry,
{
    EntryView { name: entry.name@, node: node_model(entry.node) }
}

/// The entries as plain values.
pub open spec fn entries_model(entries: Seq<DirEntry>) -> Seq<EntryView>
    decreases entries,
{
    if entries.len() == 0 {
        Seq::empty()
    } else {
        entries_model(entries.drop_last()).push(entry_model(entries.last()))
    }
}

/// The directory as plain values.
pub closed spec fn dir_model(dir: Directory) -> Seq<EntryView>
    decreases dir,
{
    entries_model(dir.entries@)
}

impl View for Node {
    type V = NodeView;

    open spec fn view(&self) -> NodeView {
        node_model(*self)
    }
}

impl View for DirEntry {
    type V = EntryView;

    open spec fn view(&self) -> EntryView {
        entry_model(*self)
    }
}

impl View for Directory {
    type V = Seq<EntryView>;

    open spec fn view(&self) -> Seq<EntryView> {
        dir_model(*self)
    }
}

/// The name of the store's own directory, `.git`. What stands under it is
/// never part of a tree.
pub open spec fn reserved_name() -> Seq<u8> {
    seq![46u8, 103u8, 105u8, 116u8]
}

/// Whether `name` can be the name of an entry: it is not empty and holds
/// neither a NUL nor a path separator.
pub open spec fn valid_name(name: Seq<u8>) -> bool {
    name.len() > 0 && forall|i: int| 0 <= i < name.len() ==> #[trigger] name[i] != 0 && name[i] != 47
}

/// A bound on the payload of the tree of a directory: for each entry its
/// name and 28 bytes more, which is room for a mode, a space, a NUL and a
/// digest.
pub open spec fn names_weight(entries: Seq<EntryView>) -> nat
    decreases entries.len(),
{
    if entries.len() == 0 {
        0
    } else {
        names_weight(entries.drop_last()) + entries.last().name.len() + 28
    }
}

/// Whether what a node holds itself is short enough to be stored as a blob.
pub open spec fn node_fits(node: NodeView) -> bool {
    match node {
        NodeView::File { content, executable } => storable(content.len()),
        NodeView::Symlink { target } => storable(target.len()),
        NodeView::Directory { entries } => true,
    }
}

/// What holds of every directory: its names are valid and differ from each
/// other, and its files, its links and its own tree are short enough to be
/// stored.
pub open spec fn well_formed(entries: Seq<EntryView>) -> bool {
    &&& forall|i: int| 0 <= i < entries.len() ==> valid_name((#[trigger] entries[i]).name)
    &&& forall|i: int, j: int|
        0 <= i < j < entries.len() ==> (#[trigger] entries[i]).name != (#[trigger] entries[j]).name
    &&& forall|i: int| 0 <= i < entries.len() ==> node_fits((#[trigger] entries[i]).node)
    &&& storable(names_weight(entries))
}

/// Why a directory does not take an entry.
#[derive(Clone, Copy, Debug, PartialEq, Eq, Structural)]
pub enum Rejected {
    /// The name is empty, or holds a NUL or a path separator.
    InvalidName,
    /// The directory has an entry of that name.
    DuplicateName,
    /// The content, or the directory with this entry, is too large to be
    /// hashed.
    TooLarge,
}

/// Why a directory of `entries` does not take `node` under `name`; `None`
/// where it does.
pub open spec fn rejection(entries: Seq<EntryView>, name: Seq<u8>, node: NodeView) -> Option<
    Rejected,
> {
    if !valid_name(name) {
        Some(Rejected::InvalidName)
    } else if exists|i: int| 0 <= i < entries.len() && (#[trigger] entries[i]).name == name {
        Some(Rejected::DuplicateName)
    } else if !node_fits(node) || !storable(names_weight(entries) + name.len() + 28) {
        Some(Rejected::TooLarge)
    } else {
        None
    }
}

/// The model of a sequence of entries holds the model of each, in order.
pub proof fn lemma_entries_model(entries: Seq<DirEntry>)
    ensures
        entries_model(entries).len() == entries.len(),
        forall|i: int|
            0 <= i < entries.len() ==> #[trigger] entries_model(entries)[i] == entry_model(
                entries[i],
            ),
    decreases entries.len(),
{
    if entries.len() > 0 {
        lemma_entries_model(entries.drop_last());
    }
}

/// The weight of a directory is that of its first entries and that of the
/// others.
pub proof fn lemma_weight_push(entries: Seq<EntryView>, e: EntryView)
    ensures
        names_weight(entries.push(e)) == names_weight(entries) + e.name.len() + 28,
{
    assert(entries.push(e).drop_last() =~= entries);
}

/// Whether `name` is the reserved name.
pub fn is_reserved_name(name: &[u8]) -> (reserved: bool)
    ensures
        reserved == (name@ == reserved_name()),
{
    if name.len() == 4 && name[0] == 46 && name[1] == 103 && name[2] == 105 && name[3] == 116 {
        assert(name@ =~= reserved_name());
        true
    } else {
        false
    }
}

/// Whether `name` can be the name of an entry.
pub fn is_valid_name(name: &[u8]) -> (valid: bool)
    ensures
        valid == valid_name(name@),
{
    if name.len() == 0 {
        return false;
    }
    let mut i: usize = 0;
    while i < name.len()
        invariant
            0 <= i <= name.len(),
            forall|j: int| 0 <= j < i ==> #[trigger] name@[j] != 0 && name@[j] != 47,
        decreases name.len() - i,
    {
        if name[i] == 0 || name[i] == 47 {
            return false;
        }
        i = i + 1;
    }
    true
}

impl Node {
    /// Whether what the node holds itself is short enough to be stored.
    pub fn fits(&self) -> (fits: bool)
        ensures
            fits == node_fits(self@),
    {
        match self {
            Node::File { content, executable } => is_storable(content.len()),
            Node::Symlink { target } => is_storable(target.len()),
            Node::Directory(_) => true,
        }
    }
}

impl Directory {
    /// Every directory is well formed, and knows its weight.
    #[verifier::type_invariant]
    spec fn sound(self) -> bool {
        well_formed(dir_model(self)) && self.weight == names_weight(dir_model(self))
    }

    /// A directory that holds nothing.
    pub fn new() -> (dir: Directory)
        ensures
            dir@ == Seq::<EntryView>::empty(),
    {
        Directory { entries: Vec::new(), weight: 0 }
    }

    /// How many entries the directory has.
    pub fn len(&self) -> (n: usize)
        ensures
            n == self@.len(),
    {
        proof {
            lemma_entries_model(self.entries@);
        }
        self.entries.len()
    }

    /// The entries, in the order in which they were added. Every directory
    /// is well formed.
    pub fn entries(&self) -> (all: &Vec<DirEntry>)
        ensures
            entries_model(all@) == self@,
            well_formed(self@),
    {
        proof {
            use_type_invariant(self);
        }
        &self.entries
    }

    /// Whether the directory has an entry of the given name.
    pub fn has_name(&self, name: &[u8]) -> (found: bool)
        ensures
            found == exists|i: int| 0 <= i < self@.len() && (#[trigger] self@[i]).name == name@,
    {
        proof {
            lemma_entries_model(self.entries@);
        }
        let mut i: usize = 0;
        while i < self.entries.len()
            invariant
                0 <= i <= self.entries@.len(),
                self@ == entries_model(self.entries@),
                self@.len() == self.entries@.len(),
                forall|j: int| 0 <= j < i ==> (#[trigger] self@[j]).name != name@,
            decreases self.entries@.len() - i,
        {
            if bytes_equal(self.entries[i].name.as_slice(), name) {
                proof {
                    lemma_entries_model(self.entries@);
                    assert(self@[i as int].name == name@);
                }
                return true;
            }
            proof {
                lemma_entries_model(self.entries@);
            }
            i = i + 1;
        }
        false
    }

    /// Adds `node` under `name` behind the entries that are there, or says
    /// why not; the directory is then as it was.
    pub fn add(&mut self, name: Vec<u8>, node: Node) -> (out: Result<(), Rejected>)
        ensures
            match rejection(old(self)@, name@, node@) {
                None => out is Ok && final(self)@ == old(self)@.push(
                    EntryView { name: name@, node: node@ },
                ),
                Some(reason) => out == Err::<(), Rejected>(reason) && final(self)@ == old(self)@,
            },
    {
        proof {
            use_type_invariant(&*self);
        }
        if !is_valid_name(name.as_slice()) {
            return Err(Rejected::InvalidName);
        }
        if self.has_name(name.as_slice()) {
            return Err(Rejected::DuplicateName);
        }
        if !node.fits() || !is_storable(name.len()) {
            return Err(Rejected::TooLarge);
        }
        let weight: u64 = self.weight + name.len() as u64 + 28;
        if weight >= 0x2000_0000_0000_0000u64 - 32 {
            return Err(Rejected::TooLarge);
        }
        let ghost before = *self;
        let ghost added = EntryView { name: name@, node: node@ };
        let mut taken = Directory::new();
        std::mem::swap(&mut taken, self);
        let mut entries = taken.entries;
        entries.push(DirEntry { name, node });
        proof {
            let model = entries_model(entries@);
            assert(entries@.drop_last() =~= before.entries@);
            assert(entry_model(entries@.last()) == added);
            assert(model == before@.push(added));
            lemma_weight_push(before@, added);
            lemma_entries_model(before.entries@);
        }
        *self = Directory { entries, weight };
        Ok(())
    }
}

} // verus!
