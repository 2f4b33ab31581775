//! A directory tree held in memory: what a walk sees of a file system, as
//! a value.

use vstd::prelude::*;
use vstd::slice::slice_to_vec;
use crate::frame::{DirEntry, EntryKind, Listed};
use crate::name::same;

verus! {

/// A directory: its entries, in the order in which a listing returns them.
#[derive(Debug)]
pub struct Snapshot {
    pub entries: Vec<Node>,
}

/// One entry of a directory, with what lies behind it.
#[derive(Debug)]
pub struct Node {
    pub name: Vec<u8>,
    pub item: Item,
}

/// What lies behind a directory entry.
#[derive(Debug)]
pub enum Item {
    /// A regular file with the bytes that a read returns, or `None` where
    /// the file cannot be read.
    File(Option<Vec<u8>>),
    /// A directory.
    Directory(Snapshot),
    /// Anything else.
    Other,
}

/// The kind under which an item is listed.
pub open spec fn kind_of(item: Item) -> EntryKind {
    match item {
        Item::File(_) => EntryKind::File,
        Item::Directory(_) => EntryKind::Directory,
        Item::Other => EntryKind::Other,
    }
}

/// The listing entry of a node.
pub open spec fn listed(node: Node) -> Listed {
    Listed { name: node.name@, kind: kind_of(node.item) }
}

/// The listing of a directory with the entries `nodes`.
pub open spec fn listing(nodes: Seq<Node>) -> Seq<Listed> {
    nodes.map_values(|n: Node| listed(n))
}

/// The first directory called `name` among `nodes`.
pub open spec fn subdirectory(nodes: Seq<Node>, name: Seq<u8>) -> Option<Snapshot>
    decreases nodes.len(),
{
    if nodes.len() == 0 {
        None
    } else {
        match nodes[0].item {
            Item::Directory(sub) if nodes[0].name@ == name => Some(sub),
            _ => subdirectory(nodes.drop_first(), name),
        }
    }
}

/// What reading the first regular file called `name` among `nodes` yields:
/// its bytes, or nothing where the file cannot be read or is not there.
pub open spec fn reading(nodes: Seq<Node>, name: Seq<u8>) -> Option<Seq<u8>>
    decreases nodes.len(),
{
    if nodes.len() == 0 {
        None
    } else {
        match nodes[0].item {
            Item::File(data) if nodes[0].name@ == name => match data {
                Some(bytes) => Some(bytes@),
                None => None,
            },
            _ => reading(nodes.drop_first(), name),
        }
    }
}

/// The number of directories among `nodes` and below them.
pub open spec fn weight(nodes: Seq<Node>) -> nat
    decreases nodes,
{
    if nodes.len() == 0 {
        0
    } else {
        weight(nodes.drop_first()) + match nodes[0].item {
            Item::Directory(sub) => 1 + weight(sub.entries@),
            _ => 0,
        }
    }
}

/// A directory found among `nodes` holds fewer directories than `nodes`.
pub proof fn subdirectory_is_lighter(nodes: Seq<Node>, name: Seq<u8>)
    requires
        subdirectory(nodes, name) is Some,
    ensures
        weight(subdirectory(nodes, name)->0.entries@) < weight(nodes),
    decreases nodes.len(),
{
    match nodes[0].item {
        Item::Directory(sub) if nodes[0].name@ == name => {},
        _ => {
            subdirectory_is_lighter(nodes.drop_first(), name);
        },
    }
}

impl Snapshot {
    /// Lists the directory: the name and kind of each entry, in order.
    pub fn list(&self) -> (entries: Vec<DirEntry>)
        ensures
            entries.deep_view() == listing(self.entries@),
    {
        let mut entries: Vec<DirEntry> = Vec::new();
        let mut i: usize = 0;
        while i < self.entries.len()
            invariant
                i <= self.entries.len(),
                entries.deep_view() == listing(self.entries@.take(i as int)),
            decreases self.entries.len() - i,
        {
            let node = &self.entries[i];
            let kind = match &node.item {
                Item::File(_) => EntryKind::File,
                Item::Directory(_) => EntryKind::Directory,
                Item::Other => EntryKind::Other,
            };
            let ghost before = entries;
            let entry = DirEntry { name: slice_to_vec(node.name.as_slice()), kind };
            entries.push(entry);
            proof {
                assert(self.entries@.take(i + 1) =~= self.entries@.take(i as int).push(*node));
                assert(entry.deep_view() == listed(*node));
                assert(entries.deep_view() =~= before.deep_view().push(entry.deep_view()));
                assert(listing(self.entries@.take(i + 1)) =~= listing(
                    self.entries@.take(i as int),
                ).push(listed(*node)));
            }
            i += 1;
        }
        proof {
            assert(self.entries@.take(i as int) =~= self.entries@);
        }
        entries
    }

    /// Reads the first regular file called `name` in this directory.
    pub fn read(&self, name: &[u8]) -> (data: Option<Vec<u8>>)
        ensures
            data is Some == reading(self.entries@, name@) is Some,
            data is Some ==> data->0@ == reading(self.entries@, name@)->0,
    {
        let mut i: usize = 0;
        assert(self.entries@.skip(0) =~= self.entries@);
        while i < self.entries.len()
            invariant
                i <= self.entries.len(),
                reading(self.entries@, name@) == reading(self.entries@.skip(i as int), name@),
            decreases self.entries.len() - i,
        {
            let node = &self.entries[i];
            proof {
                let rest = self.entries@.skip(i as int);
                assert(rest[0] == *node);
                assert(rest.drop_first() =~= self.entries@.skip(i + 1));
            }
            match &node.item {
                Item::File(data) => {
                    if same(node.name.as_slice(), name) {
                        return match data {
                            Some(bytes) => Some(slice_to_vec(bytes.as_slice())),
                            None => None,
                        };
                    }
                },
                _ => {},
            }
            i += 1;
        }
        None
    }

    /// Finds the first directory called `name` in this directory.
    pub fn find_directory(&self, name: &[u8]) -> (found: Option<&Snapshot>)
        ensures
            found is Some == subdirectory(self.entries@, name@) is Some,
            found is Some ==> *found->0 == subdirectory(self.entries@, name@)->0,
    {
        let mut i: usize = 0;
        assert(self.entries@.skip(0) =~= self.entries@);
        while i < self.entries.len()
            invariant
                i <= self.entries.len(),
                subdirectory(self.entries@, name@) == subdirectory(
                    self.entries@.skip(i as int),
                    name@,
                ),
            decreases self.entries.len() - i,
        {
            let node = &self.entries[i];
            proof {
                let rest = self.entries@.skip(i as int);
                assert(rest[0] == *node);
                assert(rest.drop_first() =~= self.entries@.skip(i + 1));
            }
            match &node.item {
                Item::Directory(sub) => {
                    if same(node.name.as_slice(), name) {
                        return Some(sub);
                    }
                },
                _ => {},
            }
            i += 1;
        }
        None
    }
}

} // verus!
