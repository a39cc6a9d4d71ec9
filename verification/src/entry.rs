//! Directory entries as a listing reports them, and snapshots of whole trees.

use vstd::prelude::*;

verus! {

/// What kind of thing a directory entry is.
#[derive(Clone, Copy, Debug, PartialEq, Eq, Structural)]
pub enum EntryKind {
    RegularFile,
    Directory,
    Other,
}

/// The kind of an entry of which the system says whether it is a symbolic
/// link, a directory, a regular file. A symbolic link is `Other` whatever
/// it points to: a traversal enters only what is itself a directory, and
/// so cannot be led round in a circle.
pub open spec fn classify(is_symlink: bool, is_dir: bool, is_file: bool) -> EntryKind {
    if is_symlink {
        EntryKind::Other
    } else if is_dir {
        EntryKind::Directory
    } else if is_file {
        EntryKind::RegularFile
    } else {
        EntryKind::Other
    }
}

impl EntryKind {
    /// Classifies an entry by what the system says of it.
    pub fn of(is_symlink: bool, is_dir: bool, is_file: bool) -> (kind: EntryKind)
        ensures
            kind == classify(is_symlink, is_dir, is_file),
    {
        if is_symlink {
            EntryKind::Other
        } else if is_dir {
            EntryKind::Directory
        } else if is_file {
            EntryKind::RegularFile
        } else {
            EntryKind::Other
        }
    }
}

/// The metadata of one entry: its kind and its length in bytes.
#[derive(Clone, Copy, Debug, PartialEq, Eq, Structural)]
pub struct Metadata {
    pub kind: EntryKind,
    pub len: u64,
}

/// One entry of a directory listing.
#[derive(Debug, PartialEq, Eq)]
pub struct DirEntry {
    /// The entry's name as the directory stores it.
    pub name: String,
    /// The path by which the entry was reached.
    pub path: String,
    /// The entry's metadata, or the message of the failure to read it.
    pub metadata: Result<Metadata, String>,
}

/// The mathematical value of a `DirEntry`.
pub struct EntryView {
    pub name: Seq<char>,
    pub path: Seq<char>,
    pub metadata: Result<Metadata, Seq<char>>,
}

/// The mathematical value of an entry's metadata or of the failure to
/// read it.
pub open spec fn metadata_view(metadata: Result<Metadata, String>) -> Result<Metadata, Seq<char>> {
    match metadata {
        Ok(m) => Ok(m),
        Err(e) => Err(e@),
    }
}

impl View for DirEntry {
    type V = EntryView;

    open spec fn view(&self) -> EntryView {
        EntryView { name: self.name@, path: self.path@, metadata: metadata_view(self.metadata) }
    }
}

/// What is held of an entry that a listing gave. `name` and `path` are the
/// entry's name and path as text, and `unicode` says whether that text is
/// the name and path exactly; where it is not, because they are no valid
/// Unicode, the text does not lead back to the entry, and the entry counts
/// as one whose metadata cannot be read.
pub open spec fn listed_entry(
    name: Seq<char>,
    path: Seq<char>,
    unicode: bool,
    metadata: Result<Metadata, Seq<char>>,
) -> EntryView {
    EntryView {
        name,
        path,
        metadata: match metadata {
            Err(message) => Err(message),
            Ok(known) => if unicode {
                Ok(known)
            } else {
                Err(path + ": name is not valid Unicode"@)
            },
        },
    }
}

/// What is held of an entry that the listing of `directory` failed to
/// give: an entry without a name whose metadata cannot be read. Whether
/// that ends a traversal is for the traversal's policy to say.
pub open spec fn unread_entry(directory: Seq<char>, message: Seq<char>) -> EntryView {
    EntryView { name: Seq::empty(), path: directory, metadata: Err(message) }
}

impl DirEntry {
    /// The entry that a listing gave, from what the system says of it.
    pub fn listed(name: String, path: String, unicode: bool, metadata: Result<Metadata, String>) -> (entry:
        DirEntry)
        ensures
            entry@ == listed_entry(name@, path@, unicode, metadata_view(metadata)),
    {
        let metadata = match metadata {
            Err(message) => Err(message),
            Ok(known) => if unicode {
                Ok(known)
            } else {
                let mut message = path.clone();
                message.append(": name is not valid Unicode");
                Err(message)
            },
        };
        DirEntry { name, path, metadata }
    }

    /// The entry that stands for one which the listing of `directory`
    /// failed to give, with the failure's message.
    pub fn unread(directory: &str, message: String) -> (entry: DirEntry)
        ensures
            entry@ == unread_entry(directory@, message@),
    {
        DirEntry { name: String::new(), path: directory.to_owned(), metadata: Err(message) }
    }
}

impl Clone for DirEntry {
    fn clone(&self) -> (copy: DirEntry)
        ensures
            copy@ == self@,
    {
        DirEntry {
            name: self.name.clone(),
            path: self.path.clone(),
            metadata: match &self.metadata {
                Ok(m) => Ok(*m),
                Err(e) => Err(e.clone()),
            },
        }
    }
}

/// Whether the entry is a directory.
pub open spec fn is_directory(entry: EntryView) -> bool {
    entry.metadata matches Ok(metadata) && metadata.kind == EntryKind::Directory
}

/// Whether the entry is a regular file.
pub open spec fn is_regular_file(entry: EntryView) -> bool {
    entry.metadata matches Ok(metadata) && metadata.kind == EntryKind::RegularFile
}

/// An entry together with what lies under it.
#[derive(Debug, PartialEq, Eq)]
pub struct Node {
    pub entry: DirEntry,
    /// What listing the entry as a directory gave: its entries, or the
    /// message of the failure. Read only where the entry is a directory.
    pub listing: Listing,
}

/// What listing a directory gave: its entries with what lies under them, or
/// the message of the failure.
pub type Listing = Result<Vec<Node>, String>;

/// The mathematical value of a `Node`.
pub struct NodeView {
    pub entry: EntryView,
    pub listing: Result<Seq<NodeView>, Seq<char>>,
}

impl View for Node {
    type V = NodeView;

    open spec fn view(&self) -> NodeView
        decreases self,
    {
        NodeView { entry: self.entry@, listing: listing_view(self.listing) }
    }
}

/// The value of what listing a directory gave.
pub open spec fn listing_view(listing: Listing) -> Result<
    Seq<NodeView>,
    Seq<char>,
>
    decreases listing,
{
    match listing {
        Ok(nodes) => Ok(nodes_view(nodes@)),
        Err(message) => Err(message@),
    }
}

/// The values of the nodes of a listing, in order.
pub open spec fn nodes_view(nodes: Seq<Node>) -> Seq<NodeView>
    decreases nodes,
{
    if nodes.len() == 0 {
        Seq::empty()
    } else {
        seq![nodes[0]@] + nodes_view(nodes.drop_first())
    }
}

/// `nodes_view` keeps the length and takes the value of each node in place.
pub proof fn lemma_nodes_view(nodes: Seq<Node>)
    ensures
        nodes_view(nodes).len() == nodes.len(),
        forall|i: int| 0 <= i < nodes.len() ==> #[trigger] nodes_view(nodes)[i] == nodes[i]@,
    decreases nodes.len(),
{
    if nodes.len() > 0 {
        let rest = nodes.drop_first();
        lemma_nodes_view(rest);
        assert(nodes_view(nodes) == seq![nodes[0]@] + nodes_view(rest));
        assert forall|i: int| 0 <= i < nodes.len() implies #[trigger] nodes_view(nodes)[i]
            == nodes[i]@ by {
            if i > 0 {
                assert(nodes_view(rest)[i - 1] == rest[i - 1]@);
            }
        }
    }
}

} // verus!
