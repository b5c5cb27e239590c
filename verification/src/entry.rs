//! What one read of a directory reports about each of its entries.

use vstd::prelude::*;

verus! {

/// What an entry turned out to be once a symbolic link, if it is one, has
/// been followed.
#[derive(Clone, Copy, Debug, PartialEq, Eq, Structural)]
pub enum EntryKind {
    File,
    Directory,
    SymlinkToFile,
    SymlinkToDirectory,
    /// A broken or unreadable link, or an entry whose type could not be read.
    Unreadable,
}

impl EntryKind {
    pub open spec fn leads_to_dir(self) -> bool {
        self == EntryKind::Directory || self == EntryKind::SymlinkToDirectory
    }

    pub open spec fn leads_to_file(self) -> bool {
        self == EntryKind::File || self == EntryKind::SymlinkToFile
    }
}

/// Whether the entry is a directory, directly or through a link.
pub fn is_dir(kind: EntryKind) -> (yes: bool)
    ensures
        yes == kind.leads_to_dir(),
{
    match kind {
        EntryKind::Directory | EntryKind::SymlinkToDirectory => true,
        _ => false,
    }
}

/// Whether the entry is a regular file, directly or through a link.
pub fn is_file(kind: EntryKind) -> (yes: bool)
    ensures
        yes == kind.leads_to_file(),
{
    match kind {
        EntryKind::File | EntryKind::SymlinkToFile => true,
        _ => false,
    }
}

/// One entry of a directory listing.
#[derive(Debug)]
pub struct DirEntry {
    /// The entry's file name. Where the name is not valid UTF-8 this holds a
    /// readable rendering of it, and `decodable` is false.
    pub name: String,
    pub decodable: bool,
    pub kind: EntryKind,
}

impl DirEntry {
    /// An entry with a name that is valid UTF-8.
    pub fn new(name: &str, kind: EntryKind) -> (entry: DirEntry)
        ensures
            entry@ == (EntryView { name: name@, decodable: true, kind }),
    {
        DirEntry { name: name.to_owned(), decodable: true, kind }
    }

    /// An entry whose name is not valid UTF-8; `rendering` is what can be
    /// shown of the name.
    pub fn undecodable(rendering: &str, kind: EntryKind) -> (entry: DirEntry)
        ensures
            entry@ == (EntryView { name: rendering@, decodable: false, kind }),
    {
        DirEntry { name: rendering.to_owned(), decodable: false, kind }
    }
}

/// A directory entry as the contracts see it.
pub struct EntryView {
    pub name: Seq<char>,
    pub decodable: bool,
    pub kind: EntryKind,
}

impl View for DirEntry {
    type V = EntryView;

    open spec fn view(&self) -> EntryView {
        EntryView { name: self.name@, decodable: self.decodable, kind: self.kind }
    }
}

/// The entries of a listing as the contracts see them.
pub open spec fn entry_views(listing: Seq<DirEntry>) -> Seq<EntryView> {
    Seq::new(listing.len(), |i: int| listing[i]@)
}

} // verus!
