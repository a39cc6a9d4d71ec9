//! Descriptors of the regular files that a traversal finds.

use vstd::prelude::*;
use crate::entry::DirEntry;
use crate::entry::EntryView;
use crate::name::extension_of;
use crate::name::split_name;
use crate::name::stem_of;

verus! {

/// What is recorded of one regular file.
pub struct FileDescriptor {
    /// The entry's name as the directory stores it, extension included.
    pub display_name: Seq<char>,
    /// The name without its final extension segment.
    pub stem: Seq<char>,
    /// The final extension segment without its dot; empty if there is none.
    pub extension: Seq<char>,
    /// The file's length in bytes when it was scanned.
    pub size_bytes: u64,
    /// The path by which the file was reached.
    pub absolute_path: Seq<char>,
}

/// The descriptor of the entry `entry`, a regular file of `len` bytes.
pub open spec fn describe(entry: EntryView, len: u64) -> FileDescriptor {
    FileDescriptor {
        display_name: entry.name,
        stem: stem_of(entry.name),
        extension: extension_of(entry.name),
        size_bytes: len,
        absolute_path: entry.path,
    }
}

/// A type that records a file descriptor.
pub trait Descriptor: View<V = FileDescriptor> + Sized {
    /// Describes the entry `entry`, a regular file of `len` bytes.
    fn of(entry: &DirEntry, len: u64) -> (described: Self)
        ensures
            described@ == describe(entry@, len),
    ;
}

/// The values of a sequence of descriptors, in order.
pub open spec fn descriptors<D: Descriptor>(items: Seq<D>) -> Seq<FileDescriptor> {
    Seq::new(items.len(), |i: int| items[i]@)
}

/// A file descriptor as the file listing returns it.
#[derive(Debug, PartialEq, Eq)]
pub struct FileItem {
    /// The file's name, extension included.
    pub name: String,
    /// The path by which the file was reached.
    pub path: String,
    /// The name without its extension.
    pub file_name: String,
    /// The extension, without its dot.
    pub file_ext: String,
    /// The file's length in bytes.
    pub size: u64,
}

impl View for FileItem {
    type V = FileDescriptor;

    open spec fn view(&self) -> FileDescriptor {
        FileDescriptor {
            display_name: self.name@,
            stem: self.file_name@,
            extension: self.file_ext@,
            size_bytes: self.size,
            absolute_path: self.path@,
        }
    }
}

impl Descriptor for FileItem {
    fn of(entry: &DirEntry, len: u64) -> (item: FileItem) {
        let (stem, extension) = split_name(entry.name.as_str());
        FileItem {
            name: entry.name.clone(),
            path: entry.path.clone(),
            file_name: stem,
            file_ext: extension,
            size: len,
        }
    }
}

/// A file descriptor as the folder listings return it.
#[derive(Debug, PartialEq, Eq)]
pub struct FileInfo {
    /// The file's name, extension included.
    pub full_name: String,
    /// The name without its extension.
    pub name: String,
    /// The extension, without its dot.
    pub extension: String,
    /// The file's length in bytes.
    pub size: u64,
    /// The path by which the file was reached.
    pub path: String,
}

impl View for FileInfo {
    type V = FileDescriptor;

    open spec fn view(&self) -> FileDescriptor {
        FileDescriptor {
            display_name: self.full_name@,
            stem: self.name@,
            extension: self.extension@,
            size_bytes: self.size,
            absolute_path: self.path@,
        }
    }
}

impl Descriptor for FileInfo {
    fn of(entry: &DirEntry, len: u64) -> (info: FileInfo) {
        let (stem, extension) = split_name(entry.name.as_str());
        FileInfo {
            full_name: entry.name.clone(),
            name: stem,
            extension,
            size: len,
            path: entry.path.clone(),
        }
    }
}

} // verus!
