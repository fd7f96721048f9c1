//! Shared data types of the archiver: directory entries, in-memory file
//! records, listing rows, and the error taxonomy of the core.

use vstd::prelude::*;

verus! {

/// An error found by the archive core.
///
/// `CorruptArchive` marks a structural violation found while parsing or
/// decoding: a truncated header, a truncated run record, a region that
/// reaches past the end of the archive, or path bytes that are not UTF-8.
/// `UnsafePath` marks a directory-table path that would write outside the
/// output root (an absolute path or one with a `..` segment).
#[derive(Clone, Copy, Debug, PartialEq, Eq, Structural)]
pub enum ArchiveError {
    CorruptArchive,
    UnsafePath,
}

/// One row of the archive's directory table: where one packed file's run
/// records sit inside the archive.
///
/// `size` is the number of payload bytes (always a multiple of five) and
/// `offset` is measured from the start of the archive, so it already counts
/// the eight-byte entry count and the directory table itself.
pub struct FileEntry {
    pub path: String,
    pub size: u64,
    pub offset: u64,
}

/// The mathematical content of a [`FileEntry`].
pub struct EntryView {
    pub path: Seq<char>,
    pub size: u64,
    pub offset: u64,
}

impl View for FileEntry {
    type V = EntryView;

    open spec fn view(&self) -> EntryView {
        EntryView { path: self.path@, size: self.size, offset: self.offset }
    }
}

/// A file held in memory: its path relative to the packing root, and its
/// raw (decoded) contents.  Packing consumes these; unpacking returns them.
pub struct FileData {
    pub path: String,
    pub contents: Vec<u8>,
}

/// The mathematical content of a [`FileData`].
pub struct FileDataView {
    pub path: Seq<char>,
    pub contents: Seq<u8>,
}

impl View for FileData {
    type V = FileDataView;

    open spec fn view(&self) -> FileDataView {
        FileDataView { path: self.path@, contents: self.contents@ }
    }
}

/// A row of a file listing shown to the user: name, location, size,
/// formatted modification time, and whether the row is a directory.
pub struct FileInfo {
    pub path: String,
    pub name: String,
    pub size: u64,
    pub last_modified: String,
    pub is_dir: bool,
}

} // verus!
