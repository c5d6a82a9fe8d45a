//! Errors reported while parsing a TVFS manifest.

use vstd::prelude::*;

verus! {

/// Which byte range a bounds check was made for.
#[derive(Debug, Clone, Copy, PartialEq, Eq)]
pub enum Region {
    PathTable,
    VfsTable,
    ContainerTable,
    RootFolder,
    FolderNode,
    PathName,
    VfsOffset,
    VfsSpan,
    CftOffset,
    CftEncodingKey,
    U16,
    U32,
}

/// Why a path-table node (or a byte range that it points to) was rejected.
#[derive(Debug, Clone, Copy, PartialEq, Eq)]
pub enum PathNodeIssue {
    /// Fewer than 38 bytes: no room for the fixed header.
    HeaderTruncated,
    /// `start + len` does not fit in a `usize`.
    RangeOverflow(Region),
    /// The range `start..end` ends past `limit`.
    RangeExceeds { region: Region, end: usize, limit: usize },
    /// The path table starts with a node value whose folder bit is clear.
    RootNotFolder,
    /// A folder node's length is smaller than the node value itself.
    FolderTooShort,
    /// A VFS offset points at (or past) the end of the VFS table.
    VfsOffsetPastTable,
    /// A path fragment is not valid UTF-8: its first `valid_up_to` bytes are, and
    /// the invalid sequence after them has `error_len` bytes (`None` when the
    /// fragment ends inside a sequence).
    InvalidUtf8 { valid_up_to: usize, error_len: Option<u8> },
}

/// Failure to parse a TVFS manifest.
#[derive(Debug, Clone, Copy, PartialEq, Eq)]
pub enum TvfsError {
    /// The first four bytes are not `TVFS`.
    InvalidMagic([u8; 4]),
    /// The format version is not 1.
    UnsupportedVersion(u8),
    /// The header size is below 38 or beyond the data.
    InvalidHeaderSize(u8),
    /// A key width is 0 or larger than 16.
    InvalidKeySize { ekey: u8, pkey: u8 },
    /// A structural problem at the given byte offset.
    InvalidPathNode(usize, PathNodeIssue),
}

impl Region {
    /// The name used for this range in diagnostics.
    pub fn name(&self) -> (s: &'static str)
        ensures
            s@ == match self {
                Region::PathTable => "path table"@,
                Region::VfsTable => "vfs table"@,
                Region::ContainerTable => "container table"@,
                Region::RootFolder => "root folder"@,
                Region::FolderNode => "folder node"@,
                Region::PathName => "path name"@,
                Region::VfsOffset => "vfs offset"@,
                Region::VfsSpan => "VFS span"@,
                Region::CftOffset => "CFT offset"@,
                Region::CftEncodingKey => "CFT encoding key"@,
                Region::U16 => "u16"@,
                Region::U32 => "u32"@,
            },
    {
        match self {
            Region::PathTable => "path table",
            Region::VfsTable => "vfs table",
            Region::ContainerTable => "container table",
            Region::RootFolder => "root folder",
            Region::FolderNode => "folder node",
            Region::PathName => "path name",
            Region::VfsOffset => "vfs offset",
            Region::VfsSpan => "VFS span",
            Region::CftOffset => "CFT offset",
            Region::CftEncodingKey => "CFT encoding key",
            Region::U16 => "u16",
            Region::U32 => "u32",
        }
    }
}

} // verus!
