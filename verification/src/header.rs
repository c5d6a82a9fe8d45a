//! The fixed-layout header at the start of a TVFS manifest.

use vstd::prelude::*;
use crate::bytes::{be_u16, be_u32, checked_end, node_error, read_u16_be, read_u32_be, spec_checked_end, spec_read_u32};
use crate::error::{PathNodeIssue, Region, TvfsError};

verus! {

/// Bytes every TVFS manifest starts with: `TVFS`.
pub open spec fn tvfs_magic() -> Seq<u8> {
    seq![0x54u8, 0x56u8, 0x46u8, 0x53u8]
}

/// Smallest header: through the `max_depth` field.
pub const MIN_HEADER_SIZE: usize = 38;

/// TVFS manifest header.
#[derive(Debug, Clone, Copy, PartialEq, Eq)]
pub struct TvfsManifestHeader {
    /// Format version. Currently expected to be 1.
    pub format_version: u8,
    /// Header size in bytes.
    pub header_size: u8,
    /// Encoding key byte width. TACT uses 9-byte truncated EKeys here.
    pub ekey_size: u8,
    /// Patch key byte width.
    pub pkey_size: u8,
    /// TVFS flags.
    pub flags: u32,
    /// Path table offset.
    pub path_table_offset: u32,
    /// Path table size.
    pub path_table_size: u32,
    /// VFS table offset.
    pub vfs_table_offset: u32,
    /// VFS table size.
    pub vfs_table_size: u32,
    /// Container file table offset.
    pub cft_table_offset: u32,
    /// Container file table size.
    pub cft_table_size: u32,
    /// Maximum path depth.
    pub max_depth: u16,
    /// Encoding spec table offset, present when flag 0x02 is set.
    pub est_table_offset: Option<u32>,
    /// Encoding spec table size, present when flag 0x02 is set.
    pub est_table_size: Option<u32>,
}

/// The table described by `offset` and `size` ends within `len` bytes.
pub open spec fn table_fits(offset: u32, size: u32, len: int) -> bool {
    offset + size <= len
}

/// A header whose three tables lie within `len` bytes, whose key widths are 1 to
/// 16, and whose encoding spec table fields are present exactly when flag 0x02 is set.
pub open spec fn header_fits(h: TvfsManifestHeader, len: int) -> bool {
    &&& (h.flags & 0x02 != 0 <==> h.est_table_size is Some)
    &&& (h.flags & 0x02 != 0 <==> h.est_table_offset is Some)
    &&& table_fits(h.path_table_offset, h.path_table_size, len)
    &&& table_fits(h.vfs_table_offset, h.vfs_table_size, len)
    &&& table_fits(h.cft_table_offset, h.cft_table_size, len)
    &&& 1 <= h.ekey_size <= 16
    &&& 1 <= h.pkey_size <= 16
}

/// The error for the first table (path, then VFS, then container file table)
/// that does not lie within `len` bytes, if any.
pub open spec fn table_error(h: TvfsManifestHeader, len: int) -> Option<TvfsError> {
    match spec_checked_end(h.path_table_offset as int, h.path_table_size as int, len, Region::PathTable) {
        Err(e) => Some(e),
        Ok(_) => match spec_checked_end(h.vfs_table_offset as int, h.vfs_table_size as int, len, Region::VfsTable) {
            Err(e) => Some(e),
            Ok(_) => match spec_checked_end(h.cft_table_offset as int, h.cft_table_size as int, len, Region::ContainerTable) {
                Err(e) => Some(e),
                Ok(_) => None,
            },
        },
    }
}

/// The header fields as laid out in `d` (big-endian, fixed offsets), with the
/// encoding spec table fields taken from `est`.
pub open spec fn header_fields(d: Seq<u8>, est: (Option<u32>, Option<u32>)) -> TvfsManifestHeader {
    TvfsManifestHeader {
        format_version: d[4],
        header_size: d[5],
        ekey_size: d[6],
        pkey_size: d[7],
        flags: be_u32(d, 8),
        path_table_offset: be_u32(d, 12),
        path_table_size: be_u32(d, 16),
        vfs_table_offset: be_u32(d, 20),
        vfs_table_size: be_u32(d, 24),
        cft_table_offset: be_u32(d, 28),
        cft_table_size: be_u32(d, 32),
        max_depth: be_u16(d, 36),
        est_table_offset: est.0,
        est_table_size: est.1,
    }
}

/// The encoding spec table fields: absent unless flag 0x02 is set; when it is
/// set, the two `u32`s at 38 and 42, or the error for the first that is cut off.
pub open spec fn spec_est_fields(d: Seq<u8>, flags: u32) -> Result<(Option<u32>, Option<u32>), TvfsError> {
    if flags & 0x02 == 0 {
        Ok((None, None))
    } else {
        match spec_read_u32(d, 38) {
            Err(e) => Err(e),
            Ok(offset) => match spec_read_u32(d, 42) {
                Err(e) => Err(e),
                Ok(size) => Ok((Some(offset), Some(size))),
            },
        }
    }
}

/// What parsing a header from `d` gives: the checks in order (length, magic,
/// version, header size, key widths, encoding spec fields, table bounds), the
/// first failing one deciding the error.
pub open spec fn spec_parse_header(d: Seq<u8>) -> Result<TvfsManifestHeader, TvfsError> {
    if d.len() < 38 {
        Err(node_error(0, PathNodeIssue::HeaderTruncated))
    } else if d.subrange(0, 4) != tvfs_magic() {
        Err(TvfsError::InvalidMagic([d[0], d[1], d[2], d[3]]))
    } else if d[4] != 1 {
        Err(TvfsError::UnsupportedVersion(d[4]))
    } else if d[5] < 38 || d.len() < d[5] {
        Err(TvfsError::InvalidHeaderSize(d[5]))
    } else if d[6] == 0 || d[6] > 16 || d[7] == 0 || d[7] > 16 {
        Err(TvfsError::InvalidKeySize { ekey: d[6], pkey: d[7] })
    } else {
        match spec_est_fields(d, be_u32(d, 8)) {
            Err(e) => Err(e),
            Ok(est) => {
                let h = header_fields(d, est);
                match table_error(h, d.len() as int) {
                    Some(e) => Err(e),
                    None => Ok(h),
                }
            },
        }
    }
}

impl TvfsManifestHeader {
    /// Parse a TVFS manifest header.
    pub fn parse(data: &[u8]) -> (r: Result<Self, TvfsError>)
        ensures
            r == spec_parse_header(data@),
            r matches Ok(h) ==> header_fits(h, data@.len() as int),
    {
        if data.len() < MIN_HEADER_SIZE {
            return Err(TvfsError::InvalidPathNode(0, PathNodeIssue::HeaderTruncated));
        }
        if !(data[0] == 0x54 && data[1] == 0x56 && data[2] == 0x46 && data[3] == 0x53) {
            proof {
                if data@.subrange(0, 4) == tvfs_magic() {
                    assert(data@.subrange(0, 4)[0] == data@[0]);
                    assert(data@.subrange(0, 4)[1] == data@[1]);
                    assert(data@.subrange(0, 4)[2] == data@[2]);
                    assert(data@.subrange(0, 4)[3] == data@[3]);
                }
            }
            return Err(TvfsError::InvalidMagic([data[0], data[1], data[2], data[3]]));
        }
        assert(data@.subrange(0, 4) == tvfs_magic());
        let format_version = data[4];
        if format_version != 1 {
            return Err(TvfsError::UnsupportedVersion(format_version));
        }
        let header_size = data[5];
        if header_size < 38 || data.len() < header_size as usize {
            return Err(TvfsError::InvalidHeaderSize(header_size));
        }
        let ekey_size = data[6];
        let pkey_size = data[7];
        if ekey_size == 0 || ekey_size > 16 || pkey_size == 0 || pkey_size > 16 {
            return Err(TvfsError::InvalidKeySize { ekey: ekey_size, pkey: pkey_size });
        }
        let flags = read_u32_be(data, 8)?;
        let path_table_offset = read_u32_be(data, 12)?;
        let path_table_size = read_u32_be(data, 16)?;
        let vfs_table_offset = read_u32_be(data, 20)?;
        let vfs_table_size = read_u32_be(data, 24)?;
        let cft_table_offset = read_u32_be(data, 28)?;
        let cft_table_size = read_u32_be(data, 32)?;
        let max_depth = read_u16_be(data, 36)?;
        let (est_table_offset, est_table_size) = if flags & 0x02 != 0 {
            let offset = read_u32_be(data, 38)?;
            let size = read_u32_be(data, 42)?;
            (Some(offset), Some(size))
        } else {
            (None, None)
        };
        checked_end(path_table_offset as usize, path_table_size as usize, data.len(), Region::PathTable)?;
        checked_end(vfs_table_offset as usize, vfs_table_size as usize, data.len(), Region::VfsTable)?;
        checked_end(cft_table_offset as usize, cft_table_size as usize, data.len(), Region::ContainerTable)?;
        Ok(TvfsManifestHeader {
            format_version,
            header_size,
            ekey_size,
            pkey_size,
            flags,
            path_table_offset,
            path_table_size,
            vfs_table_offset,
            vfs_table_size,
            cft_table_offset,
            cft_table_size,
            max_depth,
            est_table_offset,
            est_table_size,
        })
    }
}

/// A parsed header comes from data that starts with `TVFS` and is long enough
/// for the stated header size; it has format version 1, its tables lie within
/// the data, and its key widths are 1 to 16.
pub proof fn lemma_parsed_header_fits(d: Seq<u8>)
    ensures
        spec_parse_header(d) matches Ok(h) ==> {
            &&& header_fits(h, d.len() as int)
            &&& d.subrange(0, 4) == tvfs_magic()
            &&& h.format_version == 1
            &&& 38 <= h.header_size <= d.len()
        },
{
}

/// The big-endian number in the four bytes of `d` at `off`.
pub open spec fn word_at(d: Seq<u8>, off: int) -> int {
    d[off] * 0x100_0000 + d[off + 1] * 0x1_0000 + d[off + 2] * 0x100 + d[off + 3]
}

/// A header parses exactly when the data has at least 38 bytes, starts with
/// `TVFS`, has format version 1, a header size from 38 to the data length, key
/// widths from 1 to 16, the 8 bytes of encoding spec fields when flag 0x02 is
/// set, and three tables within the data. Each field is then read big-endian at
/// its fixed offset; the encoding spec table offset is the word at 38 and its
/// size the word at 42, both present exactly when flag 0x02 is set.
pub proof fn lemma_header_fields_from_bytes(d: Seq<u8>)
    requires
        d.len() <= usize::MAX,
    ensures
        spec_parse_header(d) is Ok <==> {
            &&& d.len() >= 38
            &&& d[0] == 0x54 && d[1] == 0x56 && d[2] == 0x46 && d[3] == 0x53
            &&& d[4] == 1
            &&& 38 <= d[5] <= d.len()
            &&& 1 <= d[6] <= 16 && 1 <= d[7] <= 16
            &&& (word_at(d, 8) as u32 & 0x02 != 0 ==> d.len() >= 46)
            &&& word_at(d, 12) + word_at(d, 16) <= d.len()
            &&& word_at(d, 20) + word_at(d, 24) <= d.len()
            &&& word_at(d, 28) + word_at(d, 32) <= d.len()
        },
        spec_parse_header(d) matches Ok(h) ==> {
            &&& h.format_version == d[4]
            &&& h.header_size == d[5]
            &&& h.ekey_size == d[6]
            &&& h.pkey_size == d[7]
            &&& h.flags == word_at(d, 8)
            &&& h.path_table_offset == word_at(d, 12)
            &&& h.path_table_size == word_at(d, 16)
            &&& h.vfs_table_offset == word_at(d, 20)
            &&& h.vfs_table_size == word_at(d, 24)
            &&& h.cft_table_offset == word_at(d, 28)
            &&& h.cft_table_size == word_at(d, 32)
            &&& h.max_depth == d[36] * 0x100 + d[37]
            &&& (h.flags & 0x02 != 0 ==> h.est_table_offset == Some(word_at(d, 38) as u32)
                && h.est_table_size == Some(word_at(d, 42) as u32))
            &&& (h.flags & 0x02 == 0 ==> h.est_table_offset is None && h.est_table_size is None)
        },
{
    if d.len() >= 38 {
        assert(d.subrange(0, 4) == tvfs_magic() <==> (d[0] == 0x54 && d[1] == 0x56 && d[2] == 0x46 && d[3] == 0x53)) by {
            if d[0] == 0x54 && d[1] == 0x56 && d[2] == 0x46 && d[3] == 0x53 {
                assert(d.subrange(0, 4) =~= tvfs_magic());
            }
            if d.subrange(0, 4) == tvfs_magic() {
                assert(d.subrange(0, 4)[0] == d[0]);
                assert(d.subrange(0, 4)[1] == d[1]);
                assert(d.subrange(0, 4)[2] == d[2]);
                assert(d.subrange(0, 4)[3] == d[3]);
            }
        }
        assert forall|off: int| 0 <= off && off + 4 <= d.len() implies 0 <= #[trigger] word_at(d, off) <= u32::MAX
            && be_u32(d, off) == word_at(d, off) by {
            assert(0 <= d[off] <= 255 && 0 <= d[off + 1] <= 255 && 0 <= d[off + 2] <= 255 && 0 <= d[off + 3] <= 255);
        }
        assert(word_at(d, 8) <= u32::MAX && be_u32(d, 8) == word_at(d, 8));
        assert(be_u32(d, 8) == word_at(d, 8) as u32);
        assert(be_u32(d, 12) == word_at(d, 12));
        assert(be_u32(d, 16) == word_at(d, 16));
        assert(be_u32(d, 20) == word_at(d, 20));
        assert(be_u32(d, 24) == word_at(d, 24));
        assert(be_u32(d, 28) == word_at(d, 28));
        assert(be_u32(d, 32) == word_at(d, 32));
        if d.len() >= 46 {
            assert(be_u32(d, 38) == word_at(d, 38));
            assert(be_u32(d, 42) == word_at(d, 42));
        }
    }
}

/// The word at `off` is a `u32`, and `be_u32` reads it.
pub(crate) proof fn lemma_word_at(d: Seq<u8>, off: int)
    requires
        0 <= off,
        off + 4 <= d.len(),
    ensures
        0 <= word_at(d, off) <= u32::MAX,
        be_u32(d, off) == word_at(d, off),
{
    assert(0 <= d[off] <= 255 && 0 <= d[off + 1] <= 255 && 0 <= d[off + 2] <= 255 && 0 <= d[off + 3] <= 255);
}

} // verus!
