//! Parser for Blizzard TVFS file manifests.
//!
//! Real WoW manifests use the compact Agent/CascLib layout: path fragments plus
//! `0xff + NodeValue` records, recursive folder nodes, variable-width container
//! table offsets, and VFS span records. This module parses that layout directly.

use vstd::prelude::*;
use vstd::utf8::{decode_utf8, encode_utf8, valid_utf8};
use crate::bytes::{
    be_u32, be_uint, checked_end, node_error, offset_size, read_u32_be, read_uint_be,
    spec_checked_end, spec_offset_size, spec_read_u32,
};
use crate::error::{PathNodeIssue, Region, TvfsError};
use crate::generic::{generic_view, parse_wow_generic_bytes, slash, spec_wow_generic, trim_slashes, trimmed_len, GenericName};
use crate::header::{header_fits, lemma_word_at, spec_parse_header, word_at, TvfsManifestHeader};
use crate::keys::{ContentKey, EncodingKey};
use crate::text::{spec_error_len, spec_valid_up_to, string_from_utf8, utf8_error};

verus! {

/// Node values at or above this mark folders; below it, VFS offsets.
pub open spec fn folder_flag() -> u32 {
    0x8000_0000
}

/// TVFS manifest file entry.
#[derive(Debug, Clone, PartialEq, Eq)]
pub struct TvfsManifestEntry {
    /// Manifest path. WoW generic manifests encode metadata in this string.
    pub path: String,
    /// File data ID, when the path is a WoW generic name.
    pub file_data_id: Option<u32>,
    /// Locale flags, when the path is a WoW generic name.
    pub locale_flags: Option<u32>,
    /// Content flags, when the path is a WoW generic name.
    pub content_flags: Option<u32>,
    /// Content key, when present in the path or container file table.
    pub content_key: Option<ContentKey>,
    /// Truncated encoding key from the container file table.
    pub encoding_key: EncodingKey,
    /// File offset inside a multi-span logical file.
    pub file_offset: u32,
    /// Span size / content size.
    pub file_size: u32,
}

/// What a manifest entry holds, as mathematical values.
pub struct EntryView {
    pub path: Seq<char>,
    pub file_data_id: Option<u32>,
    pub locale_flags: Option<u32>,
    pub content_flags: Option<u32>,
    pub content_key: Option<Seq<u8>>,
    pub encoding_key: Seq<u8>,
    pub file_offset: u32,
    pub file_size: u32,
}

impl View for TvfsManifestEntry {
    type V = EntryView;

    open spec fn view(&self) -> EntryView {
        EntryView {
            path: self.path@,
            file_data_id: self.file_data_id,
            locale_flags: self.locale_flags,
            content_flags: self.content_flags,
            content_key: match self.content_key {
                Some(k) => Some(k@),
                None => None,
            },
            encoding_key: self.encoding_key@,
            file_offset: self.file_offset,
            file_size: self.file_size,
        }
    }
}

/// The views of a sequence of entries.
pub open spec fn entries_view(es: Seq<TvfsManifestEntry>) -> Seq<EntryView> {
    es.map_values(|e: TvfsManifestEntry| e@)
}

/// Parsed TVFS file manifest.
#[derive(Debug, Clone)]
pub struct TvfsManifest {
    /// TVFS header and table layout.
    pub header: TvfsManifestHeader,
    /// File records found in the manifest.
    pub entries: Vec<TvfsManifestEntry>,
}

/// One path-table record: a name fragment with optional separators before and
/// after it, and an optional node value.
pub struct Fragment {
    pub name_start: int,
    pub name_end: int,
    pub separator_pre: bool,
    pub separator_post: bool,
    pub node_value: Option<u32>,
    pub next: int,
}

/// What walking part of a manifest produces: the entries found, in order, and
/// the error that stopped the walk, if any. Entries found before an error are
/// kept.
pub struct Outcome {
    pub entries: Seq<EntryView>,
    pub error: Option<TvfsError>,
}

/// The walk finished, finding `es`.
pub open spec fn found(es: Seq<EntryView>) -> Outcome {
    Outcome { entries: es, error: None }
}

/// The walk stopped at once with `e`.
pub open spec fn failed(e: TvfsError) -> Outcome {
    Outcome { entries: seq![], error: Some(e) }
}

/// `o1` followed by `o2`; an error in `o1` stops the walk there.
pub open spec fn chain(o1: Outcome, o2: Outcome) -> Outcome {
    if o1.error is Some {
        o1
    } else {
        Outcome { entries: o1.entries + o2.entries, error: o2.error }
    }
}

/// The entries found so far, `acc`, followed by the outcome `o`.
pub open spec fn after(acc: Seq<EntryView>, o: Outcome) -> Outcome {
    Outcome { entries: acc + o.entries, error: o.error }
}

/// The function result that an outcome gives.
pub open spec fn outcome_result(o: Outcome) -> Result<(), TvfsError> {
    match o.error {
        None => Ok(()),
        Some(e) => Err(e),
    }
}

/// The record ends: checks that the name bytes are UTF-8.
pub open spec fn fragment_checked(
    d: Seq<u8>,
    start: int,
    pre: bool,
    post: bool,
    name_start: int,
    name_end: int,
    node_value: Option<u32>,
    next: int,
) -> Result<Fragment, TvfsError> {
    let name = d.subrange(name_start, name_end);
    if valid_utf8(name) {
        Ok(Fragment { name_start, name_end, separator_pre: pre, separator_post: post, node_value, next })
    } else {
        let v = spec_valid_up_to(name);
        Err(
            node_error(
                start,
                PathNodeIssue::InvalidUtf8 {
                    valid_up_to: v as usize,
                    error_len: spec_error_len(d.subrange(name_start + v, name_end)),
                },
            ),
        )
    }
}

/// The part of a record after its name: an optional `0x00` separator, then either
/// `0xff` and a big-endian node value, or nothing (a separator is then implied if
/// the range continues).
pub open spec fn spec_capture_tail(d: Seq<u8>, start: int, end: int, pre: bool, name_start: int, name_end: int) -> Result<Fragment, TvfsError> {
    let post = name_end < end && d[name_end] == 0;
    let c = if post { name_end + 1 } else { name_end };
    if c < end && d[c] == 0xff {
        match spec_read_u32(d, c + 1) {
            Err(e) => Err(e),
            Ok(v) => fragment_checked(d, start, pre, post, name_start, name_end, Some(v), c + 5),
        }
    } else {
        fragment_checked(d, start, pre, post || c < end, name_start, name_end, None, c)
    }
}

/// The record at `start` of the range ending at `end`: an optional `0x00`
/// separator, an optional length-prefixed name (absent when the next byte is
/// `0xff`), then the tail.
pub open spec fn spec_capture(d: Seq<u8>, start: int, end: int) -> Result<Fragment, TvfsError> {
    let pre = start < end && d[start] == 0;
    let c = if pre { start + 1 } else { start };
    if c < end && d[c] != 0xff {
        match spec_checked_end(c + 1, d[c] as int, end, Region::PathName) {
            Err(e) => Err(e),
            Ok(name_end) => spec_capture_tail(d, start, end, pre, c + 1, name_end as int),
        }
    } else {
        spec_capture_tail(d, start, end, pre, c, c)
    }
}

/// `path` ends with `/`.
pub open spec fn ends_with_slash(path: Seq<u8>) -> bool {
    path.len() > 0 && path.last() == slash()
}

/// The path after a record's fragment: a `/` before it when asked for and the
/// path is non-empty and lacks one, the name, and a `/` after it when asked for
/// and missing.
pub open spec fn join_fragment(path: Seq<u8>, f: Fragment, name: Seq<u8>) -> Seq<u8> {
    let p1 = if f.separator_pre && path.len() > 0 && !ends_with_slash(path) {
        path.push(slash())
    } else {
        path
    };
    let p2 = p1 + name;
    if f.separator_post && !ends_with_slash(p2) {
        p2.push(slash())
    } else {
        p2
    }
}

/// Byte width of the encoding-spec index in a container file table record:
/// present when flag 0x02 is set, sized to address the encoding spec table.
pub open spec fn espec_index_len(h: TvfsManifestHeader) -> int {
    if h.flags & 0x02 != 0 {
        spec_offset_size(
            match h.est_table_size {
                Some(n) => n as int,
                None => 0,
            },
        )
    } else {
        0
    }
}

/// Offset of the content key within a container file table record. A record
/// holds the encoding key (`ekey_size` bytes), the encoded size (4 bytes,
/// big-endian), the encoding-spec index (when flag 0x02 is set) and, when flag
/// 0x01 (include content key) is set, the 16-byte content key.
pub open spec fn ckey_offset(h: TvfsManifestHeader) -> int {
    h.ekey_size + 4 + espec_index_len(h)
}

/// The content key of the container file table record at `key_start`: present
/// when flag 0x01 is set and the record's key lies within the table.
pub open spec fn cft_content_key(d: Seq<u8>, h: TvfsManifestHeader, key_start: int) -> Option<Seq<u8>> {
    let at = key_start + ckey_offset(h);
    if h.flags & 0x01 != 0 && at + 16 <= h.cft_table_offset + h.cft_table_size {
        Some(d.subrange(at, at + 16))
    } else {
        None
    }
}

/// The entry for one span of the file at `path`; `ckey` is the content key of
/// the span's container file table record, used when the path is not a generic
/// name.
pub open spec fn make_entry(path: Seq<u8>, ekey: Seq<u8>, ckey: Option<Seq<u8>>, file_offset: u32, file_size: u32) -> EntryView {
    let g = spec_wow_generic(path);
    EntryView {
        path: decode_utf8(trim_slashes(path)),
        file_data_id: match g {
            Some(n) => Some(n.file_data_id),
            None => None,
        },
        locale_flags: match g {
            Some(n) => Some(n.locale_flags),
            None => None,
        },
        content_flags: match g {
            Some(n) => Some(n.content_flags),
            None => None,
        },
        content_key: match g {
            Some(n) => Some(n.content_key),
            None => ckey,
        },
        encoding_key: ekey + Seq::new((16 - ekey.len()) as nat, |i: int| 0u8),
        file_offset,
        file_size,
    }
}

/// An entry whose path is not a WoW generic name carries the content key of its
/// container file table record (none where the record holds none), and every
/// entry's encoding key starts with the record's truncated encoding key, followed
/// by zeros up to 16 bytes.
pub proof fn lemma_entry_keys_from_table(path: Seq<u8>, ekey: Seq<u8>, ckey: Option<Seq<u8>>, file_offset: u32, file_size: u32)
    requires
        ekey.len() <= 16,
    ensures
        spec_wow_generic(path) is None ==> make_entry(path, ekey, ckey, file_offset, file_size).content_key == ckey,
        make_entry(path, ekey, ckey, file_offset, file_size).encoding_key.len() == 16,
        make_entry(path, ekey, ckey, file_offset, file_size).encoding_key.subrange(0, ekey.len() as int) == ekey,
        forall|i: int| ekey.len() <= i < 16 ==> #[trigger] make_entry(path, ekey, ckey, file_offset, file_size).encoding_key[i] == 0u8,
{
    let k = make_entry(path, ekey, ckey, file_offset, file_size).encoding_key;
    assert(k.subrange(0, ekey.len() as int) =~= ekey);
}

/// End of the VFS table.
pub open spec fn vfs_table_end(h: TvfsManifestHeader) -> int {
    h.vfs_table_offset + h.vfs_table_size
}

/// Bytes in one VFS span record: offset, size, container table offset.
pub open spec fn span_len(h: TvfsManifestHeader) -> int {
    8 + spec_offset_size(h.cft_table_size as int)
}

/// The entries for `count` span records starting at `cursor` of the VFS table.
pub open spec fn spec_spans(d: Seq<u8>, h: TvfsManifestHeader, cursor: int, count: nat, path: Seq<u8>) -> Outcome
    decreases count,
{
    if count == 0 {
        found(seq![])
    } else {
        match spec_checked_end(cursor, span_len(h), vfs_table_end(h), Region::VfsSpan) {
            Err(e) => failed(e),
            Ok(_) => {
                let cft_offset = be_uint(d.subrange(cursor + 8, cursor + span_len(h)));
                match spec_checked_end(h.cft_table_offset as int, cft_offset as int, d.len() as int, Region::CftOffset) {
                    Err(e) => failed(e),
                    Ok(key_start) => match spec_checked_end(
                        key_start as int,
                        h.ekey_size as int,
                        h.cft_table_offset + h.cft_table_size,
                        Region::CftEncodingKey,
                    ) {
                        Err(e) => failed(e),
                        Ok(_) => chain(
                            found(seq![make_entry(path, d.subrange(key_start as int, key_start + h.ekey_size), cft_content_key(d, h, key_start as int), be_u32(d, cursor), be_u32(d, cursor + 4))]),
                            spec_spans(d, h, cursor + span_len(h), (count - 1) as nat, path),
                        ),
                    },
                }
            },
        }
    }
}

/// The entries for the file at `path` whose VFS record is `vfs_offset` bytes into
/// the VFS table: a span count, then that many spans; a count outside 1 to 224
/// gives no entries.
pub open spec fn spec_vfs_entries(d: Seq<u8>, h: TvfsManifestHeader, vfs_offset: int, path: Seq<u8>) -> Outcome {
    match spec_checked_end(h.vfs_table_offset as int, vfs_offset, vfs_table_end(h), Region::VfsOffset) {
        Err(e) => failed(e),
        Ok(c) => if c >= vfs_table_end(h) {
            failed(node_error(c as int, PathNodeIssue::VfsOffsetPastTable))
        } else if d[c as int] < 1 || d[c as int] > 224 {
            found(seq![])
        } else {
            spec_spans(d, h, c + 1, d[c as int] as nat, path)
        },
    }
}

/// A record, when it parses, ends after the position it started at.
pub proof fn lemma_capture_advances(d: Seq<u8>, cursor: int, end: int)
    requires
        0 <= cursor < end,
    ensures
        spec_capture(d, cursor, end) matches Ok(f) ==> cursor < f.next
            && valid_utf8(d.subrange(f.name_start, f.name_end)),
{
}

/// The entries of the path-table range `cursor..end`, under the directory `path`.
#[verifier::opaque]
pub open spec fn spec_walk(d: Seq<u8>, h: TvfsManifestHeader, cursor: int, end: int, path: Seq<u8>) -> Outcome
    decreases (if cursor < end { end - cursor } else { 0 }),
{
    if cursor < 0 || cursor >= end {
        found(seq![])
    } else {
        match spec_capture(d, cursor, end) {
            Err(e) => failed(e),
            Ok(f) => {
                proof {
                    lemma_capture_advances(d, cursor, end);
                }
                let p = join_fragment(path, f, d.subrange(f.name_start, f.name_end));
                match f.node_value {
                    None => spec_walk(d, h, f.next, end, p),
                    Some(nv) => if nv >= folder_flag() {
                        let folder_len = nv - folder_flag();
                        if folder_len < 4 {
                            failed(node_error(f.next, PathNodeIssue::FolderTooShort))
                        } else {
                            match spec_checked_end(f.next, folder_len - 4, end, Region::FolderNode) {
                                Err(e) => failed(e),
                                Ok(dir_end) => chain(
                                    spec_walk(d, h, f.next, dir_end as int, p),
                                    spec_walk(d, h, dir_end as int, end, path),
                                ),
                            }
                        }
                    } else {
                        chain(spec_vfs_entries(d, h, nv as int, p), spec_walk(d, h, f.next, end, path))
                    },
                }
            },
        }
    }
}

/// A record located in the path table, with its name as a byte range.
struct PathFragment {
    name_start: usize,
    name_end: usize,
    separator_pre: bool,
    separator_post: bool,
    node_value: Option<u32>,
    next: usize,
}

impl View for PathFragment {
    type V = Fragment;

    closed spec fn view(&self) -> Fragment {
        Fragment {
            name_start: self.name_start as int,
            name_end: self.name_end as int,
            separator_pre: self.separator_pre,
            separator_post: self.separator_post,
            node_value: self.node_value,
            next: self.next as int,
        }
    }
}

/// Moving one entry from the pending outcome into the entries found so far.
proof fn lemma_after_step(acc: Seq<EntryView>, m: EntryView, rest: Outcome)
    ensures
        after(acc, chain(found(seq![m]), rest)) == after(acc.push(m), rest),
{
    assert(acc + (seq![m] + rest.entries) =~= acc.push(m) + rest.entries);
}

/// Nothing more is found.
proof fn lemma_after_empty(acc: Seq<EntryView>)
    ensures
        after(acc, found(seq![])) == found(acc),
{
    assert(acc + Seq::<EntryView>::empty() =~= acc);
}

/// The walk stops at once with `e`.
proof fn lemma_after_failed(acc: Seq<EntryView>, e: TvfsError)
    ensures
        after(acc, failed(e)) == (Outcome { entries: acc, error: Some(e) }),
{
    assert(acc + Seq::<EntryView>::empty() =~= acc);
}

/// The walk stops at once, whatever the error.
proof fn lemma_after_failed_all(acc: Seq<EntryView>)
    ensures
        forall|e: TvfsError| #[trigger] after(acc, failed(e)) == (Outcome { entries: acc, error: Some(e) }),
{
    assert forall|e: TvfsError| #[trigger] after(acc, failed(e)) == (Outcome { entries: acc, error: Some(e) }) by {
        lemma_after_failed(acc, e);
    }
}

/// Taking a first outcome's entries into the entries found so far.
proof fn lemma_after_chain(acc: Seq<EntryView>, o1: Outcome, o2: Outcome)
    ensures
        o1.error is None ==> after(acc, chain(o1, o2)) == after(acc + o1.entries, o2),
        o1.error is Some ==> after(acc, chain(o1, o2)) == after(acc, o1),
{
    assert(acc + (o1.entries + o2.entries) =~= (acc + o1.entries) + o2.entries);
}

/// A '/' alone is well-formed UTF-8.
proof fn lemma_slash_valid()
    ensures
        valid_utf8(seq![slash()]),
{
    reveal_with_fuel(valid_utf8, 2);
    assert(vstd::utf8::pop_first_scalar(seq![slash()]) =~= Seq::<u8>::empty());
}

/// Trailing slashes can be dropped from well-formed UTF-8.
proof fn lemma_trim_valid(p: Seq<u8>)
    requires
        valid_utf8(p),
    ensures
        valid_utf8(trim_slashes(p)),
    decreases p.len(),
{
    if p.len() > 0 && p.last() == slash() {
        let k = p.len() - 1;
        vstd::utf8::is_char_boundary_iff_not_is_continuation_byte(p, k);
        vstd::utf8::valid_utf8_split(p, k);
        assert(p.subrange(0, k) =~= p.drop_last());
        lemma_trim_valid(p.drop_last());
    }
}

/// Reads the path-table record at `cursor`.
fn capture_path_entry(data: &[u8], cursor: usize, end: usize) -> (r: Result<PathFragment, TvfsError>)
    requires
        cursor < end <= data@.len(),
    ensures
        match spec_capture(data@, cursor as int, end as int) {
            Ok(f) => r matches Ok(g) && g@ == f,
            Err(e) => r == Err::<PathFragment, TvfsError>(e),
        },
        r matches Ok(g) ==> g.name_start <= g.name_end <= end && cursor < g.next
            && valid_utf8(data@.subrange(g.name_start as int, g.name_end as int)),
{
    proof {
        lemma_capture_advances(data@, cursor as int, end as int);
    }
    let start = cursor;
    let mut cursor = cursor;
    let separator_pre = cursor < end && data[cursor] == 0;
    if separator_pre {
        cursor = cursor + 1;
    }
    let name_start;
    let name_end;
    if cursor < end && data[cursor] != 0xff {
        let len = data[cursor] as usize;
        cursor = cursor + 1;
        name_start = cursor;
        name_end = checked_end(cursor, len, end, Region::PathName)?;
        cursor = name_end;
    } else {
        name_start = cursor;
        name_end = cursor;
    }
    let mut separator_post = cursor < end && data[cursor] == 0;
    if separator_post {
        cursor = cursor + 1;
    }
    let node_value = if cursor < end && data[cursor] == 0xff {
        let value = read_u32_be(data, cursor + 1)?;
        cursor = cursor + 5;
        Some(value)
    } else {
        if cursor < end {
            separator_post = true;
        }
        None
    };
    if let Some((valid_up_to, error_len)) = utf8_error(data, name_start, name_end) {
        return Err(TvfsError::InvalidPathNode(start, PathNodeIssue::InvalidUtf8 { valid_up_to, error_len }));
    }
    Ok(PathFragment { name_start, name_end, separator_pre, separator_post, node_value, next: cursor })
}

/// Adds a record's fragment to `path`, as `join_fragment` describes.
fn extend_path(path: &mut Vec<u8>, data: &[u8], entry: &PathFragment)
    requires
        entry.name_start <= entry.name_end <= data@.len(),
        valid_utf8(old(path)@),
        valid_utf8(data@.subrange(entry.name_start as int, entry.name_end as int)),
    ensures
        final(path)@ == join_fragment(old(path)@, entry@, data@.subrange(entry.name_start as int, entry.name_end as int)),
        valid_utf8(final(path)@),
        old(path)@.len() <= final(path)@.len(),
        final(path)@.subrange(0, old(path)@.len() as int) == old(path)@,
{
    let ghost p0 = path@;
    let ghost name = data@.subrange(entry.name_start as int, entry.name_end as int);
    if entry.separator_pre && path.len() > 0 && path[path.len() - 1] != 0x2f {
        let ghost before_push = path@;
        path.push(0x2f);
        proof {
            lemma_slash_valid();
            vstd::utf8::valid_utf8_concat(before_push, seq![slash()]);
            assert(before_push + seq![slash()] =~= path@);
        }
    }
    let ghost p1 = path@;
    push_bytes(path, data, entry.name_start, entry.name_end);
    proof {
        vstd::utf8::valid_utf8_concat(p1, name);
    }
    if entry.separator_post && !(path.len() > 0 && path[path.len() - 1] == 0x2f) {
        let ghost before_push = path@;
        path.push(0x2f);
        proof {
            lemma_slash_valid();
            vstd::utf8::valid_utf8_concat(before_push, seq![slash()]);
            assert(before_push + seq![slash()] =~= path@);
        }
    }
    assert(path@ =~= join_fragment(p0, entry@, name));
    assert(path@.subrange(0, p0.len() as int) =~= p0);
}

/// Appends `data[start..end]` to `path`.
fn push_bytes(path: &mut Vec<u8>, data: &[u8], start: usize, end: usize)
    requires
        start <= end <= data@.len(),
    ensures
        final(path)@ == old(path)@ + data@.subrange(start as int, end as int),
{
    let mut i = start;
    while i < end
        invariant
            start <= i <= end <= data@.len(),
            path@ == old(path)@ + data@.subrange(start as int, i as int),
        decreases end - i,
    {
        path.push(data[i]);
        i = i + 1;
        assert(path@ =~= old(path)@ + data@.subrange(start as int, i as int));
    }
}

/// The content key of the container file table record at `key_start`, when
/// the manifest includes content keys and the record holds one.
fn read_cft_content_key(data: &[u8], header: &TvfsManifestHeader, key_start: usize, cft_end: usize) -> (r: Option<ContentKey>)
    requires
        header_fits(*header, data@.len() as int),
        cft_end == header.cft_table_offset + header.cft_table_size,
        key_start + header.ekey_size <= cft_end,
    ensures
        match cft_content_key(data@, *header, key_start as int) {
            Some(k) => r matches Some(c) && c@ == k,
            None => r is None,
        },
{
    if header.flags & 0x01 == 0 {
        return None;
    }
    let width = if header.flags & 0x02 != 0 {
        match header.est_table_size {
            Some(n) => offset_size(n as usize),
            None => 0,
        }
    } else {
        0
    };
    let ekey_end = key_start + header.ekey_size as usize;
    if cft_end - ekey_end < 4 + width + 16 {
        return None;
    }
    let at = ekey_end + 4 + width;
    let dlen = data.len();
    let mut key = [0u8; 16];
    let mut k: usize = 0;
    while k < 16
        invariant
            k <= 16,
            dlen == data@.len(),
            at + 16 <= data@.len(),
            forall|j: int| 0 <= j < k ==> #[trigger] key@[j] == data@[at + j],
        decreases 16 - k,
    {
        key[k] = data[at + k];
        k = k + 1;
    }
    let c = ContentKey::from_bytes(key);
    assert(c@ =~= data@.subrange(at as int, at + 16));
    Some(c)
}

/// The entries for the file at `path`, whose VFS record is `vfs_offset` bytes into the VFS table.
fn append_vfs_entries(
    data: &[u8],
    header: &TvfsManifestHeader,
    vfs_offset: usize,
    path: &Vec<u8>,
    entries: &mut Vec<TvfsManifestEntry>,
) -> (r: Result<(), TvfsError>)
    requires
        header_fits(*header, data@.len() as int),
        valid_utf8(path@),
    ensures
        entries_view(final(entries)@) == entries_view(old(entries)@) + spec_vfs_entries(data@, *header, vfs_offset as int, path@).entries,
        r == outcome_result(spec_vfs_entries(data@, *header, vfs_offset as int, path@)),
{
    let ghost d = data@;
    let ghost h = *header;
    assert(entries_view(old(entries)@) + Seq::<EntryView>::empty() =~= entries_view(old(entries)@));
    let dlen = data.len();
    let vfs_start = header.vfs_table_offset as usize;
    let vfs_end = vfs_start + header.vfs_table_size as usize;
    let mut cursor = checked_end(vfs_start, vfs_offset, vfs_end, Region::VfsOffset)?;
    if cursor >= vfs_end {
        return Err(TvfsError::InvalidPathNode(cursor, PathNodeIssue::VfsOffsetPastTable));
    }
    let span_count = data[cursor];
    cursor = cursor + 1;
    if !(1 <= span_count && span_count <= 224) {
        return Ok(());
    }
    let n = trimmed_len(path.as_slice());
    proof {
        lemma_trim_valid(path@);
    }
    let trimmed = vstd::slice::slice_to_vec(vstd::slice::slice_subrange(path.as_slice(), 0, n));
    let path_string = match string_from_utf8(trimmed) {
        Some(s) => s,
        None => {
            assert(false);
            return Ok(());
        },
    };
    let generic = parse_wow_generic_bytes(path.as_slice());
    let cft_offset_size = offset_size(header.cft_table_size as usize);
    let span_size = 8 + cft_offset_size;
    let cft_start = header.cft_table_offset as usize;
    let cft_end = cft_start + header.cft_table_size as usize;
    let ekey_size = header.ekey_size as usize;
    let ghost acc: Seq<EntryView> = seq![];
    let mut i: u8 = 0;
    assert(after(acc, spec_spans(d, h, cursor as int, span_count as nat, path@)) == spec_vfs_entries(d, h, vfs_offset as int, path@)) by {
        assert(acc + spec_spans(d, h, cursor as int, span_count as nat, path@).entries
            =~= spec_spans(d, h, cursor as int, span_count as nat, path@).entries);
    }
    assert(entries_view(entries@) == entries_view(old(entries)@) + acc) by {
        assert(entries_view(old(entries)@) + acc =~= entries_view(old(entries)@));
    }
    while i < span_count
        invariant
            d == data@,
            dlen == data@.len(),
            h == *header,
            header_fits(h, d.len() as int),
            vfs_end == vfs_table_end(h),
            span_size == span_len(h),
            cft_offset_size == spec_offset_size(h.cft_table_size as int),
            cft_start == h.cft_table_offset,
            cft_end == h.cft_table_offset + h.cft_table_size,
            ekey_size == h.ekey_size,
            i <= span_count,
            path_string@ == decode_utf8(trim_slashes(path@)),
            generic_view(generic) == spec_wow_generic(path@),
            spec_vfs_entries(d, h, vfs_offset as int, path@) == after(acc, spec_spans(d, h, cursor as int, (span_count - i) as nat, path@)),
            entries_view(entries@) == entries_view(old(entries)@) + acc,
        decreases span_count - i,
    {
        proof {
            lemma_after_failed_all(acc);
        }
        checked_end(cursor, span_size, vfs_end, Region::VfsSpan)?;
        let file_offset = read_u32_be(data, cursor)?;
        let file_size = read_u32_be(data, cursor + 4)?;
        let offset_bytes = vstd::slice::slice_subrange(data, cursor + 8, cursor + 8 + cft_offset_size);
        proof {
            crate::bytes::lemma_be_uint_bound(offset_bytes@);
            assert(crate::bytes::pow256(offset_bytes@.len()) <= 0x1_0000_0000) by {
                reveal_with_fuel(crate::bytes::pow256, 5);
            }
            vstd::arithmetic::div_mod::lemma_small_mod(be_uint(offset_bytes@), 0x1_0000_0000);
        }
        let cft_offset = read_uint_be(offset_bytes) as usize;
        cursor = cursor + span_size;
        let key_start = checked_end(cft_start, cft_offset, data.len(), Region::CftOffset)?;
        checked_end(key_start, ekey_size, cft_end, Region::CftEncodingKey)?;
        let mut ekey = [0u8; 16];
        let mut k: usize = 0;
        while k < ekey_size
            invariant
                k <= ekey_size <= 16,
                key_start + ekey_size <= data@.len(),
                dlen == data@.len(),
                forall|j: int| 0 <= j < k ==> #[trigger] ekey@[j] == data@[key_start + j],
                forall|j: int| k <= j < 16 ==> #[trigger] ekey@[j] == 0u8,
            decreases ekey_size - k,
        {
            ekey[k] = data[key_start + k];
            k = k + 1;
        }
        let entry = TvfsManifestEntry {
            path: path_string.clone(),
            file_data_id: match generic {
                Some(g) => Some(g.file_data_id),
                None => None,
            },
            locale_flags: match generic {
                Some(g) => Some(g.locale_flags),
                None => None,
            },
            content_flags: match generic {
                Some(g) => Some(g.content_flags),
                None => None,
            },
            content_key: match generic {
                Some(g) => Some(g.content_key),
                None => read_cft_content_key(data, header, key_start, cft_end),
            },
            encoding_key: EncodingKey::from_bytes(ekey),
            file_offset,
            file_size,
        };
        let ghost made = make_entry(path@, d.subrange(key_start as int, key_start + h.ekey_size), cft_content_key(d, h, key_start as int), file_offset, file_size);
        assert(entry@.encoding_key =~= made.encoding_key);
        assert(entry@ == made);
        let ghost old_entries = entries@;
        entries.push(entry);
        proof {
            assert(entries_view(entries@) =~= entries_view(old_entries).push(made));
            lemma_after_step(acc, made, spec_spans(d, h, cursor as int, (span_count - i - 1) as nat, path@));
            acc = acc.push(made);
        }
        i = i + 1;
        assert(entries_view(entries@) =~= entries_view(old(entries)@) + acc);
    }
    proof {
        lemma_after_empty(acc);
    }
    Ok(())
}

/// Walks the path-table range `cursor..end` under the directory `path`,
/// appending an entry for every span of every file found. On an error the
/// entries found before it stay appended.
fn parse_path_entries(
    data: &[u8],
    header: &TvfsManifestHeader,
    cursor: usize,
    end: usize,
    path: &mut Vec<u8>,
    entries: &mut Vec<TvfsManifestEntry>,
) -> (r: Result<(), TvfsError>)
    requires
        end <= data@.len(),
        header_fits(*header, data@.len() as int),
        valid_utf8(old(path)@),
    ensures
        entries_view(final(entries)@) == entries_view(old(entries)@) + spec_walk(data@, *header, cursor as int, end as int, old(path)@).entries,
        r == outcome_result(spec_walk(data@, *header, cursor as int, end as int, old(path)@)),
        r is Ok ==> final(path)@ == old(path)@,
    decreases (if cursor < end { end - cursor } else { 0 }),
{
    let ghost d = data@;
    let ghost h = *header;
    let ghost path0 = path@;
    let ghost cursor0 = cursor as int;
    let ghost mut acc: Seq<EntryView> = seq![];
    let dlen = data.len();
    let base_len = path.len();
    let mut pos = cursor;
    assert(path@.subrange(0, base_len as int) =~= path0);
    assert(entries_view(old(entries)@) + acc =~= entries_view(old(entries)@));
    assert(spec_walk(d, h, cursor0, end as int, path0) == after(acc, spec_walk(d, h, pos as int, end as int, path@))) by {
        assert(acc + spec_walk(d, h, cursor0, end as int, path0).entries =~= spec_walk(d, h, cursor0, end as int, path0).entries);
    }
    while pos < end
        invariant
            d == data@,
            dlen == data@.len(),
            h == *header,
            header_fits(h, d.len() as int),
            end <= dlen,
            cursor0 == cursor as int,
            path0 == old(path)@,
            cursor0 <= pos,
            valid_utf8(path@),
            base_len == path0.len(),
            base_len <= path@.len(),
            path@.subrange(0, base_len as int) == path0,
            spec_walk(d, h, cursor0, end as int, path0) == after(acc, spec_walk(d, h, pos as int, end as int, path@)),
            entries_view(entries@) == entries_view(old(entries)@) + acc,
        decreases (if pos < end { end - pos } else { 0 }),
    {
        let saved_len = path.len();
        let ghost here = pos as int;
        let ghost p_before = path@;
        proof {
            lemma_after_failed_all(acc);
        }
        let entry = match capture_path_entry(data, pos, end) {
            Ok(entry) => entry,
            Err(e) => {
                assert(spec_walk(d, h, here, end as int, p_before) == failed(e)) by {
                    reveal_with_fuel(spec_walk, 1);
                }
                return Err(e);
            },
        };
        let ghost f = entry@;
        pos = entry.next;
        extend_path(path, data, &entry);
        let ghost p = path@;
        assert(p.subrange(0, base_len as int) =~= path0) by {
            assert(p.subrange(0, base_len as int) =~= p.subrange(0, saved_len as int).subrange(0, base_len as int));
        }
        match entry.node_value {
            None => {
                assert(spec_walk(d, h, here, end as int, p_before) == spec_walk(d, h, f.next, end as int, p)) by {
                    reveal_with_fuel(spec_walk, 1);
                }
            },
            Some(nv) => {
                if nv >= 0x8000_0000 {
                    let folder_len = (nv - 0x8000_0000) as usize;
                    if folder_len < 4 {
                        assert(spec_walk(d, h, here, end as int, p_before) == failed(
                            node_error(f.next, PathNodeIssue::FolderTooShort))) by {
                            reveal_with_fuel(spec_walk, 1);
                        }
                        return Err(TvfsError::InvalidPathNode(pos, PathNodeIssue::FolderTooShort));
                    }
                    let directory_end = match checked_end(pos, folder_len - 4, end, Region::FolderNode) {
                        Ok(e) => e,
                        Err(e) => {
                            assert(spec_walk(d, h, here, end as int, p_before) == failed(e)) by {
                                reveal_with_fuel(spec_walk, 1);
                            }
                            return Err(e);
                        },
                    };
                    let ghost inner = spec_walk(d, h, f.next, directory_end as int, p);
                    let ghost rest = spec_walk(d, h, directory_end as int, end as int, p_before);
                    assert(spec_walk(d, h, here, end as int, p_before) == chain(inner, rest)) by {
                        reveal_with_fuel(spec_walk, 1);
                    }
                    let res = parse_path_entries(data, header, pos, directory_end, path, entries);
                    proof {
                        lemma_after_chain(acc, inner, rest);
                        assert(entries_view(entries@) =~= entries_view(old(entries)@) + (acc + inner.entries));
                    }
                    match res {
                        Ok(()) => {},
                        Err(e) => {
                            return Err(e);
                        },
                    }
                    proof {
                        acc = acc + inner.entries;
                    }
                    pos = directory_end;
                } else {
                    let ghost first = spec_vfs_entries(d, h, nv as int, p);
                    let ghost rest = spec_walk(d, h, f.next, end as int, p_before);
                    assert(spec_walk(d, h, here, end as int, p_before) == chain(first, rest)) by {
                        reveal_with_fuel(spec_walk, 1);
                    }
                    let res = append_vfs_entries(data, header, nv as usize, path, entries);
                    proof {
                        lemma_after_chain(acc, first, rest);
                        assert(entries_view(entries@) =~= entries_view(old(entries)@) + (acc + first.entries));
                    }
                    match res {
                        Ok(()) => {},
                        Err(e) => {
                            return Err(e);
                        },
                    }
                    proof {
                        acc = acc + first.entries;
                    }
                }
                path.truncate(saved_len);
            },
        }
    }
    let ghost p_end = path@;
    path.truncate(base_len);
    assert(spec_walk(d, h, pos as int, end as int, p_end) == found(seq![])) by {
        reveal_with_fuel(spec_walk, 1);
    }
    proof {
        lemma_after_empty(acc);
    }
    Ok(())
}

/// What parsing a whole manifest gives: the header, then the entries of the path
/// table (or of the root folder, when the table starts with a folder node value).
pub open spec fn spec_parse_manifest(d: Seq<u8>) -> Result<(TvfsManifestHeader, Seq<EntryView>), TvfsError> {
    match spec_parse_header(d) {
        Err(e) => Err(e),
        Ok(h) => {
            let walked = spec_walk_table(d, h);
            match walked.error {
                Some(e) => Err(e),
                None => Ok((h, walked.entries)),
            }
        },
    }
}

/// Walking the path table of a manifest whose header is `h`: from its start, or,
/// when it starts with `0xff` and a node value that marks a folder, over that
/// root folder's range.
pub open spec fn spec_walk_table(d: Seq<u8>, h: TvfsManifestHeader) -> Outcome {
    let start = h.path_table_offset as int;
    let path_end = start + h.path_table_size;
    if start + 5 <= path_end && d[start] == 0xff {
        let nv = be_u32(d, start + 1);
        if nv < folder_flag() {
            failed(node_error(start, PathNodeIssue::RootNotFolder))
        } else {
            match spec_checked_end(start + 1, nv - folder_flag(), d.len() as int, Region::RootFolder) {
                Err(e) => failed(e),
                Ok(root_end) => spec_walk(d, h, start + 5, root_end as int, seq![]),
            }
        }
    } else {
        spec_walk(d, h, start, path_end, seq![])
    }
}

impl TvfsManifest {
    /// Parse a decompressed TVFS manifest.
    pub fn parse(data: &[u8]) -> (r: Result<Self, TvfsError>)
        ensures
            match spec_parse_manifest(data@) {
                Ok((h, es)) => r matches Ok(m) && m.header == h && entries_view(m.entries@) == es,
                Err(e) => r matches Err(e2) && e2 == e,
            },
    {
        let header = TvfsManifestHeader::parse(data)?;
        let mut entries: Vec<TvfsManifestEntry> = Vec::new();
        let path_start = header.path_table_offset as usize;
        let path_end = checked_end(path_start, header.path_table_size as usize, data.len(), Region::PathTable)?;
        let mut cursor = path_start;
        let mut end = path_end;
        if path_end >= 5 && cursor <= path_end - 5 && data[cursor] == 0xff {
            let node_value = read_u32_be(data, cursor + 1)?;
            if node_value < 0x8000_0000 {
                return Err(TvfsError::InvalidPathNode(cursor, PathNodeIssue::RootNotFolder));
            }
            let folder_len = (node_value - 0x8000_0000) as usize;
            end = checked_end(cursor + 1, folder_len, data.len(), Region::RootFolder)?;
            cursor = cursor + 5;
        }
        let mut path: Vec<u8> = Vec::new();
        assert(valid_utf8(path@));
        let ghost before = entries@;
        parse_path_entries(data, &header, cursor, end, &mut path, &mut entries)?;
        assert(entries_view(before) =~= Seq::<EntryView>::empty());
        assert(entries_view(entries@) =~= spec_walk(data@, header, cursor as int, end as int, seq![]).entries);
        Ok(TvfsManifest { header, entries })
    }
}

/// The generic-name fields an entry would have if its path were `g`'s (the
/// content key only for a generic path: otherwise it comes from the container
/// file table).
pub open spec fn generic_fields_match(e: EntryView, g: Option<GenericName>) -> bool {
    match g {
        Some(n) => {
            &&& e.file_data_id == Some(n.file_data_id)
            &&& e.locale_flags == Some(n.locale_flags)
            &&& e.content_flags == Some(n.content_flags)
            &&& e.content_key == Some(n.content_key)
        },
        None => {
            &&& e.file_data_id is None
            &&& e.locale_flags is None
            &&& e.content_flags is None
        },
    }
}

/// The shape every parsed entry has: its path (as UTF-8 bytes) does not end with
/// `/`; its generic-name fields are those that parsing its own path as a generic
/// name gives (so all present, with a 16-byte content key, or all absent); and its
/// encoding key has 16 bytes, those past the manifest's key width being zero.
pub open spec fn well_shaped(ekey_size: int, e: EntryView) -> bool {
    &&& !ends_with_slash(encode_utf8(e.path))
    &&& generic_fields_match(e, spec_wow_generic(encode_utf8(e.path)))
    &&& (e.content_key matches Some(k) ==> k.len() == 16)
    &&& e.encoding_key.len() == 16
    &&& forall|i: int| ekey_size <= i < 16 ==> #[trigger] e.encoding_key[i] == 0u8
}

/// Every entry of `es` is well shaped.
pub open spec fn all_shaped(ekey_size: int, es: Seq<EntryView>) -> bool {
    forall|i: int| 0 <= i < es.len() ==> #[trigger] well_shaped(ekey_size, es[i])
}

proof fn lemma_trim_idempotent(p: Seq<u8>)
    ensures
        trim_slashes(trim_slashes(p)) == trim_slashes(p),
        !ends_with_slash(trim_slashes(p)),
    decreases p.len(),
{
    if p.len() > 0 && p.last() == slash() {
        lemma_trim_idempotent(p.drop_last());
    }
}

proof fn lemma_join_valid(path: Seq<u8>, f: Fragment, name: Seq<u8>)
    requires
        valid_utf8(path),
        valid_utf8(name),
    ensures
        valid_utf8(join_fragment(path, f, name)),
{
    lemma_slash_valid();
    vstd::utf8::valid_utf8_concat(path, seq![slash()]);
    assert(path.push(slash()) == path + seq![slash()]);
    let p1 = if f.separator_pre && path.len() > 0 && !ends_with_slash(path) {
        path.push(slash())
    } else {
        path
    };
    vstd::utf8::valid_utf8_concat(p1, name);
    let p2 = p1 + name;
    vstd::utf8::valid_utf8_concat(p2, seq![slash()]);
    assert(p2.push(slash()) == p2 + seq![slash()]);
}

proof fn lemma_make_entry_shaped(path: Seq<u8>, ekey: Seq<u8>, ckey: Option<Seq<u8>>, file_offset: u32, file_size: u32)
    requires
        valid_utf8(path),
        ekey.len() <= 16,
        ckey matches Some(k) ==> k.len() == 16,
    ensures
        well_shaped(ekey.len() as int, make_entry(path, ekey, ckey, file_offset, file_size)),
{
    let e = make_entry(path, ekey, ckey, file_offset, file_size);
    let t = trim_slashes(path);
    lemma_trim_valid(path);
    lemma_trim_idempotent(path);
    vstd::utf8::decode_utf8_encode_utf8(t);
    assert(encode_utf8(e.path) == t);
    assert forall|i: int| ekey.len() <= i < 16 implies #[trigger] e.encoding_key[i] == 0u8 by {}
}

proof fn lemma_chain_shaped(k: int, o1: Outcome, o2: Outcome)
    requires
        all_shaped(k, o1.entries),
        all_shaped(k, o2.entries),
    ensures
        all_shaped(k, chain(o1, o2).entries),
{
    let a = o1.entries;
    let b = o2.entries;
    assert forall|i: int| 0 <= i < (a + b).len() implies #[trigger] well_shaped(k, (a + b)[i]) by {
        if i < a.len() {
            assert((a + b)[i] == a[i]);
        } else {
            assert((a + b)[i] == b[i - a.len()]);
        }
    }
}

proof fn lemma_spans_shaped(d: Seq<u8>, h: TvfsManifestHeader, cursor: int, count: nat, path: Seq<u8>)
    requires
        header_fits(h, d.len() as int),
        valid_utf8(path),
    ensures
        all_shaped(h.ekey_size as int, spec_spans(d, h, cursor, count, path).entries),
    decreases count,
{
    if count > 0 {
        lemma_spans_shaped(d, h, cursor + span_len(h), (count - 1) as nat, path);
        if let Ok(_) = spec_checked_end(cursor, span_len(h), vfs_table_end(h), Region::VfsSpan) {
            let cft_offset = be_uint(d.subrange(cursor + 8, cursor + span_len(h)));
            if let Ok(key_start) = spec_checked_end(h.cft_table_offset as int, cft_offset as int, d.len() as int, Region::CftOffset) {
                let ekey = d.subrange(key_start as int, key_start + h.ekey_size);
                let ckey = cft_content_key(d, h, key_start as int);
                let e = make_entry(path, ekey, ckey, be_u32(d, cursor), be_u32(d, cursor + 4));
                if let Ok(_) = spec_checked_end(key_start as int, h.ekey_size as int, h.cft_table_offset + h.cft_table_size, Region::CftEncodingKey) {
                    assert(ekey.len() == h.ekey_size);
                    lemma_make_entry_shaped(path, ekey, ckey, be_u32(d, cursor), be_u32(d, cursor + 4));
                    assert(all_shaped(h.ekey_size as int, seq![e]));
                    lemma_chain_shaped(h.ekey_size as int, found(seq![e]), spec_spans(d, h, cursor + span_len(h), (count - 1) as nat, path));
                }
            }
        }
    }
}

proof fn lemma_vfs_shaped(d: Seq<u8>, h: TvfsManifestHeader, vfs_offset: int, path: Seq<u8>)
    requires
        header_fits(h, d.len() as int),
        valid_utf8(path),
    ensures
        all_shaped(h.ekey_size as int, spec_vfs_entries(d, h, vfs_offset, path).entries),
{
    if let Ok(c) = spec_checked_end(h.vfs_table_offset as int, vfs_offset, vfs_table_end(h), Region::VfsOffset) {
        if c < vfs_table_end(h) && 1 <= d[c as int] <= 224 {
            lemma_spans_shaped(d, h, c + 1, d[c as int] as nat, path);
        }
    }
}

proof fn lemma_walk_shaped(d: Seq<u8>, h: TvfsManifestHeader, cursor: int, end: int, path: Seq<u8>)
    requires
        header_fits(h, d.len() as int),
        valid_utf8(path),
    ensures
        all_shaped(h.ekey_size as int, spec_walk(d, h, cursor, end, path).entries),
    decreases (if cursor < end { end - cursor } else { 0 }),
{
    reveal_with_fuel(spec_walk, 1);
    if 0 <= cursor < end {
        if let Ok(f) = spec_capture(d, cursor, end) {
            lemma_capture_advances(d, cursor, end);
            let name = d.subrange(f.name_start, f.name_end);
            let p = join_fragment(path, f, name);
            lemma_join_valid(path, f, name);
            match f.node_value {
                None => {
                    lemma_walk_shaped(d, h, f.next, end, p);
                },
                Some(nv) => {
                    if nv >= folder_flag() {
                        let folder_len = nv - folder_flag();
                        if folder_len >= 4 {
                            if let Ok(dir_end) = spec_checked_end(f.next, folder_len - 4, end, Region::FolderNode) {
                                lemma_walk_shaped(d, h, f.next, dir_end as int, p);
                                lemma_walk_shaped(d, h, dir_end as int, end, path);
                                lemma_chain_shaped(
                                    h.ekey_size as int,
                                    spec_walk(d, h, f.next, dir_end as int, p),
                                    spec_walk(d, h, dir_end as int, end, path),
                                );
                            }
                        }
                    } else {
                        lemma_walk_shaped(d, h, f.next, end, path);
                        lemma_vfs_shaped(d, h, nv as int, p);
                        lemma_chain_shaped(h.ekey_size as int, spec_vfs_entries(d, h, nv as int, p), spec_walk(d, h, f.next, end, path));
                    }
                },
            }
        }
    }
}

/// Every entry of a parsed manifest is well shaped: its path does not end with
/// `/`, its generic-name fields are what parsing its path as a WoW generic name
/// gives, and its encoding key is the manifest's key width of bytes from the
/// container file table, padded with zeros to 16.
pub proof fn lemma_manifest_entries_shaped(d: Seq<u8>)
    ensures
        spec_parse_manifest(d) matches Ok((h, es)) ==> all_shaped(h.ekey_size as int, es),
{
    if let Ok(h) = spec_parse_header(d) {
        crate::header::lemma_parsed_header_fits(d);
        let start = h.path_table_offset as int;
        let path_end = start + h.path_table_size;
        assert(valid_utf8(Seq::<u8>::empty()));
        lemma_walk_shaped(d, h, start, path_end, seq![]);
        let nv = be_u32(d, start + 1);
        if nv >= folder_flag() {
            if let Ok(root_end) = spec_checked_end(start + 1, nv - folder_flag(), d.len() as int, Region::RootFolder) {
                lemma_walk_shaped(d, h, start + 5, root_end as int, seq![]);
            }
        }
    }
}

/// A file record (no separators: a length, the name, `0xff` and a VFS node
/// value) adds the entries of its VFS record under the directory path followed by
/// its name, and the walk goes on after it under the same directory path as
/// before: an earlier sibling file never changes a later record's path.
pub proof fn lemma_file_record_keeps_directory(d: Seq<u8>, h: TvfsManifestHeader, cursor: int, end: int, path: Seq<u8>)
    requires
        0 <= cursor,
        end <= d.len() <= usize::MAX,
        d[cursor] != 0 && d[cursor] != 0xff,
        cursor + d[cursor] + 6 <= end,
        d[cursor + d[cursor] + 1] == 0xff,
        word_at(d, cursor + d[cursor] + 2) < 0x8000_0000,
        valid_utf8(d.subrange(cursor + 1, cursor + 1 + d[cursor])),
    ensures
        spec_walk(d, h, cursor, end, path) == chain(
            spec_vfs_entries(
                d,
                h,
                word_at(d, cursor + d[cursor] + 2),
                path + d.subrange(cursor + 1, cursor + 1 + d[cursor]),
            ),
            spec_walk(d, h, cursor + d[cursor] + 6, end, path),
        ),
{
    reveal_with_fuel(spec_walk, 1);
    lemma_word_at(d, cursor + d[cursor] + 2);
}

/// A folder record (no separators: a length, the name, `0xff` and a folder node
/// value whose low 31 bits give the folder's length, counting its 4-byte node
/// value) walks the folder's records under the directory path followed by its
/// name, then goes on after the folder under the same directory path as before.
pub proof fn lemma_folder_record_keeps_directory(d: Seq<u8>, h: TvfsManifestHeader, cursor: int, end: int, path: Seq<u8>)
    requires
        0 <= cursor,
        end <= d.len() <= usize::MAX,
        d[cursor] != 0 && d[cursor] != 0xff,
        d[cursor + d[cursor] + 1] == 0xff,
        word_at(d, cursor + d[cursor] + 2) >= 0x8000_0004,
        cursor + d[cursor] + 6 + (word_at(d, cursor + d[cursor] + 2) - 0x8000_0004) <= end,
        valid_utf8(d.subrange(cursor + 1, cursor + 1 + d[cursor])),
    ensures
        spec_walk(d, h, cursor, end, path) == chain(
            spec_walk(
                d,
                h,
                cursor + d[cursor] + 6,
                cursor + d[cursor] + 6 + (word_at(d, cursor + d[cursor] + 2) - 0x8000_0004),
                path + d.subrange(cursor + 1, cursor + 1 + d[cursor]),
            ),
            spec_walk(d, h, cursor + d[cursor] + 6 + (word_at(d, cursor + d[cursor] + 2) - 0x8000_0004), end, path),
        ),
{
    reveal_with_fuel(spec_walk, 1);
    lemma_word_at(d, cursor + d[cursor] + 2);
}

/// A file record whose name is preceded by the `0x00` separator is placed under
/// the directory path, then exactly one `/` (none when the path is empty or
/// already ends with `/`), then its name; the walk goes on after it under the
/// directory path as before.
pub proof fn lemma_separator_adds_one_slash(d: Seq<u8>, h: TvfsManifestHeader, cursor: int, end: int, path: Seq<u8>)
    requires
        0 <= cursor,
        end <= d.len() <= usize::MAX,
        d[cursor] == 0,
        d[cursor + 1] != 0xff,
        cursor + d[cursor + 1] + 7 <= end,
        d[cursor + d[cursor + 1] + 2] == 0xff,
        word_at(d, cursor + d[cursor + 1] + 3) < 0x8000_0000,
        valid_utf8(d.subrange(cursor + 2, cursor + 2 + d[cursor + 1])),
    ensures
        spec_walk(d, h, cursor, end, path) == chain(
            spec_vfs_entries(
                d,
                h,
                word_at(d, cursor + d[cursor + 1] + 3),
                (if path.len() > 0 && path.last() != 0x2f { path.push(0x2f) } else { path })
                    + d.subrange(cursor + 2, cursor + 2 + d[cursor + 1]),
            ),
            spec_walk(d, h, cursor + d[cursor + 1] + 7, end, path),
        ),
{
    reveal_with_fuel(spec_walk, 1);
    lemma_word_at(d, cursor + d[cursor + 1] + 3);
}

/// A VFS record holding a span count from 1 to 224 is followed by that many
/// span records.
pub proof fn lemma_vfs_record_layout(d: Seq<u8>, h: TvfsManifestHeader, vfs_offset: int, path: Seq<u8>)
    requires
        header_fits(h, d.len() as int),
        d.len() <= usize::MAX,
        0 <= vfs_offset,
        h.vfs_table_offset + vfs_offset < h.vfs_table_offset + h.vfs_table_size,
        1 <= d[h.vfs_table_offset + vfs_offset] <= 224,
    ensures
        spec_vfs_entries(d, h, vfs_offset, path) == spec_spans(
            d,
            h,
            h.vfs_table_offset + vfs_offset + 1,
            d[h.vfs_table_offset + vfs_offset] as nat,
            path,
        ),
{
}

/// A span record is the file offset (4 bytes), the span size (4 bytes) and the
/// container file table offset, whose width is what addresses the whole container
/// file table (1 byte up to 0xff bytes, 2 up to 0xffff, 3 up to 0xffffff, else 4),
/// whatever the VFS table's size. Its entry's encoding key is the `ekey_size`
/// bytes at that offset into the container file table, and the next span record
/// follows directly.
pub proof fn lemma_span_record_layout(d: Seq<u8>, h: TvfsManifestHeader, cursor: int, count: nat, path: Seq<u8>, width: int)
    requires
        header_fits(h, d.len() as int),
        d.len() <= usize::MAX,
        count >= 1,
        0 <= cursor,
        width == (if h.cft_table_size == 0 {
            0int
        } else if h.cft_table_size <= 0xff {
            1int
        } else if h.cft_table_size <= 0xffff {
            2int
        } else if h.cft_table_size <= 0xff_ffff {
            3int
        } else {
            4int
        }),
        cursor + 8 + width <= h.vfs_table_offset + h.vfs_table_size,
        h.cft_table_offset + be_uint(d.subrange(cursor + 8, cursor + 8 + width)) + h.ekey_size
            <= h.cft_table_offset + h.cft_table_size,
    ensures
        ({
            let o = spec_spans(d, h, cursor, count, path);
            let key_start = h.cft_table_offset + be_uint(d.subrange(cursor + 8, cursor + 8 + width));
            &&& o.entries.len() >= 1
            &&& o.entries[0].encoding_key.subrange(0, h.ekey_size as int) == d.subrange(key_start, key_start + h.ekey_size)
            &&& o.entries[0].file_offset == word_at(d, cursor)
            &&& o.entries[0].file_size == word_at(d, cursor + 4)
            &&& (valid_utf8(path) ==> encode_utf8(o.entries[0].path) == trim_slashes(path))
            &&& o == chain(found(seq![o.entries[0]]), spec_spans(d, h, cursor + 8 + width, (count - 1) as nat, path))
        }),
{
    lemma_word_at(d, cursor);
    lemma_word_at(d, cursor + 4);
    let key_start = h.cft_table_offset + be_uint(d.subrange(cursor + 8, cursor + 8 + width));
    let ekey = d.subrange(key_start, key_start + h.ekey_size);
    let e = make_entry(path, ekey, cft_content_key(d, h, key_start), be_u32(d, cursor), be_u32(d, cursor + 4));
    lemma_entry_keys_from_table(path, ekey, cft_content_key(d, h, key_start), be_u32(d, cursor), be_u32(d, cursor + 4));
    let rest = spec_spans(d, h, cursor + 8 + width, (count - 1) as nat, path);
    if valid_utf8(path) {
        lemma_trim_valid(path);
        vstd::utf8::decode_utf8_encode_utf8(trim_slashes(path));
    }
    assert(spec_spans(d, h, cursor, count, path) == chain(found(seq![e]), rest));
    assert((seq![e] + rest.entries)[0] == e);
}

/// A VFS record whose span count is 0 or above 224 gives no entries.
pub proof fn lemma_vfs_record_without_spans(d: Seq<u8>, h: TvfsManifestHeader, vfs_offset: int, path: Seq<u8>)
    requires
        header_fits(h, d.len() as int),
        d.len() <= usize::MAX,
        0 <= vfs_offset,
        h.vfs_table_offset + vfs_offset < h.vfs_table_offset + h.vfs_table_size,
        d[h.vfs_table_offset + vfs_offset] == 0 || d[h.vfs_table_offset + vfs_offset] > 224,
    ensures
        spec_vfs_entries(d, h, vfs_offset, path) == found(seq![]),
{
}

/// A folder record whose name is followed by the `0x00` separator walks the
/// folder's records under the directory path, its name and one `/` (none when the
/// name already ends with `/`), then goes on under the directory path as before.
pub proof fn lemma_folder_separator_after_name(d: Seq<u8>, h: TvfsManifestHeader, cursor: int, end: int, path: Seq<u8>)
    requires
        0 <= cursor,
        end <= d.len() <= usize::MAX,
        d[cursor] != 0 && d[cursor] != 0xff,
        d[cursor + d[cursor] + 1] == 0,
        d[cursor + d[cursor] + 2] == 0xff,
        word_at(d, cursor + d[cursor] + 3) >= 0x8000_0004,
        cursor + d[cursor] + 7 + (word_at(d, cursor + d[cursor] + 3) - 0x8000_0004) <= end,
        valid_utf8(d.subrange(cursor + 1, cursor + 1 + d[cursor])),
    ensures
        ({
            let named = path + d.subrange(cursor + 1, cursor + 1 + d[cursor]);
            let dir_end = cursor + d[cursor] + 7 + (word_at(d, cursor + d[cursor] + 3) - 0x8000_0004);
            spec_walk(d, h, cursor, end, path) == chain(
                spec_walk(
                    d,
                    h,
                    cursor + d[cursor] + 7,
                    dir_end,
                    if named.len() > 0 && named.last() == 0x2f { named } else { named.push(0x2f) },
                ),
                spec_walk(d, h, dir_end, end, path),
            )
        }),
{
    let n = d[cursor] as int;
    let name = d.subrange(cursor + 1, cursor + 1 + n);
    let named = path + name;
    lemma_word_at(d, cursor + n + 3);
    let f = Fragment {
        name_start: cursor + 1,
        name_end: cursor + 1 + n,
        separator_pre: false,
        separator_post: true,
        node_value: Some(be_u32(d, cursor + n + 3)),
        next: cursor + n + 7,
    };
    assert(spec_capture(d, cursor, end) == Ok::<Fragment, TvfsError>(f));
    assert(join_fragment(path, f, name) == (if named.len() > 0 && named.last() == 0x2f { named } else { named.push(0x2f) }));
    reveal_with_fuel(spec_walk, 1);
}

/// The path table is walked from its start under the empty path, unless it
/// starts with `0xff` and a 4-byte node value: that value must mark a folder,
/// and its low 31 bits give the root folder's length counted from the node
/// value; the walk then covers the records after the node value, within it.
pub proof fn lemma_root_folder(d: Seq<u8>, h: TvfsManifestHeader)
    requires
        header_fits(h, d.len() as int),
        d.len() <= usize::MAX,
    ensures
        ({
            let start = h.path_table_offset as int;
            let end = start + h.path_table_size;
            &&& !(start + 5 <= end && d[start] == 0xff) ==> spec_walk_table(d, h) == spec_walk(d, h, start, end, seq![])
            &&& start + 5 <= end && d[start] == 0xff && word_at(d, start + 1) < 0x8000_0000
                ==> spec_walk_table(d, h) == failed(TvfsError::InvalidPathNode(start as usize, PathNodeIssue::RootNotFolder))
            &&& start + 5 <= end && d[start] == 0xff && word_at(d, start + 1) >= 0x8000_0000
                && start + 1 + (word_at(d, start + 1) - 0x8000_0000) <= d.len()
                ==> spec_walk_table(d, h) == spec_walk(
                    d,
                    h,
                    start + 5,
                    start + 1 + (word_at(d, start + 1) - 0x8000_0000),
                    seq![],
                )
        }),
{
    let start = h.path_table_offset as int;
    if start + 5 <= start + h.path_table_size {
        lemma_word_at(d, start + 1);
    }
}

} // verus!
