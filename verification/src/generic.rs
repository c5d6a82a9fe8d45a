//! WoW "generic" manifest path names, which carry a file's metadata:
//! `FFFFFFFFCCCCCCCCCCCCCCCCCCCCCCCCCCCCCCCC` (file data ID, content key) or
//! `LLLLLLLLFFFF[FFFF]:IIIIIIIICCCCCCCCCCCCCCCCCCCCCCCCCCCCCCCC...` (locale flags,
//! content flags, file data ID, content key), all hexadecimal.

use vstd::prelude::*;
use vstd::string::StringSliceAdditionalSpecFns;
use crate::keys::{parse_hex_u32, spec_hex_key, spec_parse_hex_u32, ContentKey};

verus! {

/// ASCII `/`.
pub open spec fn slash() -> u8 {
    0x2f
}

/// `p` without its trailing `/` bytes.
pub open spec fn trim_slashes(p: Seq<u8>) -> Seq<u8>
    decreases p.len(),
{
    if p.len() > 0 && p.last() == slash() {
        trim_slashes(p.drop_last())
    } else {
        p
    }
}

/// Index of the first `:` in `p` at or after `i`.
pub open spec fn colon_from(p: Seq<u8>, i: int) -> Option<int>
    decreases p.len() - i,
{
    if i < 0 || i >= p.len() {
        None
    } else if p[i] == 0x3a {
        Some(i)
    } else {
        colon_from(p, i + 1)
    }
}

/// Metadata carried by a generic path name.
pub struct GenericName {
    pub locale_flags: u32,
    pub content_flags: u32,
    pub file_data_id: u32,
    pub content_key: Seq<u8>,
}

/// The metadata a generic path name spells, if the (slash-trimmed) path is one:
/// 40 bytes of file data ID and content key; or a 12- or 16-byte flags prefix,
/// `:`, and at least 40 bytes starting with the file data ID and content key.
pub open spec fn spec_wow_generic(path: Seq<u8>) -> Option<GenericName> {
    let p = trim_slashes(path);
    if p.len() == 40 {
        match (spec_parse_hex_u32(p.subrange(0, 8)), spec_hex_key(p.subrange(8, 40))) {
            (Some(id), Some(key)) => Some(
                GenericName { locale_flags: 0, content_flags: 0, file_data_id: id, content_key: key },
            ),
            _ => None,
        }
    } else {
        match colon_from(p, 0) {
            None => None,
            Some(c) => {
                let prefix = p.subrange(0, c);
                let payload = p.subrange(c + 1, p.len() as int);
                if !(prefix.len() == 12 || prefix.len() == 16) || payload.len() < 40 {
                    None
                } else {
                    match (
                        spec_parse_hex_u32(prefix.subrange(0, 8)),
                        spec_parse_hex_u32(prefix.subrange(8, prefix.len() as int)),
                        spec_parse_hex_u32(payload.subrange(0, 8)),
                        spec_hex_key(payload.subrange(8, 40)),
                    ) {
                        (Some(locale), Some(flags), Some(id), Some(key)) => Some(
                            GenericName {
                                locale_flags: locale,
                                content_flags: flags,
                                file_data_id: id,
                                content_key: key,
                            },
                        ),
                        _ => None,
                    }
                }
            },
        }
    }
}

/// Metadata parsed from a WoW generic path name.
#[derive(Debug, Clone, Copy, PartialEq, Eq)]
pub struct WowGenericPath {
    pub locale_flags: u32,
    pub content_flags: u32,
    pub file_data_id: u32,
    pub content_key: ContentKey,
}

impl View for WowGenericPath {
    type V = GenericName;

    open spec fn view(&self) -> GenericName {
        GenericName {
            locale_flags: self.locale_flags,
            content_flags: self.content_flags,
            file_data_id: self.file_data_id,
            content_key: self.content_key@,
        }
    }
}

/// The view of an optional generic path.
pub open spec fn generic_view(g: Option<WowGenericPath>) -> Option<GenericName> {
    match g {
        Some(g) => Some(g@),
        None => None,
    }
}

/// Length of `path` without its trailing `/` bytes.
pub fn trimmed_len(path: &[u8]) -> (n: usize)
    ensures
        n <= path@.len(),
        path@.subrange(0, n as int) == trim_slashes(path@),
{
    let mut n = path.len();
    assert(path@.subrange(0, n as int) == path@);
    while n > 0 && path[n - 1] == 0x2f
        invariant
            n <= path@.len(),
            trim_slashes(path@.subrange(0, n as int)) == trim_slashes(path@),
        decreases n,
    {
        assert(path@.subrange(0, n as int).drop_last() == path@.subrange(0, n - 1));
        n = n - 1;
    }
    n
}

/// Index of the first `:` in `p[..end]`.
fn find_colon(p: &[u8], end: usize) -> (r: Option<usize>)
    requires
        end <= p@.len(),
    ensures
        match colon_from(p@.subrange(0, end as int), 0) {
            Some(c) => 0 <= c < end && r == Some(c as usize),
            None => r is None,
        },
{
    let ghost s = p@.subrange(0, end as int);
    let mut i: usize = 0;
    while i < end
        invariant
            i <= end <= p@.len(),
            s == p@.subrange(0, end as int),
            colon_from(s, 0) == colon_from(s, i as int),
        decreases end - i,
    {
        assert(s[i as int] == p@[i as int]);
        if p[i] == 0x3a {
            return Some(i);
        }
        i = i + 1;
    }
    None
}

/// Parses the metadata from a generic path held as bytes. Field boundaries that
/// fall inside a multi-byte character give `None`.
pub fn parse_wow_generic_bytes(path: &[u8]) -> (r: Option<WowGenericPath>)
    ensures
        generic_view(r) == spec_wow_generic(path@),
{
    let n = trimmed_len(path);
    let ghost p = trim_slashes(path@);
    assert(p == path@.subrange(0, n as int));
    if n == 40 {
        assert(p.subrange(0, 8) =~= path@.subrange(0, 8));
        assert(p.subrange(8, 40) =~= path@.subrange(8, 40));
        let id = parse_hex_u32(path, 0, 8);
        let key = ContentKey::from_hex_at(path, 8);
        return match (id, key) {
            (Some(file_data_id), Some(content_key)) => Some(
                WowGenericPath { locale_flags: 0, content_flags: 0, file_data_id, content_key },
            ),
            _ => None,
        };
    }
    let colon = find_colon(path, n);
    match colon {
        None => None,
        Some(c) => {
            let prefix_len = c;
            let payload_len = n - c - 1;
            if !(prefix_len == 12 || prefix_len == 16) || payload_len < 40 {
                return None;
            }
            let ghost prefix = p.subrange(0, c as int);
            let ghost payload = p.subrange(c + 1, p.len() as int);
            assert(prefix.subrange(0, 8) =~= path@.subrange(0, 8));
            assert(prefix.subrange(8, prefix.len() as int) =~= path@.subrange(8, c as int));
            assert(payload.subrange(0, 8) =~= path@.subrange(c + 1, c + 9));
            assert(payload.subrange(8, 40) =~= path@.subrange(c + 9, c + 41));
            let locale = parse_hex_u32(path, 0, 8);
            let flags = parse_hex_u32(path, 8, c);
            let id = parse_hex_u32(path, c + 1, c + 9);
            let key = ContentKey::from_hex_at(path, c + 9);
            match (locale, flags, id, key) {
                (Some(locale_flags), Some(content_flags), Some(file_data_id), Some(content_key)) => Some(
                    WowGenericPath { locale_flags, content_flags, file_data_id, content_key },
                ),
                _ => None,
            }
        },
    }
}

/// Parses the metadata from a WoW generic path name, ignoring trailing `/`.
///
/// The path is read as bytes: where a field boundary (byte 8, byte 40, or the
/// split around `:`) falls inside a multi-byte character, the fields cannot be
/// hexadecimal and the result is `None`; slicing the `str` there would panic.
pub fn parse_wow_generic_path(path: &str) -> (r: Option<WowGenericPath>)
    ensures
        generic_view(r) == spec_wow_generic(path.spec_bytes()),
{
    parse_wow_generic_bytes(path.as_bytes())
}

/// `colon_from` finds the first `:` at or after `i`, or there is none.
proof fn lemma_colon_from(p: Seq<u8>, i: int)
    requires
        0 <= i,
    ensures
        colon_from(p, i) matches Some(c) ==> i <= c < p.len() && p[c] == 0x3a && forall|k: int|
            i <= k < c ==> p[k] != 0x3a,
        colon_from(p, i) is None ==> forall|k: int| i <= k < p.len() ==> p[k] != 0x3a,
    decreases p.len() - i,
{
    if i < p.len() && p[i] != 0x3a {
        lemma_colon_from(p, i + 1);
    }
}

/// `c` is the position of the first `:` in `p`.
pub open spec fn is_first_colon(p: Seq<u8>, c: int) -> bool {
    0 <= c < p.len() && p[c] == 0x3a && forall|k: int| 0 <= k < c ==> p[k] != 0x3a
}

/// What a generic name's fields are, read from the text (trailing `/` removed):
/// a 40-byte name is the file data ID in hex (bytes 0..8) and the content key
/// (bytes 8..40), with zero flags. Any other name parses only when its first `:`
/// is at 12 or 16 with at least 40 bytes after it; the locale flags are then the
/// hex value of bytes 0..8 whatever the prefix length, the content flags that of
/// the rest of the prefix, then the file data ID (8 digits) and the content key
/// (32 digits) follow the `:`. Such a name with all four fields in hex parses.
pub proof fn lemma_generic_fields_from_text(path: Seq<u8>)
    ensures
        spec_wow_generic(path) matches Some(g) ==> (trim_slashes(path).len() == 40 ==> {
            let p = trim_slashes(path);
            &&& g.locale_flags == 0 && g.content_flags == 0
            &&& spec_parse_hex_u32(p.subrange(0, 8)) == Some(g.file_data_id)
            &&& spec_hex_key(p.subrange(8, 40)) == Some(g.content_key)
        }),
        spec_wow_generic(path) is Some && trim_slashes(path).len() != 40 ==> exists|c: int|
            #[trigger] is_first_colon(trim_slashes(path), c),
        forall|c: int| #[trigger]
            is_first_colon(trim_slashes(path), c) && trim_slashes(path).len() != 40 ==> {
                let p = trim_slashes(path);
                &&& spec_wow_generic(path) matches Some(g) ==> {
                    &&& c == 12 || c == 16
                    &&& p.len() >= c + 41
                    &&& spec_parse_hex_u32(p.subrange(0, 8)) == Some(g.locale_flags)
                    &&& spec_parse_hex_u32(p.subrange(8, c)) == Some(g.content_flags)
                    &&& spec_parse_hex_u32(p.subrange(c + 1, c + 9)) == Some(g.file_data_id)
                    &&& spec_hex_key(p.subrange(c + 9, c + 41)) == Some(g.content_key)
                }
                &&& ((c == 12 || c == 16) && p.len() >= c + 41
                    && spec_parse_hex_u32(p.subrange(0, 8)) is Some
                    && spec_parse_hex_u32(p.subrange(8, c)) is Some
                    && spec_parse_hex_u32(p.subrange(c + 1, c + 9)) is Some
                    && spec_hex_key(p.subrange(c + 9, c + 41)) is Some ==> spec_wow_generic(path) is Some)
            },
{
    let p = trim_slashes(path);
    lemma_colon_from(p, 0);
    if p.len() != 40 {
        if let Some(c0) = colon_from(p, 0) {
            assert(is_first_colon(p, c0));
            assert forall|c: int| #[trigger] is_first_colon(p, c) implies c == c0 by {
                if c < c0 {
                    assert(p[c] != 0x3a);
                } else if c0 < c {
                    assert(p[c0] != 0x3a);
                }
            }
            let prefix = p.subrange(0, c0);
            let payload = p.subrange(c0 + 1, p.len() as int);
            if c0 == 12 || c0 == 16 {
                assert(prefix.subrange(0, 8) =~= p.subrange(0, 8));
                assert(prefix.subrange(8, prefix.len() as int) =~= p.subrange(8, c0));
            }
            if payload.len() >= 40 {
                assert(payload.subrange(0, 8) =~= p.subrange(c0 + 1, c0 + 9));
                assert(payload.subrange(8, 40) =~= p.subrange(c0 + 9, c0 + 41));
            }
        } else {
            assert forall|c: int| !#[trigger] is_first_colon(p, c) by {
                if 0 <= c < p.len() {
                    assert(p[c] != 0x3a);
                }
            }
        }
    }
}

} // verus!
