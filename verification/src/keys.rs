//! 16-byte content and encoding keys, and hexadecimal text.

use vstd::prelude::*;
use vstd::string::StringSliceAdditionalSpecFns;
use vstd::utf8::{decode_first_scalar, decode_utf8, pop_first_scalar, valid_utf8};
use crate::text::string_from_utf8;

verus! {

/// The ASCII byte `b` is a hexadecimal digit (`0-9`, `a-f` or `A-F`).
pub open spec fn is_hex_digit(b: u8) -> bool {
    (0x30 <= b <= 0x39) || (0x61 <= b <= 0x66) || (0x41 <= b <= 0x46)
}

/// The value of the hexadecimal digit `b`.
pub open spec fn hex_digit_value(b: u8) -> nat {
    if 0x30 <= b <= 0x39 {
        (b - 0x30) as nat
    } else if 0x61 <= b <= 0x66 {
        (b - 0x61 + 10) as nat
    } else {
        (b - 0x41 + 10) as nat
    }
}

/// Every byte of `s` is a hexadecimal digit.
pub open spec fn all_hex_digits(s: Seq<u8>) -> bool {
    forall|i: int| 0 <= i < s.len() ==> #[trigger] is_hex_digit(s[i])
}

/// The value of a string of hexadecimal digits, most significant first.
pub open spec fn hex_value(s: Seq<u8>) -> nat
    decreases s.len(),
{
    if s.len() == 0 {
        0
    } else {
        hex_value(s.drop_last()) * 16 + hex_digit_value(s.last())
    }
}

/// What `u32::from_str_radix(s, 16)` accepts: an optional `+`, then one or more
/// hexadecimal digits whose value fits in a `u32`.
pub open spec fn spec_parse_hex_u32(s: Seq<u8>) -> Option<u32> {
    let digits = if s.len() > 0 && s[0] == 0x2b { s.drop_first() } else { s };
    if digits.len() > 0 && all_hex_digits(digits) && hex_value(digits) <= u32::MAX {
        Some(hex_value(digits) as u32)
    } else {
        None
    }
}

/// The 16 bytes spelled by exactly 32 hexadecimal digits (two per byte, high
/// digit first, either case).
pub open spec fn spec_hex_key(s: Seq<u8>) -> Option<Seq<u8>> {
    if s.len() == 32 && all_hex_digits(s) {
        Some(Seq::new(16, |i: int| (hex_digit_value(s[2 * i]) * 16 + hex_digit_value(s[2 * i + 1])) as u8))
    } else {
        None
    }
}

/// The lower-case hexadecimal digit for `n < 16`.
pub open spec fn lower_hex_byte(n: int) -> u8 {
    if n < 10 {
        (0x30 + n) as u8
    } else {
        (0x61 + n - 10) as u8
    }
}

/// Lower-case hexadecimal spelling of `b`, two digits per byte, as bytes.
pub open spec fn lower_hex_bytes(b: Seq<u8>) -> Seq<u8> {
    Seq::new(2 * b.len(), |i: int| lower_hex_byte(if i % 2 == 0 { b[i / 2] as int / 16 } else { b[i / 2] as int % 16 }))
}

/// Lower-case hexadecimal spelling of `b`, two characters per byte.
pub open spec fn lower_hex_chars(b: Seq<u8>) -> Seq<char> {
    lower_hex_bytes(b).map_values(|c: u8| c as char)
}

/// Content key: the MD5 of a file's content.
#[derive(Debug, Clone, Copy, PartialEq, Eq, Hash)]
pub struct ContentKey {
    bytes: [u8; 16],
}

/// Encoding key: the MD5 of a file's encoded form; manifests may hold only a prefix.
#[derive(Debug, Clone, Copy, PartialEq, Eq, Hash)]
pub struct EncodingKey {
    bytes: [u8; 16],
}

impl View for ContentKey {
    type V = Seq<u8>;

    closed spec fn view(&self) -> Seq<u8> {
        self.bytes@
    }
}

impl View for EncodingKey {
    type V = Seq<u8>;

    closed spec fn view(&self) -> Seq<u8> {
        self.bytes@
    }
}

/// Value of the hexadecimal digit `b`, if it is one.
fn hex_digit(b: u8) -> (r: Option<u8>)
    ensures
        r is Some <==> is_hex_digit(b),
        r matches Some(v) ==> v == hex_digit_value(b) && v < 16,
{
    if 0x30 <= b && b <= 0x39 {
        Some(b - 0x30)
    } else if 0x61 <= b && b <= 0x66 {
        Some(b - 0x61 + 10)
    } else if 0x41 <= b && b <= 0x46 {
        Some(b - 0x41 + 10)
    } else {
        None
    }
}

/// `u32::from_str_radix(&data[start..end], 16)`, as an `Option`.
pub fn parse_hex_u32(data: &[u8], start: usize, end: usize) -> (r: Option<u32>)
    requires
        start <= end <= data@.len(),
    ensures
        r == spec_parse_hex_u32(data@.subrange(start as int, end as int)),
{
    let ghost s = data@.subrange(start as int, end as int);
    let mut i = start;
    if start < end && data[start] == 0x2b {
        i = start + 1;
    }
    let ghost digits = data@.subrange(i as int, end as int);
    assert(digits == (if s.len() > 0 && s[0] == 0x2b { s.drop_first() } else { s }));
    if i == end {
        return None;
    }
    let first = i;
    let mut value: u64 = 0;
    while i < end
        invariant
            start <= first <= i <= end <= data@.len(),
            digits == data@.subrange(first as int, end as int),
            s == data@.subrange(start as int, end as int),
            digits == (if s.len() > 0 && s[0] == 0x2b { s.drop_first() } else { s }),
            all_hex_digits(data@.subrange(first as int, i as int)),
            value == hex_value(data@.subrange(first as int, i as int)),
            value <= u32::MAX,
        decreases end - i,
    {
        let ghost before = data@.subrange(first as int, i as int);
        assert(data@.subrange(first as int, i + 1).drop_last() == before);
        match hex_digit(data[i]) {
            None => {
                assert(digits[i - first] == data@[i as int]);
                assert(!is_hex_digit(digits[i - first]));
                return None;
            },
            Some(d) => {
                let next = value * 16 + d as u64;
                if next > 0xffff_ffff {
                    proof {
                        assert(data@.subrange(first as int, i + 1) =~= digits.subrange(0, i + 1 - first));
                        lemma_hex_value_prefix(digits, i + 1 - first);
                    }
                    return None;
                }
                value = next;
                i = i + 1;
                assert forall|k: int| 0 <= k < data@.subrange(first as int, i as int).len() implies
                    #[trigger] is_hex_digit(data@.subrange(first as int, i as int)[k]) by {
                    if k < before.len() {
                        assert(before[k] == data@.subrange(first as int, i as int)[k]);
                    }
                }
            },
        }
    }
    assert(data@.subrange(first as int, i as int) == digits);
    Some(value as u32)
}

/// A string's hexadecimal value is at least that of any prefix of it.
proof fn lemma_hex_value_prefix(s: Seq<u8>, k: int)
    requires
        0 <= k <= s.len(),
    ensures
        hex_value(s.subrange(0, k)) <= hex_value(s),
    decreases s.len(),
{
    if k < s.len() {
        assert(s.drop_last().subrange(0, k) == s.subrange(0, k));
        lemma_hex_value_prefix(s.drop_last(), k);
    } else {
        assert(s.subrange(0, k) == s);
    }
}

/// The key spelled by the 32 hexadecimal digits at `data[start..start + 32]`.
fn parse_hex_key(data: &[u8], start: usize) -> (r: Option<[u8; 16]>)
    requires
        start + 32 <= data@.len(),
    ensures
        r is Some <==> spec_hex_key(data@.subrange(start as int, start + 32)) is Some,
        r matches Some(k) ==> k@ == spec_hex_key(data@.subrange(start as int, start + 32))->0,
{
    let ghost s = data@.subrange(start as int, start + 32);
    let mut out = [0u8; 16];
    let mut i: usize = 0;
    let len = data.len();
    while i < 16
        invariant
            i <= 16,
            len == data@.len(),
            start + 32 <= data@.len(),
            s == data@.subrange(start as int, start + 32),
            forall|k: int| 0 <= k < 2 * i ==> #[trigger] is_hex_digit(s[k]),
            forall|k: int| 0 <= k < i ==> #[trigger] out@[k] == (hex_digit_value(s[2 * k]) * 16
                + hex_digit_value(s[2 * k + 1])) as u8,
        decreases 16 - i,
    {
        let hi = hex_digit(data[start + 2 * i]);
        let lo = hex_digit(data[start + 2 * i + 1]);
        assert(s[2 * i] == data@[start + 2 * i]);
        assert(s[2 * i + 1] == data@[start + 2 * i + 1]);
        match (hi, lo) {
            (Some(h), Some(l)) => {
                out[i] = h * 16 + l;
                i = i + 1;
            },
            _ => {
                return None;
            },
        }
    }
    assert(out@ =~= spec_hex_key(s)->0);
    Some(out)
}

impl ContentKey {
    /// Parses 32 hexadecimal digits (either case) into a key.
    pub fn from_hex(hex: &str) -> (r: Option<ContentKey>)
        ensures
            r is Some <==> spec_hex_key(hex.spec_bytes()) is Some,
            r matches Some(k) ==> k@ == spec_hex_key(hex.spec_bytes())->0,
    {
        let bytes = hex.as_bytes();
        if bytes.len() != 32 {
            return None;
        }
        assert(bytes@.subrange(0, 32) == bytes@);
        match parse_hex_key(bytes, 0) {
            Some(k) => Some(ContentKey { bytes: k }),
            None => None,
        }
    }

    /// Parses the 32 hexadecimal digits at `data[start..start + 32]`.
    pub fn from_hex_at(data: &[u8], start: usize) -> (r: Option<ContentKey>)
        requires
            start + 32 <= data@.len(),
        ensures
            r is Some <==> spec_hex_key(data@.subrange(start as int, start + 32)) is Some,
            r matches Some(k) ==> k@ == spec_hex_key(data@.subrange(start as int, start + 32))->0,
    {
        match parse_hex_key(data, start) {
            Some(k) => Some(ContentKey { bytes: k }),
            None => None,
        }
    }

    /// Wraps 16 raw bytes.
    pub fn from_bytes(bytes: [u8; 16]) -> (k: ContentKey)
        ensures
            k@ == bytes@,
    {
        ContentKey { bytes }
    }

    /// The key's 16 bytes.
    pub fn as_bytes(&self) -> (b: &[u8; 16])
        ensures
            b@ == self@,
    {
        &self.bytes
    }

    /// Lower-case hexadecimal spelling of the key (32 characters).
    pub fn to_hex(&self) -> (s: String)
        ensures
            s@ == lower_hex_chars(self@),
    {
        let mut out: Vec<u8> = Vec::new();
        let mut i: usize = 0;
        while i < 16
            invariant
                i <= 16,
                out@.len() == 2 * i,
                forall|k: int| 0 <= k < 2 * i ==> #[trigger] out@[k] == lower_hex_bytes(self@)[k],
            decreases 16 - i,
        {
            let b = self.bytes[i];
            out.push(lower_hex_digit(b / 16));
            out.push(lower_hex_digit(b % 16));
            i = i + 1;
        }
        assert(out@ =~= lower_hex_bytes(self@));
        proof {
            lemma_ascii_decode(out@);
        }
        match string_from_utf8(out) {
            Some(s) => s,
            None => {
                assert(false);
                String::new()
            },
        }
    }
}

/// The lower-case hexadecimal digit for `n < 16`.
fn lower_hex_digit(n: u8) -> (c: u8)
    requires
        n < 16,
    ensures
        c == lower_hex_byte(n as int),
{
    if n < 10 {
        0x30 + n
    } else {
        0x61 + n - 10
    }
}

/// ASCII bytes are well-formed UTF-8 and decode to the same characters.
pub proof fn lemma_ascii_decode(b: Seq<u8>)
    requires
        forall|i: int| 0 <= i < b.len() ==> #[trigger] b[i] < 0x80,
    ensures
        valid_utf8(b),
        decode_utf8(b) == b.map_values(|c: u8| c as char),
    decreases b.len(),
{
    if b.len() > 0 {
        let b0 = b[0];
        assert((b0 & 0x7f) == b0) by (bit_vector)
            requires
                b0 < 0x80,
        ;
        let rest = pop_first_scalar(b);
        assert(rest =~= b.drop_first());
        lemma_ascii_decode(rest);
        assert(decode_first_scalar(b) == b0 as u32);
        assert(decode_utf8(b) =~= b.map_values(|c: u8| c as char));
    }
}

impl EncodingKey {
    /// Wraps 16 raw bytes.
    pub fn from_bytes(bytes: [u8; 16]) -> (k: EncodingKey)
        ensures
            k@ == bytes@,
    {
        EncodingKey { bytes }
    }

    /// The key's 16 bytes.
    pub fn as_bytes(&self) -> (b: &[u8; 16])
        ensures
            b@ == self@,
    {
        &self.bytes
    }
}

/// The text of a lower-case hexadecimal spelling, encoded as UTF-8, is the
/// spelling's own bytes (all ASCII).
pub proof fn lemma_lower_hex_encoding(b: Seq<u8>)
    ensures
        vstd::utf8::encode_utf8(lower_hex_chars(b)) == lower_hex_bytes(b),
{
    let bytes = lower_hex_bytes(b);
    let chars = lower_hex_chars(b);
    assert forall|i: int| 0 <= i < bytes.len() implies #[trigger] bytes[i] < 0x80 by {
        let n = if i % 2 == 0 { b[i / 2] as int / 16 } else { b[i / 2] as int % 16 };
        assert(0 <= n < 16);
    }
    lemma_ascii_decode(bytes);
    assert(decode_utf8(bytes) == chars);
    vstd::utf8::decode_utf8_encode_utf8(bytes);
}

/// Spelling a key in lower-case hexadecimal and parsing that spelling back
/// gives the same 16 bytes.
pub proof fn lemma_hex_roundtrip(b: Seq<u8>)
    requires
        b.len() == 16,
    ensures
        spec_hex_key(lower_hex_bytes(b)) == Some(b),
        spec_hex_key(vstd::utf8::encode_utf8(lower_hex_chars(b))) == Some(b),
{
    let s = lower_hex_bytes(b);
    assert forall|i: int| 0 <= i < s.len() implies #[trigger] is_hex_digit(s[i])
        && hex_digit_value(s[i]) == (if i % 2 == 0 { b[i / 2] as int / 16 } else { b[i / 2] as int % 16 }) by {
        let n = if i % 2 == 0 { b[i / 2] as int / 16 } else { b[i / 2] as int % 16 };
        assert(0 <= n < 16);
    }
    assert forall|i: int| 0 <= i < 16 implies (hex_digit_value(s[2 * i]) * 16 + hex_digit_value(s[2 * i + 1])) as u8
        == #[trigger] b[i] by {
        assert((2 * i) % 2 == 0 && (2 * i) / 2 == i);
        assert((2 * i + 1) % 2 == 1 && (2 * i + 1) / 2 == i);
        let x = b[i] as int;
        assert(x / 16 * 16 + x % 16 == x) by (nonlinear_arith);
    }
    assert(spec_hex_key(s)->0 =~= b);
    lemma_lower_hex_encoding(b);
}

/// A key's hexadecimal text parses back to the same key.
pub proof fn lemma_content_key_hex_roundtrip(k: ContentKey)
    ensures
        spec_hex_key(vstd::utf8::encode_utf8(lower_hex_chars(k@))) == Some(k@),
{
    assert(k@.len() == 16);
    lemma_hex_roundtrip(k@);
}

} // verus!
