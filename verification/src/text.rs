//! UTF-8 checks on raw path bytes, and the conversion of checked bytes to `String`.

use vstd::prelude::*;
use vstd::utf8::{
    codepoint_width_2, codepoint_width_3, codepoint_width_4, decode_utf8, is_continuation_byte,
    length_of_first_scalar, partial_valid_partial_invalid_utf8, partial_valid_utf8,
    partial_valid_utf8_extend, pop_first_scalar, valid_first_scalar, valid_utf8,
};

verus! {

/// Whether `data[i..end]` begins with a well-formed encoding of one scalar,
/// and if so its length.
fn first_scalar_len(data: &[u8], i: usize, end: usize) -> (r: Option<usize>)
    requires
        i < end <= data@.len(),
    ensures
        r is Some <==> valid_first_scalar(data@.subrange(i as int, end as int)),
        r matches Some(n) ==> n == vstd::utf8::length_of_first_scalar(data@.subrange(i as int, end as int)),
{
    let ghost s = data@.subrange(i as int, end as int);
    let b0 = data[i];
    if b0 <= 0x7f {
        assert(((b0 & 0x7f) as u32) <= 0x7f) by (bit_vector);
        Some(1)
    } else if 0xc0 <= b0 && b0 <= 0xdf {
        if end - i < 2 {
            return None;
        }
        let b1 = data[i + 1];
        assert(s[1] == b1);
        if !(0x80 <= b1 && b1 <= 0xbf) {
            return None;
        }
        let cp: u32 = (((b0 & 0x1f) as u32) << 6) | ((b1 & 0x3f) as u32);
        assert(cp == codepoint_width_2(b0, b1));
        assert(cp <= 0x7ff) by (bit_vector)
            requires
                cp == (((b0 & 0x1f) as u32) << 6) | ((b1 & 0x3f) as u32),
        ;
        if cp >= 0x80 {
            Some(2)
        } else {
            None
        }
    } else if 0xe0 <= b0 && b0 <= 0xef {
        if end - i < 3 {
            return None;
        }
        let b1 = data[i + 1];
        let b2 = data[i + 2];
        assert(s[1] == b1 && s[2] == b2);
        if !(0x80 <= b1 && b1 <= 0xbf && 0x80 <= b2 && b2 <= 0xbf) {
            return None;
        }
        let cp: u32 = (((b0 & 0x0f) as u32) << 12) | (((b1 & 0x3f) as u32) << 6) | ((b2
            & 0x3f) as u32);
        assert(cp == codepoint_width_3(b0, b1, b2));
        if cp >= 0x800 && !(0xd800 <= cp && cp <= 0xdfff) {
            Some(3)
        } else {
            None
        }
    } else if 0xf0 <= b0 && b0 <= 0xf7 {
        if end - i < 4 {
            return None;
        }
        let b1 = data[i + 1];
        let b2 = data[i + 2];
        let b3 = data[i + 3];
        assert(s[1] == b1 && s[2] == b2 && s[3] == b3);
        if !(0x80 <= b1 && b1 <= 0xbf && 0x80 <= b2 && b2 <= 0xbf && 0x80 <= b3 && b3 <= 0xbf) {
            return None;
        }
        let cp: u32 = (((b0 & 0x07) as u32) << 18) | (((b1 & 0x3f) as u32) << 12) | (((b2
            & 0x3f) as u32) << 6) | ((b3 & 0x3f) as u32);
        assert(cp == codepoint_width_4(b0, b1, b2, b3));
        if 0x10000 <= cp && cp <= 0x10ffff {
            Some(4)
        } else {
            None
        }
    } else {
        None
    }
}

/// The number of leading bytes that decode as whole scalars: decoding from the
/// front stops at the first byte where no well-formed scalar begins.
pub open spec fn spec_valid_up_to(s: Seq<u8>) -> int
    decreases s.len(),
{
    if s.len() > 0 && valid_first_scalar(s) {
        let k = length_of_first_scalar(s);
        if 1 <= k <= s.len() {
            k + spec_valid_up_to(s.subrange(k, s.len() as int))
        } else {
            0
        }
    } else {
        0
    }
}

/// The number of bytes a sequence starting with `b0` has in well-formed UTF-8;
/// 0 where `b0` starts none.
pub open spec fn sequence_width(b0: u8) -> int {
    if b0 <= 0x7f {
        1
    } else if 0xc2 <= b0 <= 0xdf {
        2
    } else if 0xe0 <= b0 <= 0xef {
        3
    } else if 0xf0 <= b0 <= 0xf4 {
        4
    } else {
        0
    }
}

/// Whether `b1` may follow the leading byte `b0` in well-formed UTF-8: the
/// continuation range, narrowed after `E0`, `ED`, `F0` and `F4`.
pub open spec fn second_byte_ok(b0: u8, b1: u8) -> bool {
    if b0 == 0xe0 {
        0xa0 <= b1 <= 0xbf
    } else if b0 == 0xed {
        0x80 <= b1 <= 0x9f
    } else if b0 == 0xf0 {
        0x90 <= b1 <= 0xbf
    } else if b0 == 0xf4 {
        0x80 <= b1 <= 0x8f
    } else {
        is_continuation_byte(b1)
    }
}

/// The length of the longest prefix of `t` (at most one sequence) that is the
/// start of a well-formed UTF-8 sequence.
pub open spec fn well_formed_prefix_len(t: Seq<u8>) -> int {
    let w = sequence_width(t[0]);
    if w == 0 {
        0
    } else if w == 1 || t.len() < 2 || !second_byte_ok(t[0], t[1]) {
        1
    } else if w == 2 || t.len() < 3 || !is_continuation_byte(t[2]) {
        2
    } else if w == 3 || t.len() < 4 || !is_continuation_byte(t[3]) {
        3
    } else {
        4
    }
}

/// For bytes `t` at which decoding stopped: `None` when `t` ends inside a
/// sequence that is well formed so far, otherwise the length of the invalid
/// sequence, that is of the longest well-formed start (at least one byte).
pub open spec fn spec_error_len(t: Seq<u8>) -> Option<u8> {
    let k = well_formed_prefix_len(t);
    if k == t.len() && k < sequence_width(t[0]) {
        None
    } else if k == 0 {
        Some(1u8)
    } else {
        Some(k as u8)
    }
}

/// The error detail for `data[i..end]`, where decoding stopped at `i`.
fn error_len_at(data: &[u8], i: usize, end: usize) -> (r: Option<u8>)
    requires
        i < end <= data@.len(),
    ensures
        r == spec_error_len(data@.subrange(i as int, end as int)),
{
    let ghost t = data@.subrange(i as int, end as int);
    let avail = end - i;
    let b0 = data[i];
    assert(t[0] == b0);
    let w: usize = if b0 <= 0x7f {
        1
    } else if 0xc2 <= b0 && b0 <= 0xdf {
        2
    } else if 0xe0 <= b0 && b0 <= 0xef {
        3
    } else if 0xf0 <= b0 && b0 <= 0xf4 {
        4
    } else {
        0
    };
    let k: usize = if w == 0 {
        0
    } else if w == 1 || avail < 2 {
        1
    } else {
        let b1 = data[i + 1];
        assert(t[1] == b1);
        let ok1 = if b0 == 0xe0 {
            0xa0 <= b1 && b1 <= 0xbf
        } else if b0 == 0xed {
            0x80 <= b1 && b1 <= 0x9f
        } else if b0 == 0xf0 {
            0x90 <= b1 && b1 <= 0xbf
        } else if b0 == 0xf4 {
            0x80 <= b1 && b1 <= 0x8f
        } else {
            0x80 <= b1 && b1 <= 0xbf
        };
        if !ok1 {
            1
        } else if w == 2 || avail < 3 {
            2
        } else {
            let b2 = data[i + 2];
            assert(t[2] == b2);
            if !(0x80 <= b2 && b2 <= 0xbf) {
                2
            } else if w == 3 || avail < 4 {
                3
            } else {
                let b3 = data[i + 3];
                assert(t[3] == b3);
                if !(0x80 <= b3 && b3 <= 0xbf) {
                    3
                } else {
                    4
                }
            }
        }
    };
    assert(k == well_formed_prefix_len(t));
    if k == avail && k < w {
        None
    } else if k == 0 {
        Some(1)
    } else {
        Some(k as u8)
    }
}

/// A scalar at the start of a sequence is found the same way in any prefix
/// that still holds it.
proof fn lemma_first_scalar_prefix(t: Seq<u8>, m: int)
    requires
        1 <= m <= t.len(),
    ensures
        valid_first_scalar(t.subrange(0, m)) ==> valid_first_scalar(t) && length_of_first_scalar(
            t.subrange(0, m),
        ) == length_of_first_scalar(t),
        valid_first_scalar(t) && length_of_first_scalar(t) <= m ==> valid_first_scalar(
            t.subrange(0, m),
        ) && length_of_first_scalar(t.subrange(0, m)) == length_of_first_scalar(t),
{
    let u = t.subrange(0, m);
    assert(u[0] == t[0]);
    if m >= 2 {
        assert(u[1] == t[1]);
    }
    if m >= 3 {
        assert(u[2] == t[2]);
    }
    if m >= 4 {
        assert(u[3] == t[3]);
    }
}

/// `spec_valid_up_to(s)` is the largest index up to which `s` is valid UTF-8: the
/// bytes before it are valid, no longer prefix is, and it is the whole length
/// exactly when `s` is valid.
pub proof fn lemma_valid_up_to_is_longest_valid_prefix(s: Seq<u8>)
    ensures
        0 <= spec_valid_up_to(s) <= s.len(),
        valid_utf8(s.subrange(0, spec_valid_up_to(s))),
        forall|j: int| spec_valid_up_to(s) < j <= s.len() ==> !#[trigger] valid_utf8(s.subrange(0, j)),
        valid_utf8(s) <==> spec_valid_up_to(s) == s.len(),
    decreases s.len(),
{
    reveal_with_fuel(valid_utf8, 1);
    let v = spec_valid_up_to(s);
    if s.len() > 0 && valid_first_scalar(s) {
        let k = length_of_first_scalar(s);
        let t = s.subrange(k, s.len() as int);
        assert(1 <= k <= s.len());
        lemma_valid_up_to_is_longest_valid_prefix(t);
        let vt = spec_valid_up_to(t);
        assert(v == k + vt);
        lemma_first_scalar_prefix(s, v);
        let sv = s.subrange(0, v);
        assert(sv.subrange(k, v) =~= t.subrange(0, vt));
        assert(valid_utf8(sv));
        assert(pop_first_scalar(s) == t);
        assert forall|j: int| v < j <= s.len() implies !#[trigger] valid_utf8(s.subrange(0, j)) by {
            lemma_first_scalar_prefix(s, j);
            let sj = s.subrange(0, j);
            assert(sj.subrange(k, j) =~= t.subrange(0, j - k));
            assert(!valid_utf8(t.subrange(0, j - k)));
        }
    } else {
        assert(s.subrange(0, 0) =~= Seq::<u8>::empty());
        assert forall|j: int| 0 < j <= s.len() implies !#[trigger] valid_utf8(s.subrange(0, j)) by {
            lemma_first_scalar_prefix(s, j);
        }
    }
}

/// `None` when `data[start..end]` is well-formed UTF-8; otherwise where decoding
/// stops (counted from `start`) and the length of the invalid sequence there,
/// `None` when the bytes end inside a sequence.
pub fn utf8_error(data: &[u8], start: usize, end: usize) -> (r: Option<(usize, Option<u8>)>)
    requires
        start <= end <= data@.len(),
    ensures
        r is None <==> valid_utf8(data@.subrange(start as int, end as int)),
        r matches Some((v, e)) ==> v == spec_valid_up_to(data@.subrange(start as int, end as int))
            && e == spec_error_len(data@.subrange(start + v, end as int)),
{
    let ghost s = data@.subrange(start as int, end as int);
    let mut i = start;
    assert(s.subrange(0, 0) =~= Seq::<u8>::empty());
    assert(s.subrange(0, s.len() as int) =~= s);
    while i < end
        invariant
            start <= i <= end <= data@.len(),
            s == data@.subrange(start as int, end as int),
            partial_valid_utf8(s, i - start),
            spec_valid_up_to(s) == (i - start) + spec_valid_up_to(s.subrange(i - start, s.len() as int)),
        decreases end - i,
    {
        let ghost rest = s.subrange(i - start, s.len() as int);
        assert(rest =~= data@.subrange(i as int, end as int));
        match first_scalar_len(data, i, end) {
            None => {
                proof {
                    partial_valid_partial_invalid_utf8(s, i - start);
                }
                let e = error_len_at(data, i, end);
                return Some((i - start, e));
            },
            Some(n) => {
                proof {
                    partial_valid_utf8_extend(s, i - start);
                    assert(rest.subrange(n as int, rest.len() as int) =~= s.subrange(i - start + n, s.len() as int));
                }
                i = i + n;
            },
        }
    }
    None
}

/// `String::from_utf8`: the bytes as a `String` exactly when they are
/// well-formed UTF-8, holding the characters they encode.
#[verifier::external_body]
pub(crate) fn string_from_utf8(bytes: Vec<u8>) -> (r: Option<String>)
    ensures
        r is Some <==> valid_utf8(bytes@),
        r matches Some(s) ==> s@ == decode_utf8(bytes@),
{
    String::from_utf8(bytes).ok()
}

} // verus!
