//! UTF-8 well-formedness (Unicode table 3-7) and character decoding.
use vstd::prelude::*;
use vstd::string::StringSliceAdditionalSpecFns;

verus! {

/// A UTF-8 continuation byte.
pub open spec fn cont(b: u8) -> bool {
    0x80 <= b <= 0xBF
}

/// The length of the well-formed UTF-8 sequence starting at `i`, or 0 if
/// none starts there.
pub open spec fn utf8_width(s: Seq<u8>, i: int) -> int {
    if i < 0 || i >= s.len() {
        0
    } else {
        let b0 = s[i];
        if b0 <= 0x7F {
            1
        } else if 0xC2 <= b0 <= 0xDF {
            if i + 1 < s.len() && cont(s[i + 1]) {
                2
            } else {
                0
            }
        } else if 0xE0 <= b0 <= 0xEF {
            let lo: u8 = if b0 == 0xE0 {
                0xA0
            } else {
                0x80
            };
            let hi: u8 = if b0 == 0xED {
                0x9F
            } else {
                0xBF
            };
            if s.len() >= 2 && i < s.len() - 2 && lo <= s[i + 1] <= hi && cont(s[i + 2]) {
                3
            } else {
                0
            }
        } else if 0xF0 <= b0 <= 0xF4 {
            let lo: u8 = if b0 == 0xF0 {
                0x90
            } else {
                0x80
            };
            let hi: u8 = if b0 == 0xF4 {
                0x8F
            } else {
                0xBF
            };
            if s.len() >= 3 && i < s.len() - 3 && lo <= s[i + 1] <= hi && cont(s[i + 2]) && cont(s[i + 3]) {
                4
            } else {
                0
            }
        } else {
            0
        }
    }
}

/// The position of the first ill-formed sequence reached by decoding from
/// `i`, or `s.len()` if the rest is well-formed.
pub open spec fn utf8_error_from(s: Seq<u8>, i: int) -> int
    decreases s.len() - i,
{
    if i < 0 || i >= s.len() {
        i
    } else if utf8_width(s, i) == 0 {
        i
    } else {
        utf8_error_from(s, i + utf8_width(s, i))
    }
}

/// `s` is well-formed UTF-8.
pub open spec fn utf8_valid(s: Seq<u8>) -> bool {
    utf8_error_from(s, 0) == s.len()
}

/// The code point of the well-formed sequence starting at `i`.
pub open spec fn utf8_decode(s: Seq<u8>, i: int) -> u32 {
    let w = utf8_width(s, i);
    if w == 1 {
        s[i] as u32
    } else if w == 2 {
        (((s[i] - 0xC0) * 64) + (s[i + 1] - 0x80)) as u32
    } else if w == 3 {
        (((s[i] - 0xE0) * 4096) + ((s[i + 1] - 0x80) * 64) + (s[i + 2] - 0x80)) as u32
    } else {
        (((s[i] - 0xF0) * 262144) + ((s[i + 1] - 0x80) * 4096) + ((s[i + 2] - 0x80) * 64) + (s[i
            + 3] - 0x80)) as u32
    }
}

/// Returns the length of the well-formed UTF-8 sequence starting at `i`
/// (0 if none does).
pub fn utf8_width_at(s: &[u8], i: usize) -> (w: usize)
    ensures
        w == utf8_width(s@, i as int),
{
    if i >= s.len() {
        return 0;
    }
    let b0 = s[i];
    if b0 <= 0x7F {
        1
    } else if 0xC2 <= b0 && b0 <= 0xDF {
        if i + 1 < s.len() && 0x80 <= s[i + 1] && s[i + 1] <= 0xBF {
            2
        } else {
            0
        }
    } else if 0xE0 <= b0 && b0 <= 0xEF {
        let lo: u8 = if b0 == 0xE0 {
            0xA0
        } else {
            0x80
        };
        let hi: u8 = if b0 == 0xED {
            0x9F
        } else {
            0xBF
        };
        if s.len() >= 2 && i < s.len() - 2 && lo <= s[i + 1] && s[i + 1] <= hi && 0x80 <= s[i + 2] && s[i + 2]
            <= 0xBF {
            3
        } else {
            0
        }
    } else if 0xF0 <= b0 && b0 <= 0xF4 {
        let lo: u8 = if b0 == 0xF0 {
            0x90
        } else {
            0x80
        };
        let hi: u8 = if b0 == 0xF4 {
            0x8F
        } else {
            0xBF
        };
        if s.len() >= 3 && i < s.len() - 3 && lo <= s[i + 1] && s[i + 1] <= hi && 0x80 <= s[i + 2] && s[i + 2]
            <= 0xBF && 0x80 <= s[i + 3] && s[i + 3] <= 0xBF {
            4
        } else {
            0
        }
    } else {
        0
    }
}

/// Decodes the well-formed sequence of width `w` starting at `i`.
pub fn utf8_decode_at(s: &[u8], i: usize, w: usize) -> (c: u32)
    requires
        w == utf8_width(s@, i as int),
        w > 0,
    ensures
        c == utf8_decode(s@, i as int),
{
    if w == 1 {
        s[i] as u32
    } else if w == 2 {
        (s[i] - 0xC0) as u32 * 64 + (s[i + 1] - 0x80) as u32
    } else if w == 3 {
        (s[i] - 0xE0) as u32 * 4096 + (s[i + 1] - 0x80) as u32 * 64 + (s[i + 2] - 0x80) as u32
    } else {
        (s[i] - 0xF0) as u32 * 262144 + (s[i + 1] - 0x80) as u32 * 4096 + (s[i + 2] - 0x80) as u32
            * 64 + (s[i + 3] - 0x80) as u32
    }
}

/// Returns the length of the longest well-formed UTF-8 prefix reached by
/// decoding `s` from the start: `s.len()` iff `s` is well-formed.
pub fn utf8_valid_up_to(s: &[u8]) -> (n: usize)
    ensures
        n == utf8_error_from(s@, 0),
        n <= s@.len(),
{
    let mut i: usize = 0;
    while i < s.len()
        invariant
            i <= s@.len(),
            utf8_error_from(s@, i as int) == utf8_error_from(s@, 0),
        decreases s@.len() - i,
    {
        let w = utf8_width_at(s, i);
        if w == 0 {
            return i;
        }
        i += w;
    }
    i
}

/// Views `b` as a string slice (`core::str::from_utf8`): `Some` exactly
/// when `b` is well-formed UTF-8, and then the string's bytes are `b`.
#[verifier::external_body]
pub(crate) fn str_from_utf8(b: &[u8]) -> (r: Option<&str>)
    ensures
        r is Some <==> vstd::utf8::valid_utf8(b@),
        r matches Some(s) ==> s.spec_bytes() == b@,
{
    core::str::from_utf8(b).ok()
}

} // verus!
