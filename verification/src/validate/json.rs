//! Lockstep JSON validation and RFC 8259 lexical scanners.
//!
//! The scanners are shared with the host's span-emitting JSON pass, so
//! guest and host agree on the lexical grammar by construction.
use vstd::prelude::*;

use crate::error::Error;
use crate::spans::{JsonKind, JsonNode};
use crate::utf8::{utf8_decode, utf8_decode_at, utf8_valid, utf8_valid_up_to, utf8_width, utf8_width_at};
use crate::validate::http::{hex_val, hex_value, spec_digit, spec_hexdig};
use crate::validate::json_read::{
    lemma_close_keeps_read, lemma_member_keeps_read, lemma_next_conflict, lemma_not_open_past,
    lemma_open_keeps_read, lemma_parse_bounds, lemma_step_keeps, lemma_value_conflict, read_wf,
    fail_from, json_fail, json_reject, lemma_fail_next_conflict, lemma_fail_value_conflict,
};

verus! {

/// Maximum container nesting depth: 127 simultaneously open containers
/// validate, a 128th is an error.
pub const MAX_JSON_DEPTH: usize = 127;

/// A JSON error at a decoded-body position (saturated to `u32::MAX`).
pub open spec fn json_error(at: int, reason: &'static str) -> Error {
    Error::Json { at: if at <= u32::MAX { at as u32 } else { u32::MAX }, reason }
}

/// Shorthand for an [`Error::Json`] at a decoded-body position (saturated to
/// `u32::MAX`).
pub fn json_err(at: usize, reason: &'static str) -> (e: Error)
    ensures
        e == json_error(at as int, reason),
{
    let a: u32 = if at <= u32::MAX as usize {
        at as u32
    } else {
        u32::MAX
    };
    Error::Json { at: a, reason }
}

/// JSON whitespace: space, HTAB, LF, CR.
pub open spec fn spec_jws(b: u8) -> bool {
    b == 0x20 || b == 0x09 || b == 0x0A || b == 0x0D
}

/// One past the maximal run of JSON whitespace starting at `p`.
pub open spec fn jws_end(s: Seq<u8>, p: int) -> int
    decreases s.len() - p,
{
    if 0 <= p < s.len() && spec_jws(s[p]) {
        jws_end(s, p + 1)
    } else {
        p
    }
}

/// One past the maximal run of decimal digits starting at `p`.
pub open spec fn digits_end(s: Seq<u8>, p: int) -> int
    decreases s.len() - p,
{
    if 0 <= p < s.len() && spec_digit(s[p]) {
        digits_end(s, p + 1)
    } else {
        p
    }
}

/// JSON whitespace.
pub fn is_jws(b: u8) -> (r: bool)
    ensures
        r == spec_jws(b),
{
    b == 0x20 || b == 0x09 || b == 0x0A || b == 0x0D
}

/// Advances the cursor over any run of JSON whitespace.
pub fn skip_jws(src: &[u8], p: usize) -> (r: usize)
    ensures
        r == jws_end(src@, p as int),
        p <= r,
        r > p ==> r <= src@.len(),
        forall|i: int| p <= i < r ==> spec_jws(#[trigger] src@[i]),
{
    let mut q = p;
    while q < src.len() && is_jws(src[q])
        invariant
            p <= q,
            q > p ==> q <= src@.len(),
            jws_end(src@, q as int) == jws_end(src@, p as int),
            forall|i: int| p <= i < q ==> spec_jws(#[trigger] src@[i]),
        decreases src@.len() - q,
    {
        q += 1;
    }
    q
}

/// Advances the cursor over any run of decimal digits.
pub fn skip_digits(src: &[u8], p: usize) -> (r: usize)
    ensures
        r == digits_end(src@, p as int),
        p <= r,
        r > p ==> r <= src@.len(),
{
    let mut q = p;
    while q < src.len() && 0x30 <= src[q] && src[q] <= 0x39
        invariant
            p <= q,
            q > p ==> q <= src@.len(),
            digits_end(src@, q as int) == digits_end(src@, p as int),
        decreases src@.len() - q,
    {
        q += 1;
    }
    q
}

/// The JSON simple escapes: `"` `\` `/` `b` `f` `n` `r` `t`.
pub open spec fn simple_escape(b: u8) -> bool {
    b == 0x22 || b == 0x5C || b == 0x2F || b == 0x62 || b == 0x66 || b == 0x6E || b == 0x72 || b
        == 0x74
}

/// Four hexadecimal digits start at `p`.
pub open spec fn hex4_at(s: Seq<u8>, p: int) -> bool {
    &&& 0 <= p
    &&& p + 4 <= s.len()
    &&& spec_hexdig(s[p])
    &&& spec_hexdig(s[p + 1])
    &&& spec_hexdig(s[p + 2])
    &&& spec_hexdig(s[p + 3])
}

/// Returns whether four hexadecimal digits start at `at`.
pub fn hex4_matches(src: &[u8], at: usize) -> (r: bool)
    ensures
        r == hex4_at(src@, at as int),
{
    if at > src.len() || src.len() - at < 4 {
        return false;
    }
    crate::validate::http::is_hexdig(src[at]) && crate::validate::http::is_hexdig(src[at + 1])
        && crate::validate::http::is_hexdig(src[at + 2]) && crate::validate::http::is_hexdig(
        src[at + 3],
    )
}

/// One past the closing quote of the string whose content continues at `p`.
pub open spec fn string_rest_end(s: Seq<u8>, p: int) -> Option<int>
    decreases s.len() - p,
{
    if p < 0 || p >= s.len() {
        None
    } else if s[p] == 0x22 {
        Some(p + 1)
    } else if s[p] == 0x5C {
        if p + 1 < s.len() && simple_escape(s[p + 1]) {
            string_rest_end(s, p + 2)
        } else if p + 1 < s.len() && s[p + 1] == 0x75 && hex4_at(s, p + 2) {
            string_rest_end(s, p + 6)
        } else {
            None
        }
    } else if s[p] < 0x20 {
        None
    } else {
        string_rest_end(s, p + 1)
    }
}

/// The error that scanning the rest of a string from `p` meets first.
pub open spec fn string_rest_error(s: Seq<u8>, p: int) -> Error
    decreases s.len() - p,
{
    if p < 0 || p >= s.len() || s[p] == 0x22 {
        json_error(p, "unterminated string")
    } else if s[p] == 0x5C {
        if p + 1 < s.len() && simple_escape(s[p + 1]) {
            string_rest_error(s, p + 2)
        } else if p + 1 < s.len() && s[p + 1] == 0x75 {
            if hex4_at(s, p + 2) {
                string_rest_error(s, p + 6)
            } else {
                json_error(p, "invalid unicode escape")
            }
        } else {
            json_error(p, "invalid escape")
        }
    } else if s[p] < 0x20 {
        json_error(p, "control byte in string")
    } else {
        string_rest_error(s, p + 1)
    }
}

/// A string error is a JSON error.
pub proof fn lemma_string_error_json(s: Seq<u8>, p: int)
    ensures
        string_rest_error(s, p) is Json,
        string_error(s, p - 1) is Json,
    decreases s.len() - p,
{
    if 0 <= p < s.len() && s[p] != 0x22 {
        if s[p] == 0x5C {
            if p + 1 < s.len() && simple_escape(s[p + 1]) {
                lemma_string_error_json(s, p + 2);
            } else if p + 1 < s.len() && s[p + 1] == 0x75 && hex4_at(s, p + 2) {
                lemma_string_error_json(s, p + 6);
            }
        } else if s[p] >= 0x20 {
            lemma_string_error_json(s, p + 1);
        }
    }
}

/// The error [`scan_string`] returns when the string at `start` is not
/// well-formed.
pub open spec fn string_error(s: Seq<u8>, start: int) -> Error {
    if 0 <= start < s.len() && s[start] == 0x22 {
        string_rest_error(s, start + 1)
    } else {
        json_error(start, "expected opening quote")
    }
}

/// What [`scan_string`] returns on success: one past the closing quote of
/// the RFC 8259 string opening at `start`.
pub open spec fn spec_scan_string(s: Seq<u8>, start: int) -> Option<int> {
    if 0 <= start < s.len() && s[start] == 0x22 {
        string_rest_end(s, start + 1)
    } else {
        None
    }
}

/// A string that ends spans at least its two quotes.
pub proof fn lemma_string_rest_end(s: Seq<u8>, p: int)
    requires
        string_rest_end(s, p) is Some,
    ensures
        p + 1 <= string_rest_end(s, p)->0 <= s.len(),
        s[string_rest_end(s, p)->0 - 1] == 0x22,
    decreases s.len() - p,
{
    if s[p] == 0x22 {
    } else if s[p] == 0x5C {
        if p + 1 < s.len() && simple_escape(s[p + 1]) {
            lemma_string_rest_end(s, p + 2);
        } else {
            lemma_string_rest_end(s, p + 6);
        }
    } else {
        lemma_string_rest_end(s, p + 1);
    }
}

/// Scans one RFC 8259 string opening at `start` and returns the index one
/// past the closing quote.
///
/// Content bytes may be anything but `"`, `\` and raw control bytes; escapes
/// are the simple ones and `\u` with exactly four HEXDIGs. The string ends
/// at the first unescaped `"`.
pub fn scan_string(src: &[u8], start: usize) -> (r: Result<usize, Error>)
    ensures
        r is Ok <==> spec_scan_string(src@, start as int) is Some,
        r matches Ok(e) ==> e == spec_scan_string(src@, start as int)->0,
        r matches Err(e) ==> e == string_error(src@, start as int),
{
    if start >= src.len() || src[start] != 0x22 {
        return Err(json_err(start, "expected opening quote"));
    }
    let mut p = start + 1;
    loop
        invariant
            start < p <= src@.len() + 0,
            start < src@.len(),
            src@[start as int] == 0x22,
            string_rest_end(src@, start + 1) == string_rest_end(src@, p as int),
            string_rest_error(src@, start + 1) == string_rest_error(src@, p as int),
        decreases src@.len() - p,
    {
        if p >= src.len() {
            return Err(json_err(p, "unterminated string"));
        }
        let b = src[p];
        if b == 0x22 {
            return Ok(p + 1);
        } else if b == 0x5C {
            if p + 1 < src.len() {
                let e = src[p + 1];
                if e == 0x22 || e == 0x5C || e == 0x2F || e == 0x62 || e == 0x66 || e == 0x6E || e
                    == 0x72 || e == 0x74 {
                    p += 2;
                } else if e == 0x75 {
                    if !hex4_matches(src, p + 2) {
                        return Err(json_err(p, "invalid unicode escape"));
                    }
                    p += 6;
                } else {
                    return Err(json_err(p, "invalid escape"));
                }
            } else {
                return Err(json_err(p, "invalid escape"));
            }
        } else if b < 0x20 {
            return Err(json_err(p, "control byte in string"));
        } else {
            p += 1;
        }
    }
}

/// What [`scan_number`] returns on success: one past the longest prefix of
/// `s[start..]` matching `-?(0|[1-9][0-9]*)(\.[0-9]+)?([eE][+-]?[0-9]+)?`.
pub open spec fn spec_scan_number(s: Seq<u8>, start: int) -> Option<int> {
    let p0 = if 0 <= start < s.len() && s[start] == 0x2D {
        start + 1
    } else {
        start
    };
    if !(0 <= p0 < s.len() && spec_digit(s[p0])) {
        None
    } else {
        let p1 = if s[p0] == 0x30 {
            p0 + 1
        } else {
            digits_end(s, p0 + 1)
        };
        let f = digits_end(s, p1 + 1);
        let p2 = if p1 < s.len() && s[p1] == 0x2E && f > p1 + 1 {
            f
        } else {
            p1
        };
        let q0 = p2 + 1;
        let q1 = if q0 < s.len() && (s[q0] == 0x2B || s[q0] == 0x2D) {
            q0 + 1
        } else {
            q0
        };
        let x = digits_end(s, q1);
        let p3 = if p2 < s.len() && (s[p2] == 0x65 || s[p2] == 0x45) && x > q1 {
            x
        } else {
            p2
        };
        Some(p3)
    }
}

/// Facts about the maximal digit run.
pub proof fn lemma_digits_end(s: Seq<u8>, p: int)
    requires
        0 <= p <= s.len(),
    ensures
        p <= digits_end(s, p) <= s.len(),
    decreases s.len() - p,
{
    if p < s.len() && spec_digit(s[p]) {
        lemma_digits_end(s, p + 1);
    }
}

/// Bounds of a scanned number.
pub proof fn lemma_scan_number(s: Seq<u8>, start: int)
    requires
        spec_scan_number(s, start) is Some,
    ensures
        0 <= start < spec_scan_number(s, start)->0 <= s.len(),
{
    let p0 = if 0 <= start < s.len() && s[start] == 0x2D {
        start + 1
    } else {
        start
    };
    lemma_digits_end(s, p0 + 1);
    let p1 = if s[p0] == 0x30 {
        p0 + 1
    } else {
        digits_end(s, p0 + 1)
    };
    lemma_digits_end(s, p1);
    if p1 < s.len() {
        lemma_digits_end(s, p1 + 1);
    }
    let f = digits_end(s, p1 + 1);
    let p2 = if p1 < s.len() && s[p1] == 0x2E && f > p1 + 1 {
        f
    } else {
        p1
    };
    if p2 < s.len() {
        let q0 = p2 + 1;
        let q1 = if q0 < s.len() && (s[q0] == 0x2B || s[q0] == 0x2D) {
            q0 + 1
        } else {
            q0
        };
        lemma_digits_end(s, q1);
    }
}

/// Scans one RFC 8259 number starting at `start` and returns the index one
/// past the longest valid lexeme (maximality is the caller's tiling rule).
pub fn scan_number(src: &[u8], start: usize) -> (r: Result<usize, Error>)
    ensures
        r is Ok <==> spec_scan_number(src@, start as int) is Some,
        r matches Ok(e) ==> e == spec_scan_number(src@, start as int)->0,
        r matches Err(e) ==> e == json_error(
            if start < src@.len() && src@[start as int] == 0x2D {
                start + 1
            } else {
                start as int
            },
            "invalid number",
        ),
{
    let mut p = start;
    if p < src.len() && src[p] == 0x2D {
        p += 1;
    }
    if p < src.len() && src[p] == 0x30 {
        p += 1;
    } else if p < src.len() && 0x31 <= src[p] && src[p] <= 0x39 {
        p = skip_digits(src, p + 1);
    } else {
        return Err(json_err(p, "invalid number"));
    }
    proof {
        lemma_digits_end(src@, p as int);
    }
    if p < src.len() && src[p] == 0x2E {
        let q = skip_digits(src, p + 1);
        if q > p + 1 {
            p = q;
        }
    }
    if p < src.len() && (src[p] == 0x65 || src[p] == 0x45) {
        let mut q = p + 1;
        if q < src.len() && (src[q] == 0x2B || src[q] == 0x2D) {
            q += 1;
        }
        let digits_start = q;
        q = skip_digits(src, q);
        if q > digits_start {
            p = q;
        }
    }
    Ok(p)
}

// === object keys ===

/// The value of the four hexadecimal digits at `at`, if there are four.
pub open spec fn spec_hex4(raw: Seq<u8>, at: int) -> Option<u32> {
    if hex4_at(raw, at) {
        Some(hex_value(raw.subrange(at, at + 4)) as u32)
    } else {
        None
    }
}

/// Parses exactly four HEXDIGs of `raw` at `at`, case-insensitive.
pub fn hex4(raw: &[u8], at: usize) -> (r: Option<u32>)
    ensures
        r == spec_hex4(raw@, at as int),
        r matches Some(v) ==> v < 0x10000,
{
    if !hex4_matches(raw, at) {
        return None;
    }
    let mut v: u32 = 0;
    let mut i: usize = 0;
    let n = raw.len();
    while i < 4
        invariant
            0 <= i <= 4,
            n == raw@.len(),
            hex4_at(raw@, at as int),
            v == hex_value(raw@.subrange(at as int, at + i)),
            v < crate::validate::http::pow16(i as nat),
        decreases 4 - i,
    {
        let b = raw[at + i];
        let d: u32 = if 0x30 <= b && b <= 0x39 {
            (b - 0x30) as u32
        } else if 0x61 <= b && b <= 0x66 {
            (b - 0x61 + 10) as u32
        } else {
            (b - 0x41 + 10) as u32
        };
        proof {
            let t = raw@.subrange(at as int, at + i + 1);
            assert(t.drop_last() =~= raw@.subrange(at as int, at + i));
            assert(t.last() == b);
            assert(i == 0 || i == 1 || i == 2 || i == 3);
            assert(spec_hexdig(raw@[at + i]));
            assert(crate::validate::http::pow16((i + 1) as nat) == 16 * crate::validate::http::pow16(i as nat));
            if i == 3 {
                assert(crate::validate::http::pow16(3) == 4096) by {
                    reveal_with_fuel(crate::validate::http::pow16, 4);
                }
            } else if i == 2 {
                assert(crate::validate::http::pow16(2) == 256) by {
                    reveal_with_fuel(crate::validate::http::pow16, 3);
                }
            } else if i == 1 {
                assert(crate::validate::http::pow16(1) == 16) by {
                    reveal_with_fuel(crate::validate::http::pow16, 2);
                }
            }
        }
        v = v * 16 + d;
        i += 1;
    }
    proof {
        assert(crate::validate::http::pow16(4) == 65536) by {
            reveal_with_fuel(crate::validate::http::pow16, 5);
        }
    }
    Some(v)
}

/// The code unit a simple escape decodes to.
pub open spec fn escape_unit(e: u8) -> u32 {
    if e == 0x62 {
        0x08
    } else if e == 0x66 {
        0x0C
    } else if e == 0x6E {
        0x0A
    } else if e == 0x72 {
        0x0D
    } else if e == 0x74 {
        0x09
    } else {
        e as u32
    }
}

/// The decoded form of key content `raw` from `i`, used only to compare
/// keys: raw characters decode to their code points, simple escapes to
/// their code points, `\uXXXX` to its value except that an adjacent
/// high+low surrogate escape pair combines; decoding stops at anything
/// malformed.
pub open spec fn key_units(raw: Seq<u8>, i: int) -> Seq<u32>
    decreases raw.len() - i,
{
    if i < 0 || i >= raw.len() {
        Seq::empty()
    } else if raw[i] == 0x5C {
        if i + 1 >= raw.len() {
            Seq::empty()
        } else if raw[i + 1] == 0x75 {
            match spec_hex4(raw, i + 2) {
                None => Seq::empty(),
                Some(hi) => {
                    let j = i + 6;
                    if 0xD800 <= hi <= 0xDBFF && j + 1 < raw.len() && raw[j] == 0x5C && raw[j + 1]
                        == 0x75 && spec_hex4(raw, j + 2) is Some && 0xDC00 <= spec_hex4(
                        raw,
                        j + 2,
                    )->0 <= 0xDFFF {
                        seq![
                            (0x10000 + (hi - 0xD800) * 1024 + (spec_hex4(raw, j + 2)->0 - 0xDC00)) as u32,
                        ] + key_units(raw, j + 6)
                    } else {
                        seq![hi] + key_units(raw, j)
                    }
                },
            }
        } else {
            seq![escape_unit(raw[i + 1])] + key_units(raw, i + 2)
        }
    } else if raw[i] < 0x80 {
        seq![raw[i] as u32] + key_units(raw, i + 1)
    } else if !utf8_valid(raw) || utf8_width(raw, i) == 0 {
        Seq::empty()
    } else {
        seq![utf8_decode(raw, i)] + key_units(raw, i + utf8_width(raw, i))
    }
}

/// Decodes a key's content bytes to code units for duplicate comparison
/// only.
pub fn decode_key(raw: &[u8]) -> (out: Vec<u32>)
    ensures
        out@ == key_units(raw@, 0),
{
    let mut out: Vec<u32> = Vec::new();
    let valid = utf8_valid_up_to(raw) == raw.len();
    let mut i: usize = 0;
    while i < raw.len()
        invariant
            i <= raw@.len(),
            valid == utf8_valid(raw@),
            key_units(raw@, 0) == out@ + key_units(raw@, i as int),
        ensures
            key_units(raw@, 0) == out@,
        decreases raw@.len() - i,
    {
        let ghost old_out = out@;
        let b = raw[i];
        if b == 0x5C {
            if i + 1 >= raw.len() {
                assert(out@ + key_units(raw@, i as int) =~= out@);
                break ;
            }
            let e = raw[i + 1];
            if e == 0x75 {
                let hi = match hex4(raw, i + 2) {
                    Some(v) => v,
                    None => {
                        assert(out@ + key_units(raw@, i as int) =~= out@);
                        break ;
                    },
                };
                let j = i + 6;
                let mut combined = false;
                if 0xD800 <= hi && hi <= 0xDBFF && j < raw.len() - 1 && raw[j] == 0x5C && raw[j
                    + 1] == 0x75 {
                    if let Some(lo) = hex4(raw, j + 2) {
                        if 0xDC00 <= lo && lo <= 0xDFFF {
                            out.push(0x10000 + (hi - 0xD800) * 1024 + (lo - 0xDC00));
                            i = j + 6;
                            combined = true;
                        }
                    }
                }
                if !combined {
                    out.push(hi);
                    i = j;
                }
            } else {
                let u: u32 = if e == 0x62 {
                    0x08
                } else if e == 0x66 {
                    0x0C
                } else if e == 0x6E {
                    0x0A
                } else if e == 0x72 {
                    0x0D
                } else if e == 0x74 {
                    0x09
                } else {
                    e as u32
                };
                out.push(u);
                i = i + 2;
            }
        } else if b < 0x80 {
            out.push(b as u32);
            i += 1;
        } else {
            if !valid {
                assert(out@ + key_units(raw@, i as int) =~= out@);
                break ;
            }
            let w = utf8_width_at(raw, i);
            if w == 0 {
                assert(out@ + key_units(raw@, i as int) =~= out@);
                break ;
            }
            let c = utf8_decode_at(raw, i, w);
            out.push(c);
            i += w;
        }
        proof {
            let x = out@.last();
            assert(out@ =~= old_out.push(x));
            assert(out@ + key_units(raw@, i as int) =~= old_out + (seq![x] + key_units(raw@, i as int)));
        }
    }
    proof {
        assert(i >= raw@.len() ==> out@ + key_units(raw@, i as int) =~= out@);
    }
    out
}

/// Two decoded keys are equal.
pub fn units_eq(a: &Vec<u32>, b: &Vec<u32>) -> (r: bool)
    ensures
        r == (a@ == b@),
{
    if a.len() != b.len() {
        return false;
    }
    let mut i: usize = 0;
    while i < a.len()
        invariant
            a@.len() == b@.len(),
            0 <= i <= a@.len(),
            forall|j: int| 0 <= j < i ==> a@[j] == b@[j],
        decreases a@.len() - i,
    {
        if a[i] != b[i] {
            return false;
        }
        i += 1;
    }
    assert(a@ =~= b@);
    true
}

/// Lexicographic order on code-unit sequences, a proper prefix first.
pub open spec fn units_lt(a: Seq<u32>, b: Seq<u32>) -> bool
    decreases a.len(),
{
    if a.len() == 0 {
        b.len() > 0
    } else if b.len() == 0 {
        false
    } else if a[0] != b[0] {
        a[0] < b[0]
    } else {
        units_lt(a.drop_first(), b.drop_first())
    }
}

/// Lexicographic order on (decoded key, position) pairs.
pub open spec fn entry_lt(a: (Vec<u32>, usize), b: (Vec<u32>, usize)) -> bool {
    units_lt(a.0@, b.0@) || (a.0@ == b.0@ && a.1 < b.1)
}

/// The order on code-unit sequences is irreflexive.
proof fn lemma_units_lt_irrefl(a: Seq<u32>)
    ensures
        !units_lt(a, a),
    decreases a.len(),
{
    if a.len() > 0 {
        lemma_units_lt_irrefl(a.drop_first());
    }
}

/// The order on code-unit sequences is transitive.
proof fn lemma_units_lt_trans(a: Seq<u32>, b: Seq<u32>, c: Seq<u32>)
    requires
        units_lt(a, b),
        units_lt(b, c),
    ensures
        units_lt(a, c),
    decreases a.len(),
{
    if a.len() > 0 && b.len() > 0 && c.len() > 0 && a[0] == b[0] && b[0] == c[0] {
        lemma_units_lt_trans(a.drop_first(), b.drop_first(), c.drop_first());
    }
}

/// The order on code-unit sequences compares from position `i` once the
/// first `i` units agree.
proof fn lemma_units_lt_from(a: Seq<u32>, b: Seq<u32>, i: int)
    requires
        0 <= i <= a.len(),
        i <= b.len(),
        forall|j: int| 0 <= j < i ==> a[j] == b[j],
    ensures
        units_lt(a, b) == units_lt(a.subrange(i, a.len() as int), b.subrange(i, b.len() as int)),
    decreases i,
{
    if i > 0 {
        assert forall|j: int| 0 <= j < i - 1 implies a.drop_first()[j] == b.drop_first()[j] by {
            assert(a.drop_first()[j] == a[j + 1]);
            assert(b.drop_first()[j] == b[j + 1]);
        }
        lemma_units_lt_from(a.drop_first(), b.drop_first(), i - 1);
        assert(a.drop_first().subrange(i - 1, a.len() - 1) =~= a.subrange(i, a.len() as int));
        assert(b.drop_first().subrange(i - 1, b.len() - 1) =~= b.subrange(i, b.len() as int));
        assert(a[0] == b[0]);
    } else {
        assert(a.subrange(0, a.len() as int) =~= a);
        assert(b.subrange(0, b.len() as int) =~= b);
    }
}

/// The order on entries is irreflexive and transitive.
proof fn lemma_entry_lt(a: (Vec<u32>, usize), b: (Vec<u32>, usize), c: (Vec<u32>, usize))
    ensures
        !entry_lt(a, a),
        entry_lt(a, b) && entry_lt(b, c) ==> entry_lt(a, c),
{
    lemma_units_lt_irrefl(a.0@);
    if entry_lt(a, b) && entry_lt(b, c) {
        if units_lt(a.0@, b.0@) && units_lt(b.0@, c.0@) {
            lemma_units_lt_trans(a.0@, b.0@, c.0@);
        }
    }
}

/// Lexicographic order on (decoded key, position) pairs.
pub fn key_entry_less(a: &(Vec<u32>, usize), b: &(Vec<u32>, usize)) -> (r: bool)
    ensures
        r == entry_lt(*a, *b),
{
    let mut i: usize = 0;
    while i < a.0.len() && i < b.0.len()
        invariant
            0 <= i <= a.0@.len(),
            i <= b.0@.len(),
            forall|j: int| 0 <= j < i ==> a.0@[j] == b.0@[j],
        decreases a.0@.len() - i,
    {
        if a.0[i] != b.0[i] {
            proof {
                lemma_units_lt_from(a.0@, b.0@, i as int);
                let sa = a.0@.subrange(i as int, a.0@.len() as int);
                let sb = b.0@.subrange(i as int, b.0@.len() as int);
                assert(sa[0] == a.0@[i as int] && sb[0] == b.0@[i as int]);
            }
            return a.0[i] < b.0[i];
        }
        i += 1;
    }
    proof {
        lemma_units_lt_from(a.0@, b.0@, i as int);
        if a.0@.len() == b.0@.len() {
            assert(a.0@ =~= b.0@);
            lemma_units_lt_irrefl(a.0@);
        }
    }
    if a.0.len() != b.0.len() {
        return a.0.len() < b.0.len();
    }
    a.1 < b.1
}

/// Some two object members share a decoded key.
pub open spec fn has_duplicate_key(keys: Seq<(Vec<u32>, usize)>) -> bool {
    exists|i: int, j: int| 0 <= i < j < keys.len() && keys[i].0@ == keys[j].0@
}

/// The entry at `j` repeats the key of an earlier entry.
pub open spec fn repeats_key(keys: Seq<(Vec<u32>, usize)>, j: int) -> bool {
    exists|i: int| 0 <= i < j && keys[i].0@ == keys[j].0@
}

/// Finds a duplicated decoded key and returns the position of its later
/// occurrence: among all duplicates, the one least in (key, position) order,
/// which reports the second occurrence of the least duplicated key.
pub fn find_duplicate_key(keys: &Vec<(Vec<u32>, usize)>) -> (r: Option<usize>)
    ensures
        r is None <==> !has_duplicate_key(keys@),
        r matches Some(pos) ==> exists|j: int|
            0 <= j < keys@.len() && #[trigger] repeats_key(keys@, j) && keys@[j].1 == pos && forall|j2: int|
                0 <= j2 < keys@.len() && #[trigger] repeats_key(keys@, j2) ==> !entry_lt(keys@[j2], keys@[j]),
{
    let mut best: Option<usize> = None;
    let mut j: usize = 0;
    while j < keys.len()
        invariant
            0 <= j <= keys@.len(),
            best is None <==> !(exists|a: int, b: int|
                0 <= a < b < j && keys@[a].0@ == keys@[b].0@),
            best matches Some(bj) ==> bj < j && repeats_key(keys@, bj as int) && forall|j2: int|
                0 <= j2 < j && #[trigger] repeats_key(keys@, j2) ==> !entry_lt(keys@[j2], keys@[bj as int]),
        decreases keys@.len() - j,
    {
        let mut i: usize = 0;
        let mut dup = false;
        while i < j
            invariant
                0 <= i <= j < keys@.len(),
                dup <==> exists|a: int| 0 <= a < i && keys@[a].0@ == keys@[j as int].0@,
            decreases j - i,
        {
            if units_eq(&keys[i].0, &keys[j].0) {
                dup = true;
            }
            i += 1;
        }
        let ghost old_best = best;
        if dup {
            match best {
                None => {
                    best = Some(j);
                },
                Some(bj) => {
                    if key_entry_less(&keys[j], &keys[bj]) {
                        best = Some(j);
                    }
                },
            }
        }
        proof {
            assert(dup == repeats_key(keys@, j as int));
            if let Some(b) = best {
                assert forall|j2: int| 0 <= j2 < j + 1 && #[trigger] repeats_key(keys@, j2) implies !entry_lt(
                    keys@[j2],
                    keys@[b as int],
                ) by {
                    lemma_entry_lt(keys@[j2], keys@[j as int], keys@[b as int]);
                    match old_best {
                        None => {
                            if j2 < j {
                                let a = choose|a: int| 0 <= a < j2 && keys@[a].0@ == keys@[j2].0@;
                                assert(0 <= a < j2 < j && keys@[a].0@ == keys@[j2].0@);
                            }
                        },
                        Some(ob) => {
                            lemma_entry_lt(keys@[j2], keys@[j as int], keys@[ob as int]);
                        },
                    }
                }
            }
        }
        proof {
            if !dup && best is None {
                assert forall|a: int, b: int| 0 <= a < b < j + 1 implies keys@[a].0@ != keys@[b].0@ by {
                    if b == j {
                    }
                }
            }
        }
        j += 1;
    }
    match best {
        Some(bj) => Some(keys[bj].1),
        None => None,
    }
}

/// The order on code-unit sequences is total.
proof fn lemma_units_lt_total(a: Seq<u32>, b: Seq<u32>)
    ensures
        a != b ==> units_lt(a, b) || units_lt(b, a),
    decreases a.len(),
{
    if a.len() > 0 && b.len() > 0 && a[0] == b[0] {
        lemma_units_lt_total(a.drop_first(), b.drop_first());
        if a.drop_first() == b.drop_first() {
            assert(a =~= seq![a[0]] + a.drop_first());
            assert(b =~= seq![b[0]] + b.drop_first());
        }
    } else if a.len() == 0 && b.len() == 0 {
        assert(a =~= b);
    }
}

/// Member `j` repeats the decoded key of an earlier member.
pub open spec fn key_repeated(keys: Seq<(Seq<u32>, int)>, j: int) -> bool {
    exists|i: int| 0 <= i < j && keys[i].0 == keys[j].0
}

/// (decoded key, position) order on object members.
pub open spec fn member_lt(a: (Seq<u32>, int), b: (Seq<u32>, int)) -> bool {
    units_lt(a.0, b.0) || (a.0 == b.0 && a.1 < b.1)
}

/// The repeated member that a duplicate-key error reports: the one least in
/// (decoded key, position) order.
pub open spec fn least_repeat(keys: Seq<(Seq<u32>, int)>, j: int) -> bool {
    &&& 0 <= j < keys.len()
    &&& key_repeated(keys, j)
    &&& forall|j2: int|
        0 <= j2 < keys.len() && #[trigger] key_repeated(keys, j2) ==> !member_lt(keys[j2], keys[j])
}

/// Where a duplicate decoded key is reported: the content position of the
/// second occurrence of the least repeated key.
pub open spec fn dup_report(keys: Seq<(Seq<u32>, int)>) -> int {
    keys[choose|j: int| least_repeat(keys, j)].1
}

/// The position that [`find_duplicate_key`] returns is the reported one.
proof fn lemma_dup_report(v: Seq<(Vec<u32>, usize)>, j: int)
    requires
        0 <= j < v.len(),
        repeats_key(v, j),
        forall|j2: int| 0 <= j2 < v.len() && #[trigger] repeats_key(v, j2) ==> !entry_lt(v[j2], v[j]),
    ensures
        dup_report(keys_view(v)) == v[j].1,
{
    let kv = keys_view(v);
    assert forall|a: int| 0 <= a < v.len() implies #[trigger] kv[a] == (v[a].0@, v[a].1 as int) by {}
    assert forall|a: int| 0 <= a < v.len() implies #[trigger] key_repeated(kv, a) == repeats_key(v, a) by {
        if key_repeated(kv, a) {
            let i = choose|i: int| 0 <= i < a && kv[i].0 == kv[a].0;
            assert(v[i].0@ == v[a].0@);
        }
        if repeats_key(v, a) {
            let i = choose|i: int| 0 <= i < a && v[i].0@ == v[a].0@;
            assert(kv[i].0 == kv[a].0);
        }
    }
    assert(least_repeat(kv, j)) by {
        assert forall|j2: int| 0 <= j2 < kv.len() && #[trigger] key_repeated(kv, j2) implies !member_lt(
            kv[j2],
            kv[j],
        ) by {
            assert(repeats_key(v, j2));
        }
    }
    let j1 = choose|j1: int| least_repeat(kv, j1);
    assert(least_repeat(kv, j1));
    assert(!member_lt(kv[j], kv[j1]));
    assert(!member_lt(kv[j1], kv[j]));
    lemma_units_lt_total(kv[j].0, kv[j1].0);
}

// === lockstep walk ===

/// One open container during the walk.
pub struct Frame {
    /// Index of the container's node in the node table.
    pub node_idx: usize,
    /// `true` for an object frame, `false` for an array frame.
    pub is_object: bool,
    /// Decoded member keys (objects only), each with the position of its
    /// content start.
    pub keys: Vec<(Vec<u32>, usize)>,
}

/// Node `j`'s span lies within `len` bytes and its subtree within the
/// table.
pub open spec fn node_good(nodes: Seq<JsonNode>, j: int, len: int) -> bool {
    &&& nodes[j].start <= nodes[j].end <= len
    &&& 1 <= nodes[j].size
    &&& j + nodes[j].size <= nodes.len()
}

/// What a validated node table guarantees to the accessors: the body is
/// well-formed UTF-8, the table is non-empty with no more nodes than body
/// bytes, every span is in bounds, every subtree lies within the table, and
/// the root (never a key) spans the whole table.
pub open spec fn json_table_sane(content: Seq<u8>, nodes: Seq<JsonNode>) -> bool {
    &&& 1 <= nodes.len() <= content.len()
    &&& utf8_valid(content)
    &&& forall|j: int| 0 <= j < nodes.len() ==> #[trigger] node_good(nodes, j, content.len() as int)
    &&& nodes[0].size == nodes.len()
    &&& nodes[0].kind != JsonKind::Key
}

/// The node indices held by the open frames.
pub open spec fn frame_idx(stack: Seq<Frame>, i: int) -> int {
    stack[i].node_idx as int
}

/// Node `j` is held by an open frame.
pub open spec fn is_open(stack: Seq<Frame>, j: int) -> bool {
    exists|i: int| 0 <= i < stack.len() && #[trigger] frame_idx(stack, i) == j
}

// === the parse, as a machine over the bytes alone ===

/// An open container while reading JSON: the index of its node, whether it
/// is an object, and the decoded member keys met so far with the positions
/// of their content.
pub struct OpenContainer {
    pub node: int,
    pub is_object: bool,
    pub keys: Seq<(Seq<u32>, int)>,
}

/// Where a read of JSON stands: the cursor, the open containers, whether a
/// value comes next, and the nodes so far (an open container's end and size
/// are filled in when it closes).
pub struct ReadState {
    pub p: int,
    pub stack: Seq<OpenContainer>,
    pub expect_value: bool,
    pub out: Seq<JsonNode>,
}

/// One step of the read.
pub enum ReadStep {
    /// The bytes are not JSON (or nest deeper than allowed).
    Fail,
    /// The value is complete; the nodes read are the table.
    Done,
    /// The read continues from here.
    Next(ReadState),
}

/// Some two keys are equal.
pub open spec fn keys_dup(keys: Seq<(Seq<u32>, int)>) -> bool {
    exists|i: int, j: int| 0 <= i < j < keys.len() && keys[i].0 == keys[j].0
}

/// The kind of node whose value starts with byte `b`.
pub open spec fn value_kind(b: u8) -> Option<JsonKind> {
    if b == 0x7B {
        Some(JsonKind::Object)
    } else if b == 0x5B {
        Some(JsonKind::Array)
    } else if b == 0x22 {
        Some(JsonKind::String)
    } else if b == 0x74 || b == 0x66 {
        Some(JsonKind::Bool)
    } else if b == 0x6E {
        Some(JsonKind::Null)
    } else if b == 0x2D || (0x30 <= b && b <= 0x39) {
        Some(JsonKind::Number)
    } else {
        None
    }
}

/// One past the scalar value of kind `kind` starting at `p`, if it is
/// well-formed.
pub open spec fn scalar_end(c: Seq<u8>, p: int, kind: JsonKind) -> Option<int> {
    if kind == JsonKind::String {
        spec_scan_string(c, p)
    } else if kind == JsonKind::Number {
        spec_scan_number(c, p)
    } else if c[p] == 0x74 {
        if crate::validate::http::lit_at(c, p, seq![0x74u8, 0x72u8, 0x75u8, 0x65u8]) {
            Some(p + 4)
        } else {
            None
        }
    } else if c[p] == 0x66 {
        if crate::validate::http::lit_at(c, p, seq![0x66u8, 0x61u8, 0x6cu8, 0x73u8, 0x65u8]) {
            Some(p + 5)
        } else {
            None
        }
    } else if crate::validate::http::lit_at(c, p, seq![0x6eu8, 0x75u8, 0x6cu8, 0x6cu8]) {
        Some(p + 4)
    } else {
        None
    }
}

/// Closes the innermost container at `s.p` (one past its closer): its node
/// gets its end and size; duplicate keys fail.
pub open spec fn read_close(s: ReadState) -> ReadStep {
    let top = s.stack.last();
    let ni = top.node;
    if top.keys.len() > 1 && keys_dup(top.keys) {
        ReadStep::Fail
    } else {
        ReadStep::Next(
            ReadState {
                p: s.p,
                stack: s.stack.drop_last(),
                expect_value: false,
                out: s.out.update(
                    ni,
                    JsonNode {
                        kind: s.out[ni].kind,
                        start: s.out[ni].start,
                        end: s.p as u32,
                        size: (s.out.len() - ni) as u32,
                    },
                ),
            },
        )
    }
}

/// Reads an object-member key at `s.p` and the colon after it.
pub open spec fn read_member(c: Seq<u8>, s: ReadState) -> ReadStep {
    let p = s.p;
    if p >= c.len() || c[p] != 0x22 || s.stack.len() == 0 {
        ReadStep::Fail
    } else {
        match spec_scan_string(c, p) {
            None => ReadStep::Fail,
            Some(end) => {
                let q = jws_end(c, end);
                if q >= c.len() || c[q] != 0x3A {
                    ReadStep::Fail
                } else {
                    let top = s.stack.last();
                    let key = key_units(c.subrange(p + 1, end - 1), 0);
                    let top2 = OpenContainer {
                        node: top.node,
                        is_object: top.is_object,
                        keys: top.keys.push((key, p + 1)),
                    };
                    ReadStep::Next(
                        ReadState {
                            p: jws_end(c, q + 1),
                            stack: s.stack.update(s.stack.len() - 1, top2),
                            expect_value: s.expect_value,
                            out: s.out.push(
                                JsonNode {
                                    kind: JsonKind::Key,
                                    start: (p + 1) as u32,
                                    end: (end - 1) as u32,
                                    size: 1,
                                },
                            ),
                        },
                    )
                }
            },
        }
    }
}

/// One step of reading `c`.
pub open spec fn read_step(c: Seq<u8>, s: ReadState) -> ReadStep {
    let p = s.p;
    if s.expect_value {
        if p < 0 || p >= c.len() {
            ReadStep::Fail
        } else {
            match value_kind(c[p]) {
                None => ReadStep::Fail,
                Some(kind) => {
                    let start = if kind == JsonKind::String { p + 1 } else { p };
                    if kind == JsonKind::Object || kind == JsonKind::Array {
                        if s.stack.len() >= MAX_JSON_DEPTH {
                            ReadStep::Fail
                        } else {
                            let is_object = kind == JsonKind::Object;
                            let s1 = ReadState {
                                p: jws_end(c, p + 1),
                                stack: s.stack.push(
                                    OpenContainer { node: s.out.len() as int, is_object, keys: Seq::empty() },
                                ),
                                expect_value: true,
                                out: s.out.push(JsonNode { kind, start: start as u32, end: 0, size: 0 }),
                            };
                            let q = s1.p;
                            let closer: u8 = if is_object { 0x7D } else { 0x5D };
                            if q < c.len() && c[q] == closer {
                                read_close(ReadState { p: q + 1, expect_value: false, ..s1 })
                            } else if is_object {
                                read_member(c, s1)
                            } else {
                                ReadStep::Next(s1)
                            }
                        }
                    } else {
                        match scalar_end(c, p, kind) {
                            None => ReadStep::Fail,
                            Some(e) => {
                                let end = if kind == JsonKind::String { e - 1 } else { e };
                                ReadStep::Next(
                                    ReadState {
                                        p: e,
                                        stack: s.stack,
                                        expect_value: false,
                                        out: s.out.push(
                                            JsonNode { kind, start: start as u32, end: end as u32, size: 1 },
                                        ),
                                    },
                                )
                            },
                        }
                    }
                },
            }
        }
    } else if s.stack.len() == 0 {
        if jws_end(c, p) == c.len() {
            ReadStep::Done
        } else {
            ReadStep::Fail
        }
    } else {
        let top = s.stack.last();
        let q = jws_end(c, p);
        if q < 0 || q >= c.len() {
            ReadStep::Fail
        } else if c[q] == 0x2C {
            let s1 = ReadState { p: jws_end(c, q + 1), expect_value: true, ..s };
            if top.is_object {
                read_member(c, s1)
            } else {
                ReadStep::Next(s1)
            }
        } else if c[q] == (if top.is_object { 0x7Du8 } else { 0x5Du8 }) {
            read_close(ReadState { p: q + 1, expect_value: false, ..s })
        } else {
            ReadStep::Fail
        }
    }
}

/// Reads `c` from `s` to the end: the node table, if the read succeeds.
pub open spec fn read_from(c: Seq<u8>, s: ReadState) -> Option<Seq<JsonNode>>
    decreases c.len() - s.p,
{
    match read_step(c, s) {
        ReadStep::Fail => None,
        ReadStep::Done => Some(s.out),
        ReadStep::Next(s2) => {
            if s.p < s2.p <= c.len() {
                read_from(c, s2)
            } else {
                None
            }
        },
    }
}

/// The node table of the JSON text `c`: every value and key in pre-order,
/// if `c` is well-formed UTF-8 holding one RFC 8259 value (nested at most
/// 127 deep, without duplicate keys in any object).
pub open spec fn json_parse(c: Seq<u8>) -> Option<Seq<JsonNode>> {
    if !utf8_valid(c) {
        None
    } else {
        read_from(
            c,
            ReadState { p: jws_end(c, 0), stack: Seq::empty(), expect_value: true, out: Seq::empty() },
        )
    }
}

/// What reading the object-member key at `p` (through the colon, to `q`)
/// gives: its node, and the top frame's keys extended by its decoded form.
pub open spec fn key_read(
    c: Seq<u8>,
    p: int,
    q: int,
    node: JsonNode,
    before: Seq<Frame>,
    after: Seq<Frame>,
) -> bool {
    let end = spec_scan_string(c, p)->0;
    let colon = jws_end(c, end);
    let t = before.len() - 1;
    &&& colon < c.len()
    &&& c[colon] == 0x3A
    &&& q == jws_end(c, colon + 1)
    &&& node == JsonNode { kind: JsonKind::Key, start: (p + 1) as u32, end: (end - 1) as u32, size: 1 }
    &&& after.len() == before.len()
    &&& forall|i: int| 0 <= i < t ==> after[i] == before[i]
    &&& after[t].node_idx == before[t].node_idx
    &&& after[t].is_object == before[t].is_object
    &&& keys_view(after[t].keys@) == keys_view(before[t].keys@).push(
        (key_units(c.subrange(p + 1, end - 1), 0), p + 1),
    )
}

/// The decoded keys with their positions.
pub open spec fn keys_view(v: Seq<(Vec<u32>, usize)>) -> Seq<(Seq<u32>, int)> {
    v.map_values(|e: (Vec<u32>, usize)| (e.0@, e.1 as int))
}

/// Verifies one object-member key at `p` against node `k`, records its
/// decoded form in the top frame, and consumes the following colon.
///
/// Returns the cursor at the member value's first byte and the next node
/// index.
pub fn member_key(
    content: &[u8],
    nodes: &[JsonNode],
    stack: &mut Vec<Frame>,
    p: usize,
    k: usize,
) -> (r: Result<(usize, usize), Error>)
    requires
        p <= content@.len(),
    ensures
        final(stack)@.len() == old(stack)@.len(),
        forall|i: int|
            0 <= i < old(stack)@.len() ==> (#[trigger] final(stack)@[i]).node_idx == old(
                stack,
            )@[i].node_idx && final(stack)@[i].is_object == old(stack)@[i].is_object,
        r matches Ok((q, k2)) ==> {
            &&& k2 == k + 1
            &&& k < nodes@.len()
            &&& node_good(nodes@, k as int, content@.len() as int)
            &&& nodes@[k as int].kind == JsonKind::Key
            &&& p < q <= content@.len()
            &&& old(stack)@.len() > 0
            &&& spec_scan_string(content@, p as int) is Some
            &&& key_read(content@, p as int, q as int, nodes@[k as int], old(stack)@, final(stack)@)
        },
        r is Err && content@.len() <= u32::MAX ==> !{
            let end = spec_scan_string(content@, p as int)->0;
            let colon = jws_end(content@, end);
            &&& p < content@.len()
            &&& content@[p as int] == 0x22
            &&& old(stack)@.len() > 0
            &&& spec_scan_string(content@, p as int) is Some
            &&& colon < content@.len()
            &&& content@[colon] == 0x3A
            &&& k < nodes@.len()
            &&& nodes@[k as int] == JsonNode {
                kind: JsonKind::Key,
                start: (p + 1) as u32,
                end: (end - 1) as u32,
                size: 1,
            }
        },
        r matches Err(e) ==> e is Json || e is Table,
{
    if p >= content.len() || content[p] != 0x22 {
        return Err(json_err(p, "expected object key"));
    }
    if k >= nodes.len() {
        return Err(json_err(p, "node table exhausted"));
    }
    let node = nodes[k];
    if node.kind != JsonKind::Key {
        return Err(json_err(p, "node kind mismatch"));
    }
    if node.start as usize != p + 1 {
        return Err(json_err(p, "node start mismatch"));
    }
    proof {
        lemma_string_error_json(content@, p + 1);
    }
    let end = scan_string(content, p)?;
    proof {
        lemma_string_rest_end(content@, p + 1);
    }
    if node.end as usize != end - 1 {
        return Err(json_err(p, "node end mismatch"));
    }
    if node.size != 1 {
        return Err(json_err(p, "leaf node size mismatch"));
    }
    let raw = &content[p + 1..end - 1];
    let n = stack.len();
    if n == 0 {
        return Err(Error::Table { reason: "internal: member key without open object" });
    }
    let ghost old_stack = stack@;
    let mut frame = stack.pop().unwrap();
    let ghost old_keys = frame.keys@;
    let key = decode_key(raw);
    proof {
        assert(raw@ =~= content@.subrange(p + 1, end - 1));
    }
    frame.keys.push((key, p + 1));
    proof {
        assert(keys_view(frame.keys@) =~= keys_view(old_keys).push(
            (key_units(content@.subrange(p + 1, end - 1), 0), p + 1),
        ));
    }
    stack.push(frame);
    proof {
        assert forall|i: int| 0 <= i < old_stack.len() implies (#[trigger] stack@[i]).node_idx
            == old_stack[i].node_idx && stack@[i].is_object == old_stack[i].is_object by {
            if i < old_stack.len() - 1 {
                assert(stack@[i] == old_stack[i]);
            }
        }
    }
    let mut q = skip_jws(content, end);
    if q >= content.len() || content[q] != 0x3A {
        return Err(json_err(q, "expected colon"));
    }
    q = skip_jws(content, q + 1);
    Ok((q, k + 1))
}

/// Pops the top frame at a container close (`p` one past the closer, `k`
/// the next unconsumed node): checks the container node's end and subtree
/// size, then rejects duplicate decoded keys.
pub fn close_frame(nodes: &[JsonNode], stack: &mut Vec<Frame>, p: usize, k: usize) -> (r: Result<
    (),
    Error,
>)
    requires
        old(stack)@.len() > 0,
    ensures
        final(stack)@ == old(stack)@.drop_last(),
        r is Ok <==> {
            let ni = old(stack)@.last().node_idx as int;
            &&& ni < nodes@.len()
            &&& nodes@[ni].end == p
            &&& nodes@[ni].size == k - ni
            &&& (old(stack)@.last().keys@.len() > 1 ==> !has_duplicate_key(old(stack)@.last().keys@))
        },
        r matches Err(e) ==> e is Json || e is Table,
        r matches Err(e) ==> ({
            let f = old(stack)@.last();
            let ni = f.node_idx as int;
            (ni < nodes@.len() && nodes@[ni].end == p && nodes@[ni].size == k - ni && f.keys@.len() > 1
                && has_duplicate_key(f.keys@)) ==> e == json_error(
                dup_report(keys_view(f.keys@)),
                "duplicate object key",
            )
        }),
{
    let frame = stack.pop().unwrap();
    if frame.node_idx >= nodes.len() {
        return Err(Error::Table { reason: "internal: frame node out of range" });
    }
    let node = nodes[frame.node_idx];
    let at = if p >= 1 {
        p - 1
    } else {
        0
    };
    if node.end as usize != p {
        return Err(json_err(at, "container end mismatch"));
    }
    let expected_size = if k >= frame.node_idx {
        k - frame.node_idx
    } else {
        0
    };
    if node.size as usize != expected_size || k < frame.node_idx {
        return Err(json_err(at, "container size mismatch"));
    }
    if frame.keys.len() > 1 {
        if let Some(pos) = find_duplicate_key(&frame.keys) {
            proof {
                let j = choose|j: int|
                    0 <= j < frame.keys@.len() && #[trigger] repeats_key(frame.keys@, j) && frame.keys@[j].1
                        == pos && forall|j2: int|
                        0 <= j2 < frame.keys@.len() && #[trigger] repeats_key(frame.keys@, j2) ==> !entry_lt(
                            frame.keys@[j2],
                            frame.keys@[j],
                        );
                lemma_dup_report(frame.keys@, j);
            }
            return Err(json_err(pos, "duplicate object key"));
        }
    }
    Ok(())
}

/// The walk's open frames are the read's open containers.
pub open spec fn frames_match(stack: Seq<Frame>, st: Seq<OpenContainer>) -> bool {
    &&& stack.len() == st.len()
    &&& forall|i: int|
        0 <= i < st.len() ==> {
            &&& (#[trigger] st[i]).node == stack[i].node_idx
            &&& st[i].is_object == stack[i].is_object
            &&& st[i].keys == keys_view(stack[i].keys@)
        }
}

/// The first `k` table nodes are the nodes read so far (an open
/// container's only by kind and start).
pub open spec fn nodes_match(nodes: Seq<JsonNode>, out: Seq<JsonNode>, stack: Seq<Frame>, k: int) -> bool {
    &&& out.len() == k
    &&& k <= nodes.len()
    &&& forall|j: int|
        0 <= j < k ==> {
            &&& (#[trigger] nodes[j]).kind == out[j].kind
            &&& nodes[j].start == out[j].start
            &&& (!is_open(stack, j) ==> nodes[j] == out[j])
        }
}

/// The keys repeat exactly when their decoded forms do.
proof fn lemma_keys_dup(v: Seq<(Vec<u32>, usize)>)
    ensures
        has_duplicate_key(v) == keys_dup(keys_view(v)),
{
    let w = keys_view(v);
    if has_duplicate_key(v) {
        let (i, j) = choose|i: int, j: int| 0 <= i < j < v.len() && v[i].0@ == v[j].0@;
        assert(w[i].0 == w[j].0);
    }
    if keys_dup(w) {
        let (i, j) = choose|i: int, j: int| 0 <= i < j < w.len() && w[i].0 == w[j].0;
        assert(v[i].0@ == v[j].0@);
    }
}

/// Opening a container keeps the walk on the read.
proof fn lemma_open_matches(
    nodes: Seq<JsonNode>,
    st0: ReadState,
    old_stack: Seq<Frame>,
    new_stack: Seq<Frame>,
    idx: int,
    s1: ReadState,
)
    requires
        frames_match(old_stack, st0.stack),
        nodes_match(nodes, st0.out, old_stack, idx),
        idx < nodes.len(),
        forall|i: int| 0 <= i < old_stack.len() ==> #[trigger] frame_idx(old_stack, i) < idx,
        new_stack.len() == old_stack.len() + 1,
        forall|i: int| 0 <= i < old_stack.len() ==> new_stack[i] == old_stack[i],
        new_stack.last().node_idx == idx,
        new_stack.last().keys@.len() == 0,
        s1.stack == st0.stack.push(
            OpenContainer {
                node: st0.out.len() as int,
                is_object: new_stack.last().is_object,
                keys: Seq::empty(),
            },
        ),
        s1.out == st0.out.push(JsonNode { kind: nodes[idx].kind, start: nodes[idx].start, end: 0, size: 0 }),
    ensures
        frames_match(new_stack, s1.stack),
        nodes_match(nodes, s1.out, new_stack, idx + 1),
{
    let t = old_stack.len() as int;
    assert(keys_view(new_stack[t].keys@) =~= Seq::<(Seq<u32>, int)>::empty());
    assert forall|i: int| 0 <= i < s1.stack.len() implies {
        &&& (#[trigger] s1.stack[i]).node == new_stack[i].node_idx
        &&& s1.stack[i].is_object == new_stack[i].is_object
        &&& s1.stack[i].keys == keys_view(new_stack[i].keys@)
    } by {
        if i < t {
            assert(s1.stack[i] == st0.stack[i]);
        }
    }
    assert forall|j: int| 0 <= j < idx + 1 implies {
        &&& (#[trigger] nodes[j]).kind == s1.out[j].kind
        &&& nodes[j].start == s1.out[j].start
        &&& (!is_open(new_stack, j) ==> nodes[j] == s1.out[j])
    } by {
        if j < idx {
            assert(s1.out[j] == st0.out[j]);
            if is_open(old_stack, j) {
                let i = choose|i: int| 0 <= i < old_stack.len() && #[trigger] frame_idx(old_stack, i) == j;
                assert(frame_idx(new_stack, i) == j);
            }
        } else {
            assert(frame_idx(new_stack, t) == j);
        }
    }
}

/// Closing a container keeps the walk on the read.
proof fn lemma_close_matches(nodes: Seq<JsonNode>, s2: ReadState, st_mid: Seq<Frame>, new_stack: Seq<Frame>, k: int)
    requires
        st_mid.len() > 0,
        frames_match(st_mid, s2.stack),
        nodes_match(nodes, s2.out, st_mid, k),
        new_stack == st_mid.drop_last(),
        forall|i: int| 0 <= i < st_mid.len() ==> #[trigger] frame_idx(st_mid, i) < k,
        forall|i: int, i2: int| 0 <= i < i2 < st_mid.len() ==> #[trigger] frame_idx(st_mid, i) < #[trigger] frame_idx(st_mid, i2),
        ({
            let ni = st_mid.last().node_idx as int;
            &&& ni < nodes.len()
            &&& nodes[ni].end == s2.p
            &&& nodes[ni].size == k - ni
            &&& (st_mid.last().keys@.len() > 1 ==> !has_duplicate_key(st_mid.last().keys@))
        }),
    ensures
        read_close(s2) is Next,
        frames_match(new_stack, (read_close(s2)->0).stack),
        nodes_match(nodes, (read_close(s2)->0).out, new_stack, k),
        (read_close(s2)->0).p == s2.p,
        !(read_close(s2)->0).expect_value,
{
    let t = st_mid.len() - 1;
    let top = s2.stack.last();
    let ni = st_mid[t].node_idx as int;
    assert(top == s2.stack[t]);
    lemma_keys_dup(st_mid[t].keys@);
    let s3 = read_close(s2)->0;
    assert forall|i: int| 0 <= i < s3.stack.len() implies {
        &&& (#[trigger] s3.stack[i]).node == new_stack[i].node_idx
        &&& s3.stack[i].is_object == new_stack[i].is_object
        &&& s3.stack[i].keys == keys_view(new_stack[i].keys@)
    } by {
        assert(s3.stack[i] == s2.stack[i]);
        assert(new_stack[i] == st_mid[i]);
    }
    assert(frame_idx(st_mid, t) == ni);
    assert forall|j: int| 0 <= j < k implies {
        &&& (#[trigger] nodes[j]).kind == s3.out[j].kind
        &&& nodes[j].start == s3.out[j].start
        &&& (!is_open(new_stack, j) ==> nodes[j] == s3.out[j])
    } by {
        if j == ni {
        } else {
            assert(s3.out[j] == s2.out[j]);
            if is_open(st_mid, j) {
                let i = choose|i: int| 0 <= i < st_mid.len() && #[trigger] frame_idx(st_mid, i) == j;
                assert(i != t);
                assert(frame_idx(new_stack, i) == j);
            }
        }
    }
}

/// Reading a member key keeps the walk on the read.
proof fn lemma_member_matches(
    c: Seq<u8>,
    nodes: Seq<JsonNode>,
    s1: ReadState,
    st_mid: Seq<Frame>,
    new_stack: Seq<Frame>,
    k: int,
    q: int,
)
    requires
        frames_match(st_mid, s1.stack),
        nodes_match(nodes, s1.out, st_mid, k),
        k < nodes.len(),
        forall|i: int| 0 <= i < st_mid.len() ==> #[trigger] frame_idx(st_mid, i) < k,
        st_mid.len() > 0,
        0 <= s1.p,
        spec_scan_string(c, s1.p) is Some,
        key_read(c, s1.p, q, nodes[k], st_mid, new_stack),
    ensures
        read_member(c, s1) is Next,
        (read_member(c, s1)->0).p == q,
        (read_member(c, s1)->0).expect_value == s1.expect_value,
        frames_match(new_stack, (read_member(c, s1)->0).stack),
        nodes_match(nodes, (read_member(c, s1)->0).out, new_stack, k + 1),
{
    let t = st_mid.len() - 1;
    let s3 = read_member(c, s1)->0;
    assert(s1.stack.last() == s1.stack[t]);
    assert(s3.out == s1.out.push(nodes[k]));
    assert forall|i: int| 0 <= i < s3.stack.len() implies {
        &&& (#[trigger] s3.stack[i]).node == new_stack[i].node_idx
        &&& s3.stack[i].is_object == new_stack[i].is_object
        &&& s3.stack[i].keys == keys_view(new_stack[i].keys@)
    } by {
        if i < t {
            assert(s3.stack[i] == s1.stack[i]);
            assert(new_stack[i] == st_mid[i]);
        }
    }
    assert forall|i: int| 0 <= i < st_mid.len() implies #[trigger] frame_idx(new_stack, i) == frame_idx(st_mid, i) by {
        if i < t {
            assert(new_stack[i] == st_mid[i]);
        }
    }
    assert forall|j: int| 0 <= j < k + 1 implies {
        &&& (#[trigger] nodes[j]).kind == s3.out[j].kind
        &&& nodes[j].start == s3.out[j].start
        &&& (!is_open(new_stack, j) ==> nodes[j] == s3.out[j])
    } by {
        if j < k {
            assert(s3.out[j] == s1.out[j]);
            if is_open(st_mid, j) {
                let i = choose|i: int| 0 <= i < st_mid.len() && #[trigger] frame_idx(st_mid, i) == j;
                assert(frame_idx(new_stack, i) == j);
            }
        } else {
            assert(s3.out[j] == nodes[k]);
        }
    }
}

/// Reading a scalar value keeps the walk on the read.
proof fn lemma_leaf_matches(nodes: Seq<JsonNode>, st0: ReadState, stack: Seq<Frame>, idx: int, s1: ReadState)
    requires
        nodes_match(nodes, st0.out, stack, idx),
        idx < nodes.len(),
        forall|i: int| 0 <= i < stack.len() ==> #[trigger] frame_idx(stack, i) < idx,
        s1.out == st0.out.push(nodes[idx]),
    ensures
        nodes_match(nodes, s1.out, stack, idx + 1),
{
    assert forall|j: int| 0 <= j < idx + 1 implies {
        &&& (#[trigger] nodes[j]).kind == s1.out[j].kind
        &&& nodes[j].start == s1.out[j].start
        &&& (!is_open(stack, j) ==> nodes[j] == s1.out[j])
    } by {
        if j < idx {
            assert(s1.out[j] == st0.out[j]);
        }
    }
}

/// With no container open, the table is the nodes read.
proof fn lemma_all_closed(nodes: Seq<JsonNode>, out: Seq<JsonNode>, stack: Seq<Frame>, k: int)
    requires
        stack.len() == 0,
        nodes_match(nodes, out, stack, k),
        k == nodes.len(),
    ensures
        nodes == out,
{
    assert forall|j: int| 0 <= j < k implies nodes[j] == out[j] by {
        assert(nodes[j].kind == out[j].kind);
        assert(!is_open(stack, j));
    }
    assert(nodes =~= out);
}

/// Verifies that `nodes` is the pre-order parse of `content` (a decoded
/// body; all node spans in decoded-body coordinates).
///
/// One forward pass with an explicit stack (at most 127 open containers)
/// and a lockstep node cursor: a whole-body UTF-8 check; the root spans the
/// whitespace-trimmed body; the byte at the cursor determines the only
/// admissible node kind; container interiors are exactly tiled by their
/// children and separators with whitespace-only gaps; strings, keys,
/// numbers and literals are checked lexically; duplicate decoded keys are
/// rejected.
///
/// Every error is a `Json` or `Table` error. Where the table holds all that
/// the read of `content` gives up to the point where the read fails, a
/// 128th open container is the table error "JSON nesting depth exceeds
/// 127", and a repeated decoded key is a `Json` error "duplicate object
/// key" at the second occurrence of the least repeated key.
#[verifier::rlimit(100)]
#[verifier::spinoff_prover]
pub fn validate_json(content: &[u8], nodes: &[JsonNode]) -> (r: Result<(), Error>)
    ensures
        r is Ok ==> json_table_sane(content@, nodes@),
        r is Ok ==> json_parse(content@) == Some(nodes@),
        r is Err && content@.len() <= u32::MAX ==> json_parse(content@) != Some(nodes@),
        nodes@.len() == 0 ==> r is Err,
        nodes@.len() > content@.len() ==> r is Err,
        !utf8_valid(content@) ==> r is Err,
        r matches Err(e) ==> e is Json || e is Table,
        nodes@.len() == 0 ==> r == Err::<(), Error>(Error::Table { reason: "empty JSON node table" }),
        1 <= nodes@.len() && nodes@.len() > content@.len() ==> r == Err::<(), Error>(
            Error::Table { reason: "more JSON nodes than body bytes" },
        ),
        1 <= nodes@.len() <= content@.len() && !utf8_valid(content@) ==> r == Err::<(), Error>(
            json_error(crate::utf8::utf8_error_from(content@, 0), "body is not valid UTF-8"),
        ),
        content@.len() <= u32::MAX && 1 <= nodes@.len() <= content@.len() ==> (json_reject(
            content@,
            nodes@,
        ) matches Some(e) ==> r == Err::<(), Error>(e)),
{
    if nodes.len() == 0 || nodes.len() > content.len() {
        proof {
            if json_parse(content@) is Some {
                lemma_parse_bounds(content@);
            }
        }
    }
    if nodes.len() == 0 {
        return Err(Error::Table { reason: "empty JSON node table" });
    }
    if nodes.len() > content.len() {
        return Err(Error::Table { reason: "more JSON nodes than body bytes" });
    }
    let up = utf8_valid_up_to(content);
    if up != content.len() {
        return Err(json_err(up, "body is not valid UTF-8"));
    }
    let lit_true: [u8; 4] = [0x74, 0x72, 0x75, 0x65];
    let lit_false: [u8; 5] = [0x66, 0x61, 0x6c, 0x73, 0x65];
    let lit_null: [u8; 4] = [0x6e, 0x75, 0x6c, 0x6c];
    let mut stack: Vec<Frame> = Vec::new();
    let mut p = skip_jws(content, 0);
    let mut k: usize = 0;
    let mut expect_value = true;
    let ghost c = content@;
    let ghost mut st = ReadState { p: p as int, stack: Seq::empty(), expect_value: true, out: Seq::empty() };
    proof {
        assert(lit_true@ =~= seq![0x74u8, 0x72u8, 0x75u8, 0x65u8]);
        assert(lit_false@ =~= seq![0x66u8, 0x61u8, 0x6cu8, 0x73u8, 0x65u8]);
        assert(lit_null@ =~= seq![0x6eu8, 0x75u8, 0x6cu8, 0x6cu8]);
    }
    loop
        invariant
            c == content@,
            lit_true@ == seq![0x74u8, 0x72u8, 0x75u8, 0x65u8],
            lit_false@ == seq![0x66u8, 0x61u8, 0x6cu8, 0x73u8, 0x65u8],
            lit_null@ == seq![0x6eu8, 0x75u8, 0x6cu8, 0x6cu8],
            1 <= nodes@.len() <= content@.len(),
            utf8_valid(content@),
            p <= content@.len(),
            k <= nodes@.len(),
            stack@.len() <= MAX_JSON_DEPTH,
            forall|i: int|
                0 <= i < stack@.len() ==> #[trigger] frame_idx(stack@, i) < k && nodes@[frame_idx(
                    stack@,
                    i,
                )].start <= p,
            forall|i: int, i2: int|
                0 <= i < i2 < stack@.len() ==> #[trigger] frame_idx(stack@, i) < #[trigger] frame_idx(
                    stack@,
                    i2,
                ),
            forall|j: int|
                0 <= j < k ==> #[trigger] node_good(nodes@, j, content@.len() as int) || is_open(
                    stack@,
                    j,
                ),
            stack@.len() > 0 ==> frame_idx(stack@, 0) == 0,
            k > 0 ==> nodes@[0].kind != JsonKind::Key,
            expect_value && stack@.len() == 0 ==> k == 0,
            !expect_value && stack@.len() == 0 ==> k >= 1 && nodes@[0].size == k,
            // the walk follows the read of the bytes alone
            st.p == p,
            st.expect_value == expect_value,
            frames_match(stack@, st.stack),
            nodes_match(nodes@, st.out, stack@, k as int),
            json_parse(c) == read_from(c, st),
            json_fail(c) == fail_from(c, st),
            read_wf(st),
        decreases content@.len() - p,
    {
        let ghost p0 = p;
        let ghost old_stack = stack@;
        let ghost st0 = st;
        if expect_value {
            if p >= content.len() {
                proof {
                    assert(read_step(c, st0) == ReadStep::Fail);
                }
                return Err(json_err(p, "expected a JSON value"));
            }
            let b = content[p];
            let kind = if b == 0x7B {
                JsonKind::Object
            } else if b == 0x5B {
                JsonKind::Array
            } else if b == 0x22 {
                JsonKind::String
            } else if b == 0x74 || b == 0x66 {
                JsonKind::Bool
            } else if b == 0x6E {
                JsonKind::Null
            } else if b == 0x2D || (0x30 <= b && b <= 0x39) {
                JsonKind::Number
            } else {
                proof {
                    assert(value_kind(b) is None);
                    assert(read_step(c, st0) == ReadStep::Fail);
                }
                return Err(json_err(p, "unexpected byte at value position"));
            };
            proof {
                assert(value_kind(b) == Some(kind));
            }
            if k >= nodes.len() {
                proof {
                    lemma_value_conflict(c, st0, nodes@);
                    lemma_fail_value_conflict(c, st0, nodes@);
                }
                return Err(json_err(p, "node table exhausted"));
            }
            let node = nodes[k];
            if node.kind != kind {
                proof {
                    lemma_value_conflict(c, st0, nodes@);
                    lemma_fail_value_conflict(c, st0, nodes@);
                }
                return Err(json_err(p, "node kind mismatch"));
            }
            let claimed_start = if kind == JsonKind::String {
                p + 1
            } else {
                p
            };
            if node.start as usize != claimed_start {
                proof {
                    if content@.len() <= u32::MAX {
                        lemma_value_conflict(c, st0, nodes@);
                        lemma_fail_value_conflict(c, st0, nodes@);
                    }
                }
                return Err(json_err(p, "node start mismatch"));
            }
            let node_idx = k;
            k += 1;
            if kind == JsonKind::Object || kind == JsonKind::Array {
                if stack.len() >= MAX_JSON_DEPTH {
                    proof {
                        assert(read_step(c, st0) == ReadStep::Fail);
                    }
                    return Err(Error::Table { reason: "JSON nesting depth exceeds 127" });
                }
                let is_object = kind == JsonKind::Object;
                stack.push(Frame { node_idx, is_object, keys: Vec::new() });
                proof {
                    assert forall|j: int| 0 <= j < k implies #[trigger] node_good(
                        nodes@,
                        j,
                        content@.len() as int,
                    ) || is_open(stack@, j) by {
                        if j == node_idx {
                            assert(frame_idx(stack@, old_stack.len() as int) == j);
                        } else if is_open(old_stack, j) {
                            let i = choose|i: int|
                                0 <= i < old_stack.len() && #[trigger] frame_idx(old_stack, i) == j;
                            assert(frame_idx(stack@, i) == j);
                        }
                    }
                    assert forall|i: int| 0 <= i < stack@.len() implies #[trigger] frame_idx(stack@, i) < k
                        && nodes@[frame_idx(stack@, i)].start <= p by {
                        if i < old_stack.len() {
                            assert(frame_idx(stack@, i) == frame_idx(old_stack, i));
                        }
                    }
                    assert forall|i: int, i2: int| 0 <= i < i2 < stack@.len() implies #[trigger] frame_idx(
                        stack@,
                        i,
                    ) < #[trigger] frame_idx(stack@, i2) by {
                        assert(frame_idx(stack@, i) == frame_idx(old_stack, i));
                        if i2 < old_stack.len() {
                            assert(frame_idx(stack@, i2) == frame_idx(old_stack, i2));
                        }
                    }
                    if old_stack.len() > 0 {
                        assert(frame_idx(stack@, 0) == frame_idx(old_stack, 0));
                    }
                }
                p = skip_jws(content, p + 1);
                let ghost s1 = ReadState {
                    p: p as int,
                    stack: st0.stack.push(
                        OpenContainer { node: st0.out.len() as int, is_object, keys: Seq::empty() },
                    ),
                    expect_value: true,
                    out: st0.out.push(JsonNode { kind, start: claimed_start as u32, end: 0, size: 0 }),
                };
                proof {
                    lemma_open_matches(nodes@, st0, old_stack, stack@, node_idx as int, s1);
                }
                let closer: u8 = if is_object {
                    0x7D
                } else {
                    0x5D
                };
                if p < content.len() && content[p] == closer {
                    p += 1;
                    let ghost st_mid = stack@;
                    match close_frame(nodes, &mut stack, p, k) {
                        Ok(()) => {},
                        Err(e) => {
                            proof {
                                if content@.len() <= u32::MAX {
                                    let s2 = ReadState { p: p as int, expect_value: false, ..s1 };
                                    assert(read_step(c, st0) == read_close(s2));
                                    lemma_not_open_past(st0, node_idx as int);
                                    assert(st0.stack.push(s1.stack.last()).drop_last() =~= st0.stack);
                                    lemma_next_conflict(c, st0, nodes@, node_idx as int);
                                    lemma_fail_next_conflict(c, st0, nodes@, node_idx as int);
                                }
                            }
                            return Err(e);
                        },
                    }
                    proof {
                        lemma_close_keeps(nodes@, st_mid, stack@, k as int, p as int, content@.len() as int);
                        let s2 = ReadState { p: p as int, expect_value: false, ..s1 };
                        lemma_close_matches(nodes@, s2, st_mid, stack@, k as int);
                        assert(read_step(c, st0) == read_close(s2));
                        st = read_close(s2)->0;
                    }
                    expect_value = false;
                } else if is_object {
                    let ghost st_mid = stack@;
                    let (q, k2) = match member_key(content, nodes, &mut stack, p, k) {
                        Ok(x) => x,
                        Err(e) => {
                            proof {
                                if content@.len() <= u32::MAX {
                                    assert(read_step(c, st0) == read_member(c, s1));
                                    if read_member(c, s1) is Next {
                                        lemma_open_keeps_read(st0, s1, kind, claimed_start as int, is_object);
                                        lemma_member_keeps_read(c, s1);
                                        lemma_next_conflict(c, st0, nodes@, k as int);
                                        lemma_fail_next_conflict(c, st0, nodes@, k as int);
                                    }
                                }
                            }
                            return Err(e);
                        },
                    };
                    proof {
                        lemma_key_keeps(nodes@, st_mid, stack@, k as int, content@.len() as int);
                        lemma_member_matches(c, nodes@, s1, st_mid, stack@, k as int, q as int);
                        assert(read_step(c, st0) == read_member(c, s1));
                        st = read_member(c, s1)->0;
                    }
                    p = q;
                    k = k2;
                } else {
                    proof {
                        assert(read_step(c, st0) == ReadStep::Next(s1));
                        st = s1;
                    }
                }
            } else {
                let end = if b == 0x22 {
                    let e = match scan_string(content, p) {
                        Ok(e) => e,
                        Err(err) => {
                            proof {
                                assert(scalar_end(c, p as int, kind) is None);
                                assert(read_step(c, st0) == ReadStep::Fail);
                                lemma_string_error_json(content@, p + 1);
                            }
                            return Err(err);
                        },
                    };
                    proof {
                        lemma_string_rest_end(content@, p + 1);
                    }
                    e
                } else if b == 0x2D || (0x30 <= b && b <= 0x39) {
                    let e = match scan_number(content, p) {
                        Ok(e) => e,
                        Err(err) => {
                            proof {
                                assert(scalar_end(c, p as int, kind) is None);
                                assert(read_step(c, st0) == ReadStep::Fail);
                            }
                            return Err(err);
                        },
                    };
                    proof {
                        lemma_scan_number(content@, p as int);
                    }
                    e
                } else {
                    let ok = if b == 0x74 {
                        lit_matches_json(content, p, lit_true.as_slice())
                    } else if b == 0x66 {
                        lit_matches_json(content, p, lit_false.as_slice())
                    } else {
                        lit_matches_json(content, p, lit_null.as_slice())
                    };
                    if !ok {
                        proof {
                            assert(scalar_end(c, p as int, kind) is None);
                            assert(read_step(c, st0) == ReadStep::Fail);
                        }
                        return Err(json_err(p, "invalid literal"));
                    }
                    if b == 0x66 {
                        p + 5
                    } else {
                        p + 4
                    }
                };
                proof {
                    assert(scalar_end(c, p as int, kind) == Some(end as int));
                }
                let claimed_end = if b == 0x22 {
                    end - 1
                } else {
                    end
                };
                let ghost s1 = ReadState {
                    p: end as int,
                    stack: st0.stack,
                    expect_value: false,
                    out: st0.out.push(
                        JsonNode { kind, start: claimed_start as u32, end: claimed_end as u32, size: 1 },
                    ),
                };
                proof {
                    assert(read_step(c, st0) == ReadStep::Next(s1));
                }
                if node.end as usize != claimed_end || node.size != 1 {
                    proof {
                        if content@.len() <= u32::MAX {
                            lemma_not_open_past(st0, node_idx as int);
                            lemma_next_conflict(c, st0, nodes@, node_idx as int);
                            lemma_fail_next_conflict(c, st0, nodes@, node_idx as int);
                        }
                    }
                }
                if node.end as usize != claimed_end {
                    return Err(json_err(p, "node end mismatch"));
                }
                if node.size != 1 {
                    return Err(json_err(p, "leaf node size mismatch"));
                }
                proof {
                    assert(node == JsonNode { kind, start: claimed_start as u32, end: claimed_end as u32, size: 1 });
                    lemma_leaf_matches(nodes@, st0, stack@, node_idx as int, s1);
                    st = s1;
                }
                p = end;
                expect_value = false;
                proof {
                    assert(node_good(nodes@, node_idx as int, content@.len() as int));
                    assert forall|j: int| 0 <= j < k implies #[trigger] node_good(
                        nodes@,
                        j,
                        content@.len() as int,
                    ) || is_open(stack@, j) by {
                        if j < node_idx {
                        }
                    }
                }
            }
        } else {
            if stack.len() == 0 {
                p = skip_jws(content, p);
                if p != content.len() {
                    proof {
                        assert(read_step(c, st0) == ReadStep::Fail);
                    }
                    return Err(json_err(p, "data after root value"));
                }
                if k != nodes.len() {
                    proof {
                        assert(read_step(c, st0) == ReadStep::Done);
                    }
                    return Err(json_err(p, "table has extra JSON nodes"));
                }
                proof {
                    assert forall|j: int| 0 <= j < nodes@.len() implies #[trigger] node_good(
                        nodes@,
                        j,
                        content@.len() as int,
                    ) by {
                        if is_open(stack@, j) {
                            let i = choose|i: int| 0 <= i < stack@.len() && #[trigger] frame_idx(stack@, i) == j;
                        }
                    }
                    assert(st0.stack.len() == 0);
                    assert(read_step(c, st0) == ReadStep::Done);
                    lemma_all_closed(nodes@, st0.out, stack@, k as int);
                }
                return Ok(());
            }
            let is_object = stack[stack.len() - 1].is_object;
            p = skip_jws(content, p);
            if p >= content.len() {
                proof {
                    assert(read_step(c, st0) == ReadStep::Fail);
                }
                return Err(json_err(p, "unterminated container"));
            }
            let b = content[p];
            if b == 0x2C {
                p = skip_jws(content, p + 1);
                let ghost s1 = ReadState { p: p as int, expect_value: true, ..st0 };
                if is_object {
                    let ghost st_mid = stack@;
                    let (q, k2) = match member_key(content, nodes, &mut stack, p, k) {
                        Ok(x) => x,
                        Err(e) => {
                            proof {
                                if content@.len() <= u32::MAX {
                                    assert(read_step(c, st0) == read_member(c, s1));
                                    if read_member(c, s1) is Next {
                                        lemma_member_keeps_read(c, s1);
                                        lemma_next_conflict(c, st0, nodes@, k as int);
                                        lemma_fail_next_conflict(c, st0, nodes@, k as int);
                                    }
                                }
                            }
                            return Err(e);
                        },
                    };
                    proof {
                        lemma_key_keeps(nodes@, st_mid, stack@, k as int, content@.len() as int);
                        lemma_member_matches(c, nodes@, s1, st_mid, stack@, k as int, q as int);
                        assert(read_step(c, st0) == read_member(c, s1));
                        st = read_member(c, s1)->0;
                    }
                    p = q;
                    k = k2;
                } else {
                    proof {
                        assert(read_step(c, st0) == ReadStep::Next(s1));
                        st = s1;
                    }
                }
                expect_value = true;
            } else {
                let closer: u8 = if is_object {
                    0x7D
                } else {
                    0x5D
                };
                if b == closer {
                    p += 1;
                    let ghost st_mid = stack@;
                    match close_frame(nodes, &mut stack, p, k) {
                        Ok(()) => {},
                        Err(e) => {
                            proof {
                                if content@.len() <= u32::MAX {
                                    let s2 = ReadState { p: p as int, expect_value: false, ..st0 };
                                    assert(read_step(c, st0) == read_close(s2));
                                    lemma_keys_dup(st_mid.last().keys@);
                                    assert(st_mid.last() == st_mid[st_mid.len() - 1]);
                                    assert(s2.stack.last() == s2.stack[s2.stack.len() - 1]);
                                    if read_close(s2) is Next {
                                        lemma_close_keeps_read(s2);
                                        lemma_next_conflict(c, st0, nodes@, st_mid.last().node_idx as int);
                                        lemma_fail_next_conflict(c, st0, nodes@, st_mid.last().node_idx as int);
                                    }
                                }
                            }
                            return Err(e);
                        },
                    }
                    proof {
                        lemma_close_keeps(nodes@, st_mid, stack@, k as int, p as int, content@.len() as int);
                        let s2 = ReadState { p: p as int, expect_value: false, ..st0 };
                        lemma_close_matches(nodes@, s2, st_mid, stack@, k as int);
                        assert(read_step(c, st0) == read_close(s2));
                        st = read_close(s2)->0;
                    }
                } else {
                    proof {
                        assert(st0.stack.last() == st0.stack[st0.stack.len() - 1]);
                        assert(read_step(c, st0) == ReadStep::Fail);
                    }
                    return Err(json_err(p, "expected comma or closing bracket"));
                }
            }
        }
        proof {
            assert(read_step(c, st0) == ReadStep::Next(st));
            lemma_step_keeps(c, st0);
            assert(st0.p < st.p <= c.len());
            assert(read_from(c, st0) == read_from(c, st));
            assert(fail_from(c, st0) == fail_from(c, st));
        }
    }
}

/// Returns whether the literal `lit` occurs at `src[p..]`.
pub fn lit_matches_json(src: &[u8], p: usize, lit: &[u8]) -> (r: bool)
    ensures
        r ==> p + lit@.len() <= src@.len(),
        r == crate::validate::http::lit_at(src@, p as int, lit@),
{
    crate::validate::http::lit_matches(src, p, lit)
}

/// Closing the top frame keeps the walk invariant.
proof fn lemma_close_keeps(
    nodes: Seq<JsonNode>,
    st: Seq<Frame>,
    st2: Seq<Frame>,
    k: int,
    p: int,
    len: int,
)
    requires
        st.len() > 0,
        st2 == st.drop_last(),
        ({
            let ni = st.last().node_idx as int;
            &&& ni < nodes.len()
            &&& nodes[ni].end == p
            &&& nodes[ni].size == k - ni
        }),
        p <= len,
        k <= nodes.len(),
        forall|i: int| 0 <= i < st.len() ==> #[trigger] frame_idx(st, i) < k && nodes[frame_idx(st, i)].start <= p,
        forall|i: int, i2: int| 0 <= i < i2 < st.len() ==> #[trigger] frame_idx(st, i) < #[trigger] frame_idx(st, i2),
        forall|j: int| 0 <= j < k ==> #[trigger] node_good(nodes, j, len) || is_open(st, j),
        st.len() > 0 ==> frame_idx(st, 0) == 0,
    ensures
        forall|i: int| 0 <= i < st2.len() ==> #[trigger] frame_idx(st2, i) < k && nodes[frame_idx(st2, i)].start <= p,
        forall|i: int, i2: int| 0 <= i < i2 < st2.len() ==> #[trigger] frame_idx(st2, i) < #[trigger] frame_idx(st2, i2),
        forall|j: int| 0 <= j < k ==> #[trigger] node_good(nodes, j, len) || is_open(st2, j),
        st2.len() > 0 ==> frame_idx(st2, 0) == 0,
        st2.len() == 0 ==> nodes[0].size == k,
{
    let t = st.len() - 1;
    let ni = frame_idx(st, t);
    assert(node_good(nodes, ni, len));
    assert forall|i: int| 0 <= i < st2.len() implies #[trigger] frame_idx(st2, i) == frame_idx(st, i) by {}
    assert forall|j: int| 0 <= j < k implies #[trigger] node_good(nodes, j, len) || is_open(st2, j) by {
        if j != ni && is_open(st, j) {
            let i = choose|i: int| 0 <= i < st.len() && #[trigger] frame_idx(st, i) == j;
            assert(i != t);
            assert(frame_idx(st2, i) == j);
        }
    }
    if st2.len() == 0 {
        assert(ni == 0);
    }
}

/// Consuming a member key keeps the walk invariant.
proof fn lemma_key_keeps(nodes: Seq<JsonNode>, st: Seq<Frame>, st2: Seq<Frame>, k: int, len: int)
    requires
        st2.len() == st.len(),
        forall|i: int| 0 <= i < st.len() ==> (#[trigger] st2[i]).node_idx == st[i].node_idx,
        k < nodes.len(),
        node_good(nodes, k, len),
        forall|j: int| 0 <= j < k ==> #[trigger] node_good(nodes, j, len) || is_open(st, j),
    ensures
        forall|i: int| 0 <= i < st.len() ==> #[trigger] frame_idx(st2, i) == frame_idx(st, i),
        forall|j: int| 0 <= j < k + 1 ==> #[trigger] node_good(nodes, j, len) || is_open(st2, j),
{
    assert forall|i: int| 0 <= i < st.len() implies #[trigger] frame_idx(st2, i) == frame_idx(st, i) by {
        assert(st2[i].node_idx == st[i].node_idx);
    }
    assert forall|j: int| 0 <= j < k + 1 implies #[trigger] node_good(nodes, j, len) || is_open(st2, j) by {
        if j < k && is_open(st, j) {
            let i = choose|i: int| 0 <= i < st.len() && #[trigger] frame_idx(st, i) == j;
            assert(frame_idx(st2, i) == j);
        }
    }
}

} // verus!
