//! HTTP walkers: request/status lines, header lines, chunked bodies, and
//! trailers.
//!
//! Every walker advances a forward-only cursor and equality-checks the
//! table's records in lockstep: the table never steers the walk.
use vstd::prelude::*;

use crate::error::Error;
use crate::spans::{HeaderSpan, RequestSpans, ResponseSpans, Span};
use crate::transcript::ChunkMapEntry;
use crate::validate::ParsedHeadInfo;

verus! {

/// Maximum number of header (or trailer) lines per section.
pub const MAX_HEADER_LINES: usize = 128;

/// Maximum decoded body length: 2^30 bytes.
pub const MAX_BODY_LEN: u64 = 0x4000_0000;

// === charset predicates (specification) ===

/// RFC 9110 `tchar`: any VCHAR except delimiters.
pub open spec fn spec_tchar(b: u8) -> bool {
    ||| b == 0x21 || b == 0x23 || b == 0x24 || b == 0x25 || b == 0x26 || b == 0x27
    ||| b == 0x2A || b == 0x2B || b == 0x2D || b == 0x2E
    ||| b == 0x5E || b == 0x5F || b == 0x60 || b == 0x7C || b == 0x7E
    ||| 0x30 <= b <= 0x39
    ||| 0x41 <= b <= 0x5A
    ||| 0x61 <= b <= 0x7A
}

/// Request-target byte: printable ASCII.
pub open spec fn spec_target_byte(b: u8) -> bool {
    0x21 <= b <= 0x7E
}

/// Optional whitespace: SP or HTAB.
pub open spec fn spec_ows(b: u8) -> bool {
    b == 0x20 || b == 0x09
}

/// Header-value byte: HTAB, SP, printable ASCII, or obs-text.
pub open spec fn spec_value_byte(b: u8) -> bool {
    b == 0x09 || (b >= 0x20 && b != 0x7F)
}

/// ASCII decimal digit.
pub open spec fn spec_digit(b: u8) -> bool {
    0x30 <= b <= 0x39
}

/// ASCII hexadecimal digit, either case.
pub open spec fn spec_hexdig(b: u8) -> bool {
    spec_digit(b) || (0x41 <= b <= 0x46) || (0x61 <= b <= 0x66)
}

/// The value of a hexadecimal digit.
pub open spec fn hex_val(b: u8) -> int {
    if spec_digit(b) {
        b - 0x30
    } else if 0x41 <= b <= 0x46 {
        b - 0x41 + 10
    } else {
        b - 0x61 + 10
    }
}

// === maximal runs (specification) ===

/// One past the maximal run of `tchar` bytes starting at `p`.
pub open spec fn tchar_end(buf: Seq<u8>, p: int) -> int
    decreases buf.len() - p,
{
    if 0 <= p < buf.len() && spec_tchar(buf[p]) {
        tchar_end(buf, p + 1)
    } else {
        p
    }
}

/// One past the maximal run of OWS bytes starting at `p`.
pub open spec fn ows_end(buf: Seq<u8>, p: int) -> int
    decreases buf.len() - p,
{
    if 0 <= p < buf.len() && spec_ows(buf[p]) {
        ows_end(buf, p + 1)
    } else {
        p
    }
}

/// One past the maximal run of header-value bytes starting at `p`.
pub open spec fn value_end(buf: Seq<u8>, p: int) -> int
    decreases buf.len() - p,
{
    if 0 <= p < buf.len() && spec_value_byte(buf[p]) {
        value_end(buf, p + 1)
    } else {
        p
    }
}

/// One past the maximal run of request-target bytes starting at `p`.
pub open spec fn target_end(buf: Seq<u8>, p: int) -> int
    decreases buf.len() - p,
{
    if 0 <= p < buf.len() && spec_target_byte(buf[p]) {
        target_end(buf, p + 1)
    } else {
        p
    }
}

/// One past the maximal run of hexadecimal digits starting at `p`.
pub open spec fn hexdig_end(buf: Seq<u8>, p: int) -> int
    decreases buf.len() - p,
{
    if 0 <= p < buf.len() && spec_hexdig(buf[p]) {
        hexdig_end(buf, p + 1)
    } else {
        p
    }
}

/// `hi` with the trailing OWS bytes above `lo` removed.
pub open spec fn trim_ows_end(buf: Seq<u8>, lo: int, hi: int) -> int
    decreases hi - lo,
{
    if hi > lo && spec_ows(buf[hi - 1]) {
        trim_ows_end(buf, lo, hi - 1)
    } else {
        hi
    }
}

/// `buf[p..p + lit.len()]` is exactly `lit`.
pub open spec fn lit_at(buf: Seq<u8>, p: int, lit: Seq<u8>) -> bool {
    &&& 0 <= p
    &&& p + lit.len() <= buf.len()
    &&& buf.subrange(p, p + lit.len()) == lit
}

/// The value of a sequence of decimal digits.
pub open spec fn dec_value(s: Seq<u8>) -> nat
    decreases s.len(),
{
    if s.len() == 0 {
        0
    } else {
        (dec_value(s.drop_last()) * 10 + (s.last() - 0x30)) as nat
    }
}

/// The value of a sequence of hexadecimal digits.
pub open spec fn hex_value(s: Seq<u8>) -> nat
    decreases s.len(),
{
    if s.len() == 0 {
        0
    } else {
        (hex_value(s.drop_last()) * 16 + hex_val(s.last())) as nat
    }
}

/// `10^n`.
pub open spec fn pow10(n: nat) -> nat
    decreases n,
{
    if n == 0 {
        1
    } else {
        10 * pow10((n - 1) as nat)
    }
}

/// `16^n`.
pub open spec fn pow16(n: nat) -> nat
    decreases n,
{
    if n == 0 {
        1
    } else {
        16 * pow16((n - 1) as nat)
    }
}

/// The strict `1..=19 DIGIT` grammar of a `Content-Length` value.
pub open spec fn dec_grammar(s: Seq<u8>) -> bool {
    &&& 1 <= s.len() <= 19
    &&& forall|i: int| 0 <= i < s.len() ==> #[trigger] spec_digit(s[i])
}

/// The strict `1..=16 HEXDIG` grammar of a chunk size.
pub open spec fn hex_grammar(s: Seq<u8>) -> bool {
    &&& 1 <= s.len() <= 16
    &&& forall|i: int| 0 <= i < s.len() ==> #[trigger] spec_hexdig(s[i])
}

/// What [`parse_dec_u64`] returns.
pub open spec fn spec_parse_dec(s: Seq<u8>) -> Option<u64> {
    if dec_grammar(s) {
        Some(dec_value(s) as u64)
    } else {
        None
    }
}

/// What [`parse_hex_u64`] returns.
pub open spec fn spec_parse_hex(s: Seq<u8>) -> Option<u64> {
    if hex_grammar(s) {
        Some(hex_value(s) as u64)
    } else {
        None
    }
}

// === charset predicates (executable) ===

/// Shorthand for an [`Error::Http`] at a cursor position.
pub fn http_err(at: usize, reason: &'static str) -> (e: Error)
    ensures
        e == (Error::Http { at: at as u32, reason }),
{
    Error::Http { at: at as u32, reason }
}

/// RFC 9110 `tchar`.
pub fn is_tchar(b: u8) -> (r: bool)
    ensures
        r == spec_tchar(b),
{
    b == 0x21 || b == 0x23 || b == 0x24 || b == 0x25 || b == 0x26 || b == 0x27 || b == 0x2A
        || b == 0x2B || b == 0x2D || b == 0x2E || b == 0x5E || b == 0x5F || b == 0x60 || b
        == 0x7C || b == 0x7E || (0x30 <= b && b <= 0x39) || (0x41 <= b && b <= 0x5A) || (0x61
        <= b && b <= 0x7A)
}

/// Request-target byte: printable ASCII (0x21..=0x7E).
pub fn is_target_byte(b: u8) -> (r: bool)
    ensures
        r == spec_target_byte(b),
{
    0x21 <= b && b <= 0x7E
}

/// Optional whitespace: SP or HTAB.
pub fn is_ows(b: u8) -> (r: bool)
    ensures
        r == spec_ows(b),
{
    b == 0x20 || b == 0x09
}

/// Header-value (and reason / chunk-extension) byte.
pub fn is_value_byte(b: u8) -> (r: bool)
    ensures
        r == spec_value_byte(b),
{
    b == 0x09 || (b >= 0x20 && b != 0x7F)
}

/// ASCII hexadecimal digit.
pub fn is_hexdig(b: u8) -> (r: bool)
    ensures
        r == spec_hexdig(b),
{
    (0x30 <= b && b <= 0x39) || (0x41 <= b && b <= 0x46) || (0x61 <= b && b <= 0x66)
}

// === cursor primitives ===

/// Returns whether `lit` occurs at `buf[p..]`.
pub fn lit_matches(buf: &[u8], p: usize, lit: &[u8]) -> (r: bool)
    ensures
        r == lit_at(buf@, p as int, lit@),
{
    if lit.len() > buf.len() || p > buf.len() - lit.len() {
        return false;
    }
    let mut i: usize = 0;
    while i < lit.len()
        invariant
            0 <= i <= lit.len(),
            p + lit.len() <= buf.len(),
            forall|j: int| 0 <= j < i ==> buf@[p + j] == lit@[j],
        decreases lit.len() - i,
    {
        if buf[p + i] != lit[i] {
            assert(buf@.subrange(p as int, p + lit.len())[i as int] != lit@[i as int]);
            return false;
        }
        i += 1;
    }
    assert(buf@.subrange(p as int, p + lit.len()) =~= lit@);
    true
}

/// Requires the literal `lit` at `buf[p..]` and returns the cursor one past
/// it; truncation and mismatch both yield [`Error::Http`] at `p`.
pub fn expect_lit(buf: &[u8], p: usize, lit: &[u8], reason: &'static str) -> (r: Result<
    usize,
    Error,
>)
    ensures
        r is Ok <==> lit_at(buf@, p as int, lit@),
        r matches Ok(e) ==> e == p + lit@.len(),
        r matches Err(e) ==> e == (Error::Http { at: p as u32, reason }),
{
    if lit_matches(buf, p, lit) {
        assert(lit_at(buf@, p as int, lit@));
        assert(p + lit@.len() <= buf@.len());
        let n = buf.len();
        assert(p + lit.len() <= n);
        Ok(p + lit.len())
    } else {
        Err(http_err(p, reason))
    }
}

/// Advances the cursor over any run of OWS (SP/HTAB) bytes.
pub fn skip_ows(buf: &[u8], p: usize) -> (r: usize)
    ensures
        r == ows_end(buf@, p as int),
        p <= r,
        r > p ==> r <= buf@.len(),
        forall|i: int| p <= i < r ==> spec_ows(#[trigger] buf@[i]),
{
    let mut q = p;
    while q < buf.len() && is_ows(buf[q])
        invariant
            p <= q,
            q > p ==> q <= buf@.len(),
            ows_end(buf@, q as int) == ows_end(buf@, p as int),
            forall|i: int| p <= i < q ==> spec_ows(#[trigger] buf@[i]),
        decreases buf@.len() - q,
    {
        q += 1;
    }
    q
}

/// Advances the cursor over any run of `tchar` bytes and returns the end.
pub fn scan_token(buf: &[u8], p: usize) -> (r: usize)
    ensures
        r == tchar_end(buf@, p as int),
        p <= r,
        r > p ==> r <= buf@.len(),
        forall|i: int| p <= i < r ==> spec_tchar(#[trigger] buf@[i]),
{
    let mut q = p;
    while q < buf.len() && is_tchar(buf[q])
        invariant
            p <= q,
            q > p ==> q <= buf@.len(),
            tchar_end(buf@, q as int) == tchar_end(buf@, p as int),
            forall|i: int| p <= i < q ==> spec_tchar(#[trigger] buf@[i]),
        decreases buf@.len() - q,
    {
        q += 1;
    }
    q
}

/// Advances the cursor over any run of header-value bytes.
pub fn scan_value(buf: &[u8], p: usize) -> (r: usize)
    ensures
        r == value_end(buf@, p as int),
        p <= r,
        r > p ==> r <= buf@.len(),
        forall|i: int| p <= i < r ==> spec_value_byte(#[trigger] buf@[i]),
{
    let mut q = p;
    while q < buf.len() && is_value_byte(buf[q])
        invariant
            p <= q,
            q > p ==> q <= buf@.len(),
            value_end(buf@, q as int) == value_end(buf@, p as int),
            forall|i: int| p <= i < q ==> spec_value_byte(#[trigger] buf@[i]),
        decreases buf@.len() - q,
    {
        q += 1;
    }
    q
}

/// Advances the cursor over any run of request-target bytes.
pub fn scan_target(buf: &[u8], p: usize) -> (r: usize)
    ensures
        r == target_end(buf@, p as int),
        p <= r,
        r > p ==> r <= buf@.len(),
        forall|i: int| p <= i < r ==> spec_target_byte(#[trigger] buf@[i]),
{
    let mut q = p;
    while q < buf.len() && is_target_byte(buf[q])
        invariant
            p <= q,
            q > p ==> q <= buf@.len(),
            target_end(buf@, q as int) == target_end(buf@, p as int),
            forall|i: int| p <= i < q ==> spec_target_byte(#[trigger] buf@[i]),
        decreases buf@.len() - q,
    {
        q += 1;
    }
    q
}

/// Advances the cursor over any run of hexadecimal digits.
pub fn scan_hexdigs(buf: &[u8], p: usize) -> (r: usize)
    ensures
        r == hexdig_end(buf@, p as int),
        p <= r,
        r > p ==> r <= buf@.len(),
        forall|i: int| p <= i < r ==> spec_hexdig(#[trigger] buf@[i]),
{
    let mut q = p;
    while q < buf.len() && is_hexdig(buf[q])
        invariant
            p <= q,
            q > p ==> q <= buf@.len(),
            hexdig_end(buf@, q as int) == hexdig_end(buf@, p as int),
            forall|i: int| p <= i < q ==> spec_hexdig(#[trigger] buf@[i]),
        decreases buf@.len() - q,
    {
        q += 1;
    }
    q
}

/// Strictly parses `1..=19` ASCII DIGITs (leading zeros accepted).
pub fn parse_dec_u64(s: &[u8]) -> (r: Option<u64>)
    ensures
        r == spec_parse_dec(s@),
        r matches Some(v) ==> v == dec_value(s@),
{
    if s.len() == 0 || s.len() > 19 {
        return None;
    }
    let mut n: u64 = 0;
    let mut i: usize = 0;
    while i < s.len()
        invariant
            0 <= i <= s.len() <= 19,
            n == dec_value(s@.subrange(0, i as int)),
            n < pow10(i as nat),
            forall|j: int| 0 <= j < i ==> #[trigger] spec_digit(s@[j]),
        decreases s.len() - i,
    {
        let b = s[i];
        if !(0x30 <= b && b <= 0x39) {
            assert(!spec_digit(s@[i as int]));
            return None;
        }
        proof {
            lemma_pow10_bound((i + 1) as nat);
            assert(pow10((i + 1) as nat) == 10 * pow10(i as nat));
            let t = s@.subrange(0, i + 1);
            assert(t.drop_last() =~= s@.subrange(0, i as int));
            let d: int = b - 0x30;
            let m: int = n as int;
            let pw: int = pow10(i as nat) as int;
            assert(m * 10 + d < pw * 10) by (nonlinear_arith)
                requires
                    m < pw,
                    0 <= d <= 9,
            ;
            assert(m * 10 + d < 10_000_000_000_000_000_000int);
        }
        n = n * 10 + (b - 0x30) as u64;
        i += 1;
    }
    assert(s@.subrange(0, s@.len() as int) =~= s@);
    Some(n)
}

/// `10^a * 10^b == 10^(a + b)`.
pub proof fn lemma_pow10_mul(a: nat, b: nat)
    ensures
        pow10(a) * pow10(b) == pow10(a + b),
    decreases a,
{
    if a > 0 {
        let a1 = (a - 1) as nat;
        lemma_pow10_mul(a1, b);
        let x = pow10(a1) as int;
        let y = pow10(b) as int;
        assert(pow10(a) == 10 * x);
        assert((a1 + b) as nat == (a + b - 1) as nat);
        assert(pow10(a + b) == 10 * pow10(a1 + b));
        assert((10 * x) * y == 10 * (x * y)) by (nonlinear_arith);
        assert(pow10(a) * pow10(b) == (10 * x) * y);
        assert(x * y == pow10(a1 + b));
    } else {
        assert(pow10(a) == 1);
        assert(a + b == b);
    }
}

proof fn lemma_pow10_pos(n: nat)
    ensures
        pow10(n) >= 1,
    decreases n,
{
    if n > 0 {
        lemma_pow10_pos((n - 1) as nat);
    }
}

/// `10^n <= 10^19` for `n <= 19`.
pub proof fn lemma_pow10_bound(n: nat)
    requires
        n <= 19,
    ensures
        pow10(n) <= 10_000_000_000_000_000_000nat,
        pow10(n) >= 1,
{
    lemma_pow10_mul(n, (19 - n) as nat);
    lemma_pow10_pos((19 - n) as nat);
    assert(pow10(19) == 10_000_000_000_000_000_000nat) by {
        reveal_with_fuel(pow10, 20);
    }
    let a = pow10(n) as int;
    let b = pow10((19 - n) as nat) as int;
    assert(a <= a * b) by (nonlinear_arith)
        requires
            b >= 1,
            a >= 0,
    ;
}

/// `16^n <= 2^64` for `n <= 16`.
pub proof fn lemma_pow16_bound(n: nat)
    requires
        n <= 16,
    ensures
        pow16(n) <= 0x1_0000_0000_0000_0000nat,
        pow16(n) >= 1,
{
    lemma_pow16_mul(n, (16 - n) as nat);
    lemma_pow16_pos((16 - n) as nat);
    lemma_pow16_pos(n);
    assert(pow16(16) == 0x1_0000_0000_0000_0000nat) by {
        reveal_with_fuel(pow16, 17);
    }
    let a = pow16(n) as int;
    let b = pow16((16 - n) as nat) as int;
    assert(a <= a * b) by (nonlinear_arith)
        requires
            b >= 1,
            a >= 0,
    ;
}

proof fn lemma_pow16_pos(n: nat)
    ensures
        pow16(n) >= 1,
    decreases n,
{
    if n > 0 {
        lemma_pow16_pos((n - 1) as nat);
    }
}

proof fn lemma_pow16_mul(a: nat, b: nat)
    ensures
        pow16(a) * pow16(b) == pow16(a + b),
    decreases a,
{
    if a > 0 {
        let a1 = (a - 1) as nat;
        lemma_pow16_mul(a1, b);
        let x = pow16(a1) as int;
        let y = pow16(b) as int;
        assert(pow16(a) == 16 * x);
        assert((a1 + b) as nat == (a + b - 1) as nat);
        assert(pow16(a + b) == 16 * pow16(a1 + b));
        assert((16 * x) * y == 16 * (x * y)) by (nonlinear_arith);
        assert(pow16(a) * pow16(b) == (16 * x) * y);
        assert(x * y == pow16(a1 + b));
    } else {
        assert(pow16(a) == 1);
        assert(a + b == b);
    }
}

/// Strictly parses `1..=16` HEXDIGs, case-insensitive.
pub fn parse_hex_u64(s: &[u8]) -> (r: Option<u64>)
    ensures
        r == spec_parse_hex(s@),
        r matches Some(v) ==> v == hex_value(s@),
{
    if s.len() == 0 || s.len() > 16 {
        return None;
    }
    let mut n: u64 = 0;
    let mut i: usize = 0;
    while i < s.len()
        invariant
            0 <= i <= s.len() <= 16,
            n == hex_value(s@.subrange(0, i as int)),
            n < pow16(i as nat),
            forall|j: int| 0 <= j < i ==> #[trigger] spec_hexdig(s@[j]),
        decreases s.len() - i,
    {
        let b = s[i];
        let d: u8 = if 0x30 <= b && b <= 0x39 {
            b - 0x30
        } else if 0x61 <= b && b <= 0x66 {
            b - 0x61 + 10
        } else if 0x41 <= b && b <= 0x46 {
            b - 0x41 + 10
        } else {
            assert(!spec_hexdig(s@[i as int]));
            return None;
        };
        proof {
            lemma_pow16_bound((i + 1) as nat);
            let t = s@.subrange(0, i + 1);
            assert(t.drop_last() =~= s@.subrange(0, i as int));
            let m: int = n as int;
            let pw: int = pow16(i as nat) as int;
            let dd: int = d as int;
            assert(m * 16 + dd < pw * 16) by (nonlinear_arith)
                requires
                    m < pw,
                    0 <= dd <= 15,
            ;
            assert(pow16((i + 1) as nat) == 16 * pow16(i as nat));
        }
        n = n * 16 + d as u64;
        i += 1;
    }
    assert(s@.subrange(0, s@.len() as int) =~= s@);
    Some(n)
}

/// Checks that a table span is non-inverted and within a coordinate space
/// of `len` bytes.
pub fn check_span(span: Span, len: usize, what: &'static str) -> (r: Result<(), Error>)
    ensures
        r is Ok <==> (span.start <= span.end && span.end <= len),
        r matches Err(e) ==> e == (Error::SpanOutOfBounds {
            start: span.start,
            end: span.end,
            len: if len <= u32::MAX { len as u32 } else { u32::MAX },
            what,
        }),
{
    if span.start > span.end || span.end as usize > len {
        let l: u32 = if len <= u32::MAX as usize {
            len as u32
        } else {
            u32::MAX
        };
        return Err(Error::SpanOutOfBounds { start: span.start, end: span.end, len: l, what });
    }
    Ok(())
}


// === run lemmas ===

/// Facts about the maximal `tchar` run.
pub proof fn lemma_tchar_end(buf: Seq<u8>, p: int)
    requires
        0 <= p <= buf.len(),
    ensures
        p <= tchar_end(buf, p) <= buf.len(),
        forall|i: int| p <= i < tchar_end(buf, p) ==> spec_tchar(#[trigger] buf[i]),
        tchar_end(buf, p) < buf.len() ==> !spec_tchar(buf[tchar_end(buf, p)]),
    decreases buf.len() - p,
{
    if p < buf.len() && spec_tchar(buf[p]) {
        lemma_tchar_end(buf, p + 1);
    }
}

/// Facts about the maximal OWS run.
pub proof fn lemma_ows_end(buf: Seq<u8>, p: int)
    requires
        0 <= p <= buf.len(),
    ensures
        p <= ows_end(buf, p) <= buf.len(),
        forall|i: int| p <= i < ows_end(buf, p) ==> spec_ows(#[trigger] buf[i]),
        ows_end(buf, p) < buf.len() ==> !spec_ows(buf[ows_end(buf, p)]),
    decreases buf.len() - p,
{
    if p < buf.len() && spec_ows(buf[p]) {
        lemma_ows_end(buf, p + 1);
    }
}

/// Facts about the maximal header-value run.
pub proof fn lemma_value_end(buf: Seq<u8>, p: int)
    requires
        0 <= p <= buf.len(),
    ensures
        p <= value_end(buf, p) <= buf.len(),
        forall|i: int| p <= i < value_end(buf, p) ==> spec_value_byte(#[trigger] buf[i]),
        value_end(buf, p) < buf.len() ==> !spec_value_byte(buf[value_end(buf, p)]),
    decreases buf.len() - p,
{
    if p < buf.len() && spec_value_byte(buf[p]) {
        lemma_value_end(buf, p + 1);
    }
}

/// Facts about trimming trailing OWS.
pub proof fn lemma_trim_ows_end(buf: Seq<u8>, lo: int, hi: int)
    requires
        0 <= lo <= hi <= buf.len(),
    ensures
        lo <= trim_ows_end(buf, lo, hi) <= hi,
        forall|i: int| trim_ows_end(buf, lo, hi) <= i < hi ==> spec_ows(#[trigger] buf[i]),
        trim_ows_end(buf, lo, hi) > lo ==> !spec_ows(buf[trim_ows_end(buf, lo, hi) - 1]),
    decreases hi - lo,
{
    if hi > lo && spec_ows(buf[hi - 1]) {
        lemma_trim_ows_end(buf, lo, hi - 1);
    }
}

// === header-line scanning (shared by heads and trailers) ===

/// Byte facts of one scanned header line.
#[derive(Debug, Clone, Copy, PartialEq, Eq, Structural)]
pub struct ScannedHeader {
    /// Name token start (the line start).
    pub name_start: usize,
    /// One past the name token (the `:` position).
    pub name_end: usize,
    /// OWS-trimmed value start (the CR position for an empty value).
    pub value_start: usize,
    /// OWS-trimmed value end (`value_start` for an empty value).
    pub value_end: usize,
    /// One past the terminating LF.
    pub line_end: usize,
}

/// A well-formed header line starts at `p`: a `tchar+` name immediately
/// followed by `:`, value-charset bytes, and a strict CRLF.
pub open spec fn header_line_ok(buf: Seq<u8>, p: int) -> bool {
    let ne = tchar_end(buf, p);
    let vs = ows_end(buf, ne + 1);
    let q = value_end(buf, vs);
    &&& 0 <= p < buf.len()
    &&& ne > p
    &&& ne < buf.len()
    &&& buf[ne] == 0x3A
    &&& q + 1 < buf.len()
    &&& buf[q] == 0x0D
    &&& buf[q + 1] == 0x0A
}

/// The error for a header line at `p` that is not well-formed: the first
/// of whitespace before the name, an empty name, a line cut off after the
/// name, a missing colon, a line cut off in the value, a value byte outside
/// the charset, a CR without LF.
pub open spec fn header_line_error(buf: Seq<u8>, p: int) -> Error {
    let ne = tchar_end(buf, p);
    let vs = ows_end(buf, ne + 1);
    let q = value_end(buf, vs);
    if spec_ows(buf[p]) {
        Error::Http { at: p as u32, reason: "obs-fold or whitespace before header name" }
    } else if ne == p {
        Error::Http { at: p as u32, reason: "invalid header name" }
    } else if ne >= buf.len() {
        Error::Http { at: ne as u32, reason: "truncated header line" }
    } else if buf[ne] != 0x3A {
        Error::Http { at: ne as u32, reason: "expected colon after header name" }
    } else if q >= buf.len() {
        Error::Http { at: q as u32, reason: "truncated header line" }
    } else if buf[q] != 0x0D {
        Error::Http { at: q as u32, reason: "invalid byte in header value" }
    } else {
        Error::Http { at: q as u32, reason: "expected LF after CR" }
    }
}

/// The canonical spans of the header line at `p` (OWS-trimmed value, an
/// empty value pinned at the CR).
pub open spec fn scanned_line(buf: Seq<u8>, p: int) -> ScannedHeader {
    let ne = tchar_end(buf, p);
    let vs = ows_end(buf, ne + 1);
    let q = value_end(buf, vs);
    let te = trim_ows_end(buf, vs, q);
    ScannedHeader {
        name_start: p as usize,
        name_end: ne as usize,
        value_start: (if vs == te { q } else { vs }) as usize,
        value_end: (if vs == te { q } else { te }) as usize,
        line_end: (q + 2) as usize,
    }
}

/// Ordering and bounds of a well-formed line's spans.
pub proof fn lemma_scanned_line(buf: Seq<u8>, p: int)
    requires
        header_line_ok(buf, p),
        buf.len() <= usize::MAX,
    ensures
        ({
            let h = scanned_line(buf, p);
            &&& h.name_start == p
            &&& p < h.name_end < h.value_start + 1
            &&& h.name_end < buf.len()
            &&& h.value_start <= h.value_end
            &&& h.value_end + 2 <= h.line_end <= buf.len()
            &&& h.line_end >= p + 3
            &&& buf[h.line_end - 2] == 0x0D
            &&& buf[h.line_end - 1] == 0x0A
        }),
{
    lemma_tchar_end(buf, p);
    let ne = tchar_end(buf, p);
    lemma_ows_end(buf, ne + 1);
    let vs = ows_end(buf, ne + 1);
    lemma_value_end(buf, vs);
    let q = value_end(buf, vs);
    lemma_trim_ows_end(buf, vs, q);
}

/// Scans one header (or trailer) line at `p`.
///
/// Verifies: no leading SP/HTAB (obs-fold), `tchar+` name immediately
/// followed by `:`, value bytes in the value charset, and a strict CRLF
/// terminator; derives the canonical OWS-trimmed value span, pinned at the
/// CR when empty.
pub fn scan_header_line(buf: &[u8], p: usize) -> (r: Result<ScannedHeader, Error>)
    requires
        p < buf@.len(),
    ensures
        r is Ok <==> header_line_ok(buf@, p as int),
        r matches Ok(h) ==> h == scanned_line(buf@, p as int),
        r matches Err(e) ==> e == header_line_error(buf@, p as int),
{
    proof {
        lemma_tchar_end(buf@, p as int);
    }
    if is_ows(buf[p]) {
        return Err(http_err(p, "obs-fold or whitespace before header name"));
    }
    let name_start = p;
    let name_end = scan_token(buf, p);
    if name_end == name_start {
        return Err(http_err(p, "invalid header name"));
    }
    if name_end >= buf.len() {
        return Err(http_err(name_end, "truncated header line"));
    }
    if buf[name_end] != 0x3A {
        return Err(http_err(name_end, "expected colon after header name"));
    }
    let value_scan_start = skip_ows(buf, name_end + 1);
    proof {
        lemma_ows_end(buf@, name_end + 1);
        lemma_value_end(buf@, value_scan_start as int);
    }
    let q = scan_value(buf, value_scan_start);
    if q >= buf.len() {
        return Err(http_err(q, "truncated header line"));
    }
    if buf[q] != 0x0D {
        return Err(http_err(q, "invalid byte in header value"));
    }
    let crlf: [u8; 2] = [0x0D, 0x0A];
    let line_end = match expect_lit(buf, q, crlf.as_slice(), "expected LF after CR") {
        Ok(e) => e,
        Err(e) => {
            proof {
                assert(!(q + 1 < buf@.len() && buf@[q + 1] == 0x0A)) by {
                    if q + 1 < buf@.len() && buf@[q + 1] == 0x0A {
                        assert(crlf@ =~= seq![0x0Du8, 0x0Au8]);
                        assert(buf@.subrange(q as int, q + 2) =~= crlf@);
                    }
                }
            }
            return Err(e);
        },
    };
    proof {
        assert(crlf@ =~= seq![0x0Du8, 0x0Au8]);
        assert(buf@.subrange(q as int, q + 2)[1] == crlf@[1]);
    }
    let mut value_end = q;
    while value_end > value_scan_start && is_ows(buf[value_end - 1])
        invariant
            value_scan_start <= value_end <= q < buf@.len(),
            trim_ows_end(buf@, value_scan_start as int, value_end as int) == trim_ows_end(
                buf@,
                value_scan_start as int,
                q as int,
            ),
        decreases value_end,
    {
        value_end -= 1;
    }
    let (vs, ve) = if value_scan_start == value_end {
        (q, q)
    } else {
        (value_scan_start, value_end)
    };
    Ok(ScannedHeader { name_start, name_end, value_start: vs, value_end: ve, line_end })
}

/// The header record's spans equal the scanned line's spans.
pub open spec fn record_matches(rec: HeaderSpan, h: ScannedHeader) -> bool {
    &&& rec.name.start == h.name_start
    &&& rec.name.end == h.name_end
    &&& rec.value.start == h.value_start
    &&& rec.value.end == h.value_end
}

/// The error for a header record that does not hold the scanned line: a
/// name span out of bounds, a value span out of bounds, another name span,
/// another value span.
pub open spec fn record_error(buf_len: int, scanned: ScannedHeader, record: HeaderSpan) -> Error {
    let len = if buf_len <= u32::MAX { buf_len as u32 } else { u32::MAX };
    if !(record.name.start <= record.name.end && record.name.end <= buf_len) {
        Error::SpanOutOfBounds { start: record.name.start, end: record.name.end, len, what: "header name" }
    } else if !(record.value.start <= record.value.end && record.value.end <= buf_len) {
        Error::SpanOutOfBounds { start: record.value.start, end: record.value.end, len, what: "header value" }
    } else if record.name.start != scanned.name_start || record.name.end != scanned.name_end {
        Error::Http { at: scanned.name_start as u32, reason: "header name span mismatch" }
    } else {
        Error::Http { at: scanned.value_start as u32, reason: "header value span mismatch" }
    }
}

/// Bounds-checks a header record's spans and equality-checks them against
/// the scanned line.
pub fn check_header_record(buf_len: usize, scanned: &ScannedHeader, record: &HeaderSpan) -> (r:
    Result<(), Error>)
    requires
        scanned.name_start <= scanned.name_end <= buf_len,
        scanned.value_start <= scanned.value_end <= buf_len,
    ensures
        r is Ok <==> record_matches(*record, *scanned),
        r matches Err(e) ==> e == record_error(buf_len as int, *scanned, *record),
{
    match check_span(record.name, buf_len, "header name") {
        Ok(()) => {},
        Err(e) => {
            return Err(e);
        },
    }
    match check_span(record.value, buf_len, "header value") {
        Ok(()) => {},
        Err(e) => {
            return Err(e);
        },
    }
    if record.name.start as usize != scanned.name_start || record.name.end as usize
        != scanned.name_end {
        return Err(http_err(scanned.name_start, "header name span mismatch"));
    }
    if record.value.start as usize != scanned.value_start || record.value.end as usize
        != scanned.value_end {
        return Err(http_err(scanned.value_start, "header value span mismatch"));
    }
    Ok(())
}


// === ASCII case-insensitive names ===

/// ASCII lowercase of one byte.
pub open spec fn lower(b: u8) -> u8 {
    if 0x41 <= b <= 0x5A {
        (b + 0x20) as u8
    } else {
        b
    }
}

/// ASCII case-insensitive equality of two byte strings.
pub open spec fn ascii_ci_eq(a: Seq<u8>, b: Seq<u8>) -> bool {
    &&& a.len() == b.len()
    &&& forall|i: int| 0 <= i < a.len() ==> #[trigger] lower(a[i]) == lower(b[i])
}

/// Compares two byte strings ASCII case-insensitively.
pub fn ascii_eq_ignore_case(a: &[u8], b: &[u8]) -> (r: bool)
    ensures
        r == ascii_ci_eq(a@, b@),
{
    if a.len() != b.len() {
        return false;
    }
    let mut i: usize = 0;
    while i < a.len()
        invariant
            a@.len() == b@.len(),
            0 <= i <= a@.len(),
            forall|j: int| 0 <= j < i ==> #[trigger] lower(a@[j]) == lower(b@[j]),
        decreases a@.len() - i,
    {
        let x = a[i];
        let y = b[i];
        let lx: u8 = if 0x41 <= x && x <= 0x5A {
            x + 0x20
        } else {
            x
        };
        let ly: u8 = if 0x41 <= y && y <= 0x5A {
            y + 0x20
        } else {
            y
        };
        if lx != ly {
            assert(lower(a@[i as int]) != lower(b@[i as int]));
            return false;
        }
        i += 1;
    }
    true
}

/// `content-length`.
pub open spec fn name_content_length() -> Seq<u8> {
    seq![0x63u8, 0x6f, 0x6e, 0x74, 0x65, 0x6e, 0x74, 0x2d, 0x6c, 0x65, 0x6e, 0x67, 0x74, 0x68]
}

/// `transfer-encoding`.
pub open spec fn name_transfer_encoding() -> Seq<u8> {
    seq![
        0x74u8, 0x72, 0x61, 0x6e, 0x73, 0x66, 0x65, 0x72, 0x2d, 0x65, 0x6e, 0x63, 0x6f, 0x64,
        0x69, 0x6e, 0x67,
    ]
}

/// `host`.
pub open spec fn name_host() -> Seq<u8> {
    seq![0x68u8, 0x6f, 0x73, 0x74]
}

/// `chunked`.
pub open spec fn value_chunked() -> Seq<u8> {
    seq![0x63u8, 0x68, 0x75, 0x6e, 0x6b, 0x65, 0x64]
}

/// Returns `content-length`.
pub fn content_length_name() -> (r: [u8; 14])
    ensures
        r@ == name_content_length(),
{
    let r: [u8; 14] = [0x63, 0x6f, 0x6e, 0x74, 0x65, 0x6e, 0x74, 0x2d, 0x6c, 0x65, 0x6e, 0x67, 0x74, 0x68];
    assert(r@ =~= name_content_length());
    r
}

/// Returns `transfer-encoding`.
pub fn transfer_encoding_name() -> (r: [u8; 17])
    ensures
        r@ == name_transfer_encoding(),
{
    let r: [u8; 17] = [
        0x74, 0x72, 0x61, 0x6e, 0x73, 0x66, 0x65, 0x72, 0x2d, 0x65, 0x6e, 0x63, 0x6f, 0x64, 0x69,
        0x6e, 0x67,
    ];
    assert(r@ =~= name_transfer_encoding());
    r
}

/// Returns `host`.
pub fn host_name() -> (r: [u8; 4])
    ensures
        r@ == name_host(),
{
    let r: [u8; 4] = [0x68, 0x6f, 0x73, 0x74];
    assert(r@ =~= name_host());
    r
}

/// Returns `chunked`.
pub fn chunked_value() -> (r: [u8; 7])
    ensures
        r@ == value_chunked(),
{
    let r: [u8; 7] = [0x63, 0x68, 0x75, 0x6e, 0x6b, 0x65, 0x64];
    assert(r@ =~= value_chunked());
    r
}

// === header sections ===

/// The bytes a span covers.
pub open spec fn span_bytes(buf: Seq<u8>, s: Span) -> Seq<u8> {
    buf.subrange(s.start as int, s.end as int)
}

/// Where the header section starting at `p` ends (one past the blank
/// line's CRLF), if `recs` are exactly its header lines in order.
pub open spec fn section_end(buf: Seq<u8>, p: int, recs: Seq<HeaderSpan>) -> Option<int>
    decreases recs.len(),
{
    if recs.len() == 0 {
        if 0 <= p && p + 1 < buf.len() && buf[p] == 0x0D && buf[p + 1] == 0x0A {
            Some(p + 2)
        } else {
            None
        }
    } else if header_line_ok(buf, p) && record_matches(recs[0], scanned_line(buf, p)) {
        section_end(buf, scanned_line(buf, p).line_end as int, recs.drop_first())
    } else {
        None
    }
}

/// Every `Content-Length` record carries a strictly well-formed value.
pub open spec fn cl_values_ok(buf: Seq<u8>, recs: Seq<HeaderSpan>) -> bool {
    forall|j: int|
        0 <= j < recs.len() && ascii_ci_eq(span_bytes(buf, #[trigger] recs[j].name), name_content_length())
            ==> spec_parse_dec(span_bytes(buf, recs[j].value)) is Some
}

/// The framing facts of the header records, with whether a `Host` header
/// was seen.
pub open spec fn head_facts(buf: Seq<u8>, recs: Seq<HeaderSpan>) -> (ParsedHeadInfo, bool)
    decreases recs.len(),
{
    if recs.len() == 0 {
        (crate::validate::empty_head_info(), false)
    } else {
        let (info, host_seen) = head_facts(buf, recs.drop_last());
        let name = span_bytes(buf, recs.last().name);
        let value = span_bytes(buf, recs.last().value);
        if ascii_ci_eq(name, name_content_length()) {
            (
                ParsedHeadInfo {
                    content_length: spec_parse_dec(value),
                    te_present: info.te_present,
                    te_chunked: info.te_chunked,
                    dup_content_length: info.dup_content_length || info.content_length is Some,
                    dup_transfer_encoding: info.dup_transfer_encoding,
                    dup_host: info.dup_host,
                },
                host_seen,
            )
        } else if ascii_ci_eq(name, name_transfer_encoding()) {
            (
                ParsedHeadInfo {
                    content_length: info.content_length,
                    te_present: true,
                    te_chunked: ascii_ci_eq(value, value_chunked()),
                    dup_content_length: info.dup_content_length,
                    dup_transfer_encoding: info.dup_transfer_encoding || info.te_present,
                    dup_host: info.dup_host,
                },
                host_seen,
            )
        } else if ascii_ci_eq(name, name_host()) {
            (
                ParsedHeadInfo {
                    content_length: info.content_length,
                    te_present: info.te_present,
                    te_chunked: info.te_chunked,
                    dup_content_length: info.dup_content_length,
                    dup_transfer_encoding: info.dup_transfer_encoding,
                    dup_host: info.dup_host || host_seen,
                },
                true,
            )
        } else {
            (info, host_seen)
        }
    }
}

/// `section_end` with the first `i` records consumed.
proof fn lemma_section_step(buf: Seq<u8>, p: int, recs: Seq<HeaderSpan>, i: int)
    requires
        0 <= i < recs.len(),
    ensures
        section_end(buf, p, recs.subrange(i, recs.len() as int)) == (if header_line_ok(buf, p)
            && record_matches(recs[i], scanned_line(buf, p)) {
            section_end(
                buf,
                scanned_line(buf, p).line_end as int,
                recs.subrange(i + 1, recs.len() as int),
            )
        } else {
            None
        }),
{
    let t = recs.subrange(i, recs.len() as int);
    assert(t.drop_first() =~= recs.subrange(i + 1, recs.len() as int));
    assert(t[0] == recs[i]);
}


/// The error the header walk at `p` (record `i` next) meets first, where
/// the section does not match `recs`: the buffer ends, a CR without LF, a
/// 129th line, a malformed line, a line without record, a record that does
/// not hold its line, a malformed `Content-Length` value, or records left at
/// the blank line. (Where the blank line ends the section as `recs` say, the
/// walk succeeds and the value given there is never returned.)
pub open spec fn header_walk_error(buf: Seq<u8>, p: int, recs: Seq<HeaderSpan>, i: int) -> Error
    decreases buf.len() - p,
{
    if p < 0 || p >= buf.len() {
        Error::Http { at: p as u32, reason: "truncated head" }
    } else if buf[p] == 0x0D {
        if p + 1 < buf.len() && buf[p + 1] == 0x0A {
            Error::Http { at: (p + 2) as u32, reason: "table has extra header records" }
        } else {
            Error::Http { at: p as u32, reason: "expected LF after CR" }
        }
    } else if i >= MAX_HEADER_LINES {
        Error::Table { reason: "more than 128 header lines" }
    } else if !header_line_ok(buf, p) {
        header_line_error(buf, p)
    } else if i >= recs.len() {
        Error::Http { at: p as u32, reason: "header line without table record" }
    } else if !record_matches(recs[i], scanned_line(buf, p)) {
        record_error(buf.len() as int, scanned_line(buf, p), recs[i])
    } else if ascii_ci_eq(span_bytes(buf, recs[i].name), name_content_length()) && spec_parse_dec(
        span_bytes(buf, recs[i].value),
    ) is None {
        Error::Http { at: scanned_line(buf, p).value_start as u32, reason: "malformed Content-Length value" }
    } else if p < scanned_line(buf, p).line_end <= buf.len() {
        header_walk_error(buf, scanned_line(buf, p).line_end as int, recs, i + 1)
    } else {
        Error::Http { at: p as u32, reason: "truncated head" }
    }
}

/// Walks header lines from `start` until the blank line terminating the
/// head, in lockstep with `expected`, collecting framing facts.
///
/// Returns the cursor one past the blank line's CRLF and the facts.
pub fn walk_header_lines(buf: &[u8], start: usize, expected: &[HeaderSpan]) -> (r: Result<
    (usize, ParsedHeadInfo),
    Error,
>)
    ensures
        r is Ok <==> (section_end(buf@, start as int, expected@) is Some && expected@.len()
            <= MAX_HEADER_LINES && cl_values_ok(buf@, expected@)),
        r matches Ok((end, info)) ==> (section_end(buf@, start as int, expected@) == Some(
            end as int) && info == head_facts(buf@, expected@).0),
        r matches Err(e) ==> e == (if expected@.len() > MAX_HEADER_LINES {
            Error::Table { reason: "more than 128 header records" }
        } else {
            header_walk_error(buf@, start as int, expected@, 0)
        }),
{
    if expected.len() > MAX_HEADER_LINES {
        return Err(Error::Table { reason: "more than 128 header records" });
    }
    let ghost n = expected@.len() as int;
    let cl_lit = content_length_name();
    let te_lit = transfer_encoding_name();
    let host_lit = host_name();
    let chunked_lit = chunked_value();
    let crlf: [u8; 2] = [0x0D, 0x0A];
    assert(crlf@ =~= seq![0x0Du8, 0x0Au8]);
    let mut p = start;
    let mut info = ParsedHeadInfo::default();
    let mut host_seen = false;
    let mut i: usize = 0;
    let ghost mut pb: int = 0;
    assert(expected@.subrange(0, 0) =~= Seq::<HeaderSpan>::empty());
    assert(expected@.subrange(0, n) =~= expected@);
    loop
        invariant_except_break
            0 <= i <= n,
            n == expected@.len() <= MAX_HEADER_LINES,
            section_end(buf@, start as int, expected@) == section_end(
                buf@,
                p as int,
                expected@.subrange(i as int, n),
            ),
            (info, host_seen) == head_facts(buf@, expected@.subrange(0, i as int)),
            cl_values_ok(buf@, expected@.subrange(0, i as int)),
            crlf@ == seq![0x0Du8, 0x0Au8],
            cl_lit@ == name_content_length(),
            te_lit@ == name_transfer_encoding(),
            host_lit@ == name_host(),
            chunked_lit@ == value_chunked(),
            header_walk_error(buf@, start as int, expected@, 0) == header_walk_error(
                buf@,
                p as int,
                expected@,
                i as int,
            ),
        ensures
            header_walk_error(buf@, start as int, expected@, 0) == header_walk_error(
                buf@,
                pb,
                expected@,
                i as int,
            ),
            0 <= i <= n,
            n == expected@.len() <= MAX_HEADER_LINES,
            section_end(buf@, start as int, expected@) == section_end(
                buf@,
                pb,
                expected@.subrange(i as int, n),
            ),
            (info, host_seen) == head_facts(buf@, expected@.subrange(0, i as int)),
            cl_values_ok(buf@, expected@.subrange(0, i as int)),
            0 <= pb,
            pb + 1 < buf@.len(),
            buf@[pb] == 0x0D,
            buf@[pb + 1] == 0x0A,
            p == pb + 2,
        decreases buf@.len() - p,
    {
        if p >= buf.len() {
            proof {
                if i < n {
                    lemma_section_step(buf@, p as int, expected@, i as int);
                }
            }
            return Err(http_err(p, "truncated head"));
        }
        if buf[p] == 0x0D {
            proof {
                if i < n {
                    lemma_section_step(buf@, p as int, expected@, i as int);
                }
            }
            match expect_lit(buf, p, crlf.as_slice(), "expected LF after CR") {
                Ok(e) => {
                    proof {
                        pb = p as int;
                        assert(buf@.subrange(p as int, p + 2)[1] == crlf@[1]);
                    }
                    p = e;
                    break ;
                },
                Err(e) => {
                    proof {
                        if p + 1 < buf@.len() && buf@[p + 1] == 0x0A {
                            assert(buf@.subrange(p as int, p + 2) =~= crlf@);
                        }
                    }
                    return Err(e);
                },
            }
        }
        if i >= MAX_HEADER_LINES {
            return Err(Error::Table { reason: "more than 128 header lines" });
        }
        proof {
            if i < n {
                lemma_section_step(buf@, p as int, expected@, i as int);
            }
        }
        let h = match scan_header_line(buf, p) {
            Ok(h) => h,
            Err(e) => {
                return Err(e);
            },
        };
        if i >= expected.len() {
            return Err(http_err(p, "header line without table record"));
        }
        let record = &expected[i];
        proof {
            lemma_scanned_line(buf@, p as int);
        }
        match check_header_record(buf.len(), &h, record) {
            Ok(()) => {},
            Err(e) => {
                return Err(e);
            },
        }
        let name = &buf[h.name_start..h.name_end];
        let value = &buf[h.value_start..h.value_end];
        let ghost prev = expected@.subrange(0, i as int);
        let ghost next = expected@.subrange(0, i + 1);
        proof {
            assert(next.drop_last() =~= prev);
            assert(next.last() == expected@[i as int]);
            assert(name@ == span_bytes(buf@, expected@[i as int].name));
            assert(value@ == span_bytes(buf@, expected@[i as int].value));
        }
        if ascii_eq_ignore_case(name, cl_lit.as_slice()) {
            let n_opt = parse_dec_u64(value);
            match n_opt {
                Some(v) => {
                    info.dup_content_length = info.dup_content_length || info.content_length.is_some();
                    info.content_length = Some(v);
                },
                None => {
                    proof {
                        assert(!cl_values_ok(buf@, expected@)) by {
                            assert(ascii_ci_eq(span_bytes(buf@, expected@[i as int].name), name_content_length()));
                        }
                    }
                    return Err(http_err(h.value_start, "malformed Content-Length value"));
                },
            }
        } else if ascii_eq_ignore_case(name, te_lit.as_slice()) {
            info.dup_transfer_encoding = info.dup_transfer_encoding || info.te_present;
            info.te_present = true;
            info.te_chunked = ascii_eq_ignore_case(value, chunked_lit.as_slice());
        } else if ascii_eq_ignore_case(name, host_lit.as_slice()) {
            info.dup_host = info.dup_host || host_seen;
            host_seen = true;
        }
        proof {
            assert forall|j: int|
                0 <= j < next.len() && ascii_ci_eq(span_bytes(buf@, #[trigger] next[j].name), name_content_length())
                implies spec_parse_dec(span_bytes(buf@, next[j].value)) is Some by {
                if j < i {
                    assert(next[j] == prev[j]);
                }
            }
        }
        p = h.line_end;
        i += 1;
    }
    if i != expected.len() {
        proof {
            lemma_section_step(buf@, pb, expected@, i as int);
            lemma_tchar_end(buf@, pb);
        }
        return Err(http_err(p, "table has extra header records"));
    }
    proof {
        assert(expected@.subrange(i as int, n) =~= Seq::<HeaderSpan>::empty());
    }
    Ok((p, info))
}

// === head walks ===

/// Verified facts produced by [`walk_request_head`].
#[derive(Debug, Clone, Copy, PartialEq, Eq, Structural)]
pub struct RequestHead {
    /// Cursor one past the CRLFCRLF terminating the head.
    pub head_end: usize,
    /// Framing-relevant facts collected from the verified header lines.
    pub info: ParsedHeadInfo,
    /// Whether the verified method is exactly `HEAD`.
    pub method_is_head: bool,
}

/// ` HTTP/1.1\r\n`.
pub open spec fn request_version_lit() -> Seq<u8> {
    seq![0x20u8, 0x48, 0x54, 0x54, 0x50, 0x2f, 0x31, 0x2e, 0x31, 0x0d, 0x0a]
}

/// `HTTP/1.1 `.
pub open spec fn status_version_lit() -> Seq<u8> {
    seq![0x48u8, 0x54, 0x54, 0x50, 0x2f, 0x31, 0x2e, 0x31, 0x20]
}

/// `HEAD`.
pub open spec fn method_head() -> Seq<u8> {
    seq![0x48u8, 0x45, 0x41, 0x44]
}

/// The request head `req` describes `buf` exactly; the facts it yields.
///
/// The method is the `tchar+` run at byte 0, followed by one SP; the target
/// is the printable-ASCII run after it, followed by ` HTTP/1.1\r\n`; then the
/// header section (at most 128 records, well-formed `Content-Length`
/// values) ends at `head_end`.
pub open spec fn spec_request_head(buf: Seq<u8>, req: RequestSpans) -> Option<RequestHead> {
    let m = tchar_end(buf, 0);
    let ts = m + 1;
    let te = target_end(buf, ts);
    let hs = te + 11;
    let he = section_end(buf, hs, req.headers@);
    if m > 0 && req.method.start == 0 && req.method.end == m && lit_at(buf, m, seq![0x20u8])
        && te > ts && req.target.start == ts && req.target.end == te && lit_at(
        buf,
        te,
        request_version_lit(),
    ) && he is Some && req.headers@.len() <= MAX_HEADER_LINES && cl_values_ok(
        buf,
        req.headers@,
    ) && req.head_end == he->0 {
        Some(
            RequestHead {
                head_end: he->0 as usize,
                info: head_facts(buf, req.headers@).0,
                method_is_head: buf.subrange(0, m) == method_head(),
            },
        )
    } else {
        None
    }
}

/// Where a section that ends at `Some(e)` ends lies within the buffer.
pub proof fn lemma_section_end_bounds(buf: Seq<u8>, p: int, recs: Seq<HeaderSpan>)
    requires
        section_end(buf, p, recs) is Some,
        buf.len() <= usize::MAX,
    ensures
        p + 2 <= section_end(buf, p, recs)->0 <= buf.len(),
        0 <= p,
    decreases recs.len(),
{
    if recs.len() > 0 {
        lemma_scanned_line(buf, p);
        lemma_section_end_bounds(buf, scanned_line(buf, p).line_end as int, recs.drop_first());
    }
}

/// A described request head ends within the buffer.
pub proof fn lemma_request_head_bounds(buf: Seq<u8>, req: RequestSpans)
    requires
        spec_request_head(buf, req) is Some,
        buf.len() <= usize::MAX,
    ensures
        spec_request_head(buf, req)->0.head_end <= buf.len(),
{
    let m = tchar_end(buf, 0);
    let te = target_end(buf, m + 1);
    lemma_section_end_bounds(buf, te + 11, req.headers@);
}

/// A described response head ends within the buffer.
pub proof fn lemma_response_head_bounds(buf: Seq<u8>, resp: ResponseSpans)
    requires
        spec_response_head(buf, resp) is Some,
        buf.len() <= usize::MAX,
    ensures
        spec_response_head(buf, resp)->0.head_end <= buf.len(),
{
    let (rs, re) = reason_span(buf);
    lemma_section_end_bounds(buf, re + 2, resp.headers@);
}

/// The error for a span outside a buffer of `len` bytes (the length
/// saturated to `u32::MAX`), if it is outside.
pub open spec fn span_error(span: Span, len: int, what: &'static str) -> Option<Error> {
    if span.start <= span.end && span.end <= len {
        None
    } else {
        Some(
            Error::SpanOutOfBounds {
                start: span.start,
                end: span.end,
                len: if len <= u32::MAX { len as u32 } else { u32::MAX },
                what,
            },
        )
    }
}

/// The error of the header walk from `hs` against `recs`, where it fails.
pub open spec fn lines_error(buf: Seq<u8>, hs: int, recs: Seq<HeaderSpan>) -> Error {
    if recs.len() > MAX_HEADER_LINES {
        Error::Table { reason: "more than 128 header records" }
    } else {
        header_walk_error(buf, hs, recs, 0)
    }
}

/// The error for a request head that `req` does not describe: the first
/// of an empty method, a method span out of bounds or elsewhere, no SP, an
/// empty target, a target span out of bounds or elsewhere, no ` HTTP/1.1`
/// CRLF, a header walk that fails, another head end.
pub open spec fn request_head_error(buf: Seq<u8>, req: RequestSpans) -> Error {
    let me = tchar_end(buf, 0);
    let ts = me + 1;
    let te = target_end(buf, ts);
    let hs = te + 11;
    if me == 0 {
        Error::Http { at: 0, reason: "invalid method token" }
    } else if span_error(req.method, buf.len() as int, "request.method") is Some {
        span_error(req.method, buf.len() as int, "request.method")->0
    } else if req.method.start != 0 || req.method.end != me {
        Error::Http { at: 0, reason: "method span mismatch" }
    } else if !lit_at(buf, me, seq![0x20u8]) {
        Error::Http { at: me as u32, reason: "expected SP after method" }
    } else if te == ts {
        Error::Http { at: te as u32, reason: "invalid request target" }
    } else if span_error(req.target, buf.len() as int, "request.target") is Some {
        span_error(req.target, buf.len() as int, "request.target")->0
    } else if req.target.start != ts || req.target.end != te {
        Error::Http { at: ts as u32, reason: "target span mismatch" }
    } else if !lit_at(buf, te, request_version_lit()) {
        Error::Http { at: te as u32, reason: "expected ` HTTP/1.1` and CRLF" }
    } else if !(section_end(buf, hs, req.headers@) is Some && req.headers@.len() <= MAX_HEADER_LINES
        && cl_values_ok(buf, req.headers@)) {
        lines_error(buf, hs, req.headers@)
    } else {
        Error::Http { at: (section_end(buf, hs, req.headers@)->0) as u32, reason: "head_end mismatch" }
    }
}

/// Walks and verifies the request head of `buf` against `req`.
pub fn walk_request_head(buf: &[u8], req: &RequestSpans) -> (r: Result<RequestHead, Error>)
    ensures
        r is Ok <==> spec_request_head(buf@, *req) is Some,
        r matches Ok(h) ==> Some(h) == spec_request_head(buf@, *req),
        r matches Err(e) ==> e == request_head_error(buf@, *req),
{
    proof {
        lemma_tchar_end(buf@, 0);
    }
    let method_end = scan_token(buf, 0);
    if method_end == 0 {
        return Err(http_err(0, "invalid method token"));
    }
    match check_span(req.method, buf.len(), "request.method") {
        Ok(()) => {},
        Err(e) => {
            return Err(e);
        },
    }
    if req.method.start != 0 || req.method.end as usize != method_end {
        return Err(http_err(0, "method span mismatch"));
    }
    let head_lit: [u8; 4] = [0x48, 0x45, 0x41, 0x44];
    assert(head_lit@ =~= method_head());
    let method_is_head = method_end == 4 && lit_matches(buf, 0, head_lit.as_slice());
    proof {
        if method_end == 4 {
            assert(buf@.subrange(0, 4) == buf@.subrange(0, method_end as int));
        } else {
            assert(buf@.subrange(0, method_end as int).len() != method_head().len());
        }
    }
    let sp: [u8; 1] = [0x20];
    assert(sp@ =~= seq![0x20u8]);
    let mut p = match expect_lit(buf, method_end, sp.as_slice(), "expected SP after method") {
        Ok(x) => x,
        Err(e) => {
            return Err(e);
        },
    };
    let target_start = p;
    p = scan_target(buf, p);
    if p == target_start {
        return Err(http_err(p, "invalid request target"));
    }
    match check_span(req.target, buf.len(), "request.target") {
        Ok(()) => {},
        Err(e) => {
            return Err(e);
        },
    }
    if req.target.start as usize != target_start || req.target.end as usize != p {
        return Err(http_err(target_start, "target span mismatch"));
    }
    let version: [u8; 11] = [0x20, 0x48, 0x54, 0x54, 0x50, 0x2f, 0x31, 0x2e, 0x31, 0x0d, 0x0a];
    assert(version@ =~= request_version_lit());
    p = match expect_lit(buf, p, version.as_slice(), "expected ` HTTP/1.1` and CRLF") {
        Ok(x) => x,
        Err(e) => {
            return Err(e);
        },
    };
    let (head_end, info) = match walk_header_lines(buf, p, req.headers.as_slice()) {
        Ok(x) => x,
        Err(e) => {
            return Err(e);
        },
    };
    if req.head_end as usize != head_end {
        proof {
            lemma_section_end_bounds(buf@, p as int, req.headers@);
        }
        return Err(http_err(head_end, "head_end mismatch"));
    }
    Ok(RequestHead { head_end, info, method_is_head })
}

/// Verified facts produced by [`walk_response_head`].
#[derive(Debug, Clone, Copy, PartialEq, Eq, Structural)]
pub struct ResponseHead {
    /// Cursor one past the CRLFCRLF terminating the head.
    pub head_end: usize,
    /// Framing-relevant facts collected from the verified header lines.
    pub info: ParsedHeadInfo,
    /// The status code parsed from the verified 3-digit span (100..=599).
    pub status: u16,
}

/// The reason phrase's span: after `SP`, the value-charset run up to the
/// CR; without the `SP`, empty and pinned at byte 12.
pub open spec fn reason_span(buf: Seq<u8>) -> (int, int) {
    if 12 < buf.len() && buf[12] == 0x20 {
        (13, value_end(buf, 13))
    } else {
        (12, 12)
    }
}

/// The response head `resp` describes `buf` exactly; the facts it yields.
///
/// `HTTP/1.1 ` then three digits (the first in 1..=5) pinned at `[9, 12)`,
/// then the reason phrase, CRLF, and the header section ending at
/// `head_end`.
pub open spec fn spec_response_head(buf: Seq<u8>, resp: ResponseSpans) -> Option<ResponseHead> {
    let (rs, re) = reason_span(buf);
    let hs = re + 2;
    let he = section_end(buf, hs, resp.headers@);
    if lit_at(buf, 0, status_version_lit()) && 12 <= buf.len() && 0x31 <= buf[9] <= 0x35
        && spec_digit(buf[10]) && spec_digit(buf[11]) && resp.code.start == 9 && resp.code.end
        == 12 && resp.reason.start == rs && resp.reason.end == re && lit_at(
        buf,
        re,
        seq![0x0Du8, 0x0Au8],
    ) && he is Some && resp.headers@.len() <= MAX_HEADER_LINES && cl_values_ok(
        buf,
        resp.headers@,
    ) && resp.head_end == he->0 {
        Some(
            ResponseHead {
                head_end: he->0 as usize,
                info: head_facts(buf, resp.headers@).0,
                status: ((buf[9] - 0x30) * 100 + (buf[10] - 0x30) * 10 + (buf[11] - 0x30)) as u16,
            },
        )
    } else {
        None
    }
}

/// The error for a response head that `resp` does not describe: the
/// first of no `HTTP/1.1 `, a status line cut off, a bad first or further
/// status digit, a code span out of bounds or elsewhere, a reason span out
/// of bounds or elsewhere, no CRLF after the status line, a header walk
/// that fails, another head end.
pub open spec fn response_head_error(buf: Seq<u8>, resp: ResponseSpans) -> Error {
    let (rs, re) = reason_span(buf);
    let hs = re + 2;
    if !lit_at(buf, 0, status_version_lit()) {
        Error::Http { at: 0, reason: "expected `HTTP/1.1 `" }
    } else if buf.len() < 12 {
        Error::Http { at: buf.len() as u32, reason: "truncated status line" }
    } else if !(0x31 <= buf[9] <= 0x35) {
        Error::Http { at: 9, reason: "status code must start with a digit in 1-5" }
    } else if !spec_digit(buf[10]) || !spec_digit(buf[11]) {
        Error::Http { at: 10, reason: "status code must be 3 digits" }
    } else if span_error(resp.code, buf.len() as int, "response.code") is Some {
        span_error(resp.code, buf.len() as int, "response.code")->0
    } else if resp.code.start != 9 || resp.code.end != 12 {
        Error::Http { at: 9, reason: "status code span mismatch" }
    } else if span_error(resp.reason, buf.len() as int, "response.reason") is Some {
        span_error(resp.reason, buf.len() as int, "response.reason")->0
    } else if resp.reason.start != rs || resp.reason.end != re {
        Error::Http { at: rs as u32, reason: "reason span mismatch" }
    } else if !lit_at(buf, re, seq![0x0Du8, 0x0Au8]) {
        Error::Http { at: re as u32, reason: "expected CRLF after status line" }
    } else if !(section_end(buf, hs, resp.headers@) is Some && resp.headers@.len() <= MAX_HEADER_LINES
        && cl_values_ok(buf, resp.headers@)) {
        lines_error(buf, hs, resp.headers@)
    } else {
        Error::Http { at: (section_end(buf, hs, resp.headers@)->0) as u32, reason: "head_end mismatch" }
    }
}

/// Walks and verifies the response head of `buf` against `resp`.
pub fn walk_response_head(buf: &[u8], resp: &ResponseSpans) -> (r: Result<ResponseHead, Error>)
    ensures
        r is Ok <==> spec_response_head(buf@, *resp) is Some,
        r matches Ok(h) ==> Some(h) == spec_response_head(buf@, *resp),
        r matches Ok(h) ==> buf@.len() >= 12 && h.status == (buf@[9] - 0x30) * 100 + (buf@[10] - 0x30) * 10 + (
        buf@[11] - 0x30),
        r matches Err(e) ==> e == response_head_error(buf@, *resp),
{
    let version: [u8; 9] = [0x48, 0x54, 0x54, 0x50, 0x2f, 0x31, 0x2e, 0x31, 0x20];
    assert(version@ =~= status_version_lit());
    let mut p = match expect_lit(buf, 0, version.as_slice(), "expected `HTTP/1.1 `") {
        Ok(x) => x,
        Err(e) => {
            return Err(e);
        },
    };
    if p + 3 > buf.len() {
        return Err(http_err(buf.len(), "truncated status line"));
    }
    if !(0x31 <= buf[9] && buf[9] <= 0x35) {
        return Err(http_err(9, "status code must start with a digit in 1-5"));
    }
    if !(0x30 <= buf[10] && buf[10] <= 0x39) || !(0x30 <= buf[11] && buf[11] <= 0x39) {
        return Err(http_err(10, "status code must be 3 digits"));
    }
    let status: u16 = (buf[9] - 0x30) as u16 * 100 + (buf[10] - 0x30) as u16 * 10 + (buf[11]
        - 0x30) as u16;
    match check_span(resp.code, buf.len(), "response.code") {
        Ok(()) => {},
        Err(e) => {
            return Err(e);
        },
    }
    if resp.code.start != 9 || resp.code.end != 12 {
        return Err(http_err(9, "status code span mismatch"));
    }
    p = 12;
    let (reason_start, reason_end) = if p < buf.len() && buf[p] == 0x20 {
        p += 1;
        let start = p;
        p = scan_value(buf, p);
        (start, p)
    } else {
        (p, p)
    };
    match check_span(resp.reason, buf.len(), "response.reason") {
        Ok(()) => {},
        Err(e) => {
            return Err(e);
        },
    }
    if resp.reason.start as usize != reason_start || resp.reason.end as usize != reason_end {
        return Err(http_err(reason_start, "reason span mismatch"));
    }
    let crlf: [u8; 2] = [0x0D, 0x0A];
    assert(crlf@ =~= seq![0x0Du8, 0x0Au8]);
    p = match expect_lit(buf, p, crlf.as_slice(), "expected CRLF after status line") {
        Ok(x) => x,
        Err(e) => {
            return Err(e);
        },
    };
    let (head_end, info) = match walk_header_lines(buf, p, resp.headers.as_slice()) {
        Ok(x) => x,
        Err(e) => {
            return Err(e);
        },
    };
    if resp.head_end as usize != head_end {
        proof {
            lemma_section_end_bounds(buf@, p as int, resp.headers@);
        }
        return Err(http_err(head_end, "head_end mismatch"));
    }
    Ok(ResponseHead { head_end, info, status })
}

// === chunked bodies ===

/// The result of a verified chunk walk.
#[derive(Debug, Clone, PartialEq, Eq)]
pub struct ChunkWalkOutcome {
    /// The de-chunked body bytes: exactly the concatenated chunk data.
    pub decoded: Vec<u8>,
    /// One entry per non-empty data chunk, in order, mapping decoded
    /// coordinates back to source coordinates.
    pub chunk_map: Vec<ChunkMapEntry>,
    /// Cursor one past the CRLF of the terminal (size-0) chunk line.
    pub trailer_start: usize,
}

/// CRLF.
pub open spec fn crlf_lit() -> Seq<u8> {
    seq![0x0Du8, 0x0Au8]
}

/// The chunk-size line at `p`: `1..=16` HEXDIG with no leading OWS, an
/// optional extension whose first non-OWS byte is `;` (value charset, no
/// CR/LF), then CRLF. Yields the chunk size and the first data byte.
pub open spec fn chunk_header(buf: Seq<u8>, p: int) -> Option<(nat, int)> {
    let q = hexdig_end(buf, p);
    let e = value_end(buf, q);
    let o = ows_end(buf, q);
    if q > p && spec_parse_hex(buf.subrange(p, q)) is Some && (o >= e || buf[o] == 0x3B)
        && lit_at(buf, e, crlf_lit()) {
        Some((hex_value(buf.subrange(p, q)), e + 2))
    } else {
        None
    }
}

/// The chunked body starting at `p`, with `total` bytes decoded before it:
/// the decoded bytes, the chunk map, and where the trailer section starts.
///
/// The running total may not exceed 2^30; each non-empty chunk's data must
/// fit the buffer and be followed by CRLF; a size of 0 ends the walk.
pub open spec fn chunk_walk(buf: Seq<u8>, p: int, total: nat) -> Option<
    (Seq<u8>, Seq<ChunkMapEntry>, int),
>
    decreases buf.len() - p,
{
    match chunk_header(buf, p) {
        None => None,
        Some((size, ds)) => {
            let de = ds + size;
            if total + size > MAX_BODY_LEN {
                None
            } else if size == 0 {
                Some((Seq::empty(), Seq::empty(), ds))
            } else if p < ds && de + 2 <= buf.len() && lit_at(buf, de, crlf_lit()) {
                match chunk_walk(buf, de + 2, total + size) {
                    None => None,
                    Some((d, m, t)) => Some(
                        (
                            buf.subrange(ds, de) + d,
                            seq![ChunkMapEntry { src_start: ds as u32, body_offset: total as u32, len: size as u32 }] + m,
                            t,
                        ),
                    ),
                }
            } else {
                None
            }
        },
    }
}

/// The error a walk of the chunked body at `p` (with `total` bytes decoded
/// before it) meets first, where [`chunk_walk`] finds none: a size line
/// without hex digits or beyond 64 bits, a running total beyond 2^30, an
/// extension not opening with `;`, a missing CRLF after the size line,
/// chunk data past the buffer, a missing CRLF after the data. (At the last
/// chunk the walk succeeds; the value given there is never returned.)
pub open spec fn chunk_walk_error(buf: Seq<u8>, p: int, total: nat) -> Error
    decreases buf.len() - p,
{
    let q = hexdig_end(buf, p);
    let e = value_end(buf, q);
    let o = ows_end(buf, q);
    let size = hex_value(buf.subrange(p, q));
    let ds = e + 2;
    if q == p || spec_parse_hex(buf.subrange(p, q)) is None {
        Error::Http { at: p as u32, reason: "invalid chunk size" }
    } else if total + size > MAX_BODY_LEN {
        Error::Http { at: p as u32, reason: "chunked body exceeds 2^30 bytes" }
    } else if o < e && buf[o] != 0x3B {
        Error::Http { at: q as u32, reason: "invalid chunk extension" }
    } else if !lit_at(buf, e, crlf_lit()) {
        Error::Http { at: e as u32, reason: "expected CRLF after chunk size" }
    } else if ds + size > buf.len() {
        Error::Http { at: ds as u32, reason: "chunk data exceeds buffer" }
    } else if !lit_at(buf, ds + size, crlf_lit()) {
        Error::Http { at: (ds + size) as u32, reason: "expected CRLF after chunk data" }
    } else if size > 0 && p < ds + size + 2 <= buf.len() {
        chunk_walk_error(buf, ds + size + 2, total + size)
    } else {
        Error::Http { at: p as u32, reason: "invalid chunk size" }
    }
}

/// The source bytes of the map's runs, one run after another.
pub open spec fn chunk_sources(buf: Seq<u8>, m: Seq<ChunkMapEntry>) -> Seq<u8>
    decreases m.len(),
{
    if m.len() == 0 {
        Seq::empty()
    } else {
        buf.subrange(m[0].src_start as int, m[0].src_start + m[0].len) + chunk_sources(buf, m.drop_first())
    }
}

/// Every run of the map is non-empty and starts, in decoded coordinates,
/// where the runs before it end (the first at `off`).
pub open spec fn map_runs(m: Seq<ChunkMapEntry>, off: int) -> bool
    decreases m.len(),
{
    m.len() == 0 || (m[0].len > 0 && m[0].body_offset == off && map_runs(m.drop_first(), off + m[0].len))
}

/// A chunk walk from `p` with `total` bytes decoded before it: the decoded
/// bytes are the source bytes of its runs, in order; the runs are
/// non-empty and follow one another from `total`; the running total stays
/// within 2^30 bytes; and the trailer section starts past `p`, within the
/// buffer.
pub proof fn lemma_chunk_walk_map(buf: Seq<u8>, p: int, total: nat)
    requires
        buf.len() <= u32::MAX,
        0 <= p,
        chunk_walk(buf, p, total) is Some,
    ensures
        ({
            let (d, m, t) = chunk_walk(buf, p, total)->0;
            &&& total + d.len() <= MAX_BODY_LEN
            &&& d == chunk_sources(buf, m)
            &&& map_runs(m, total as int)
            &&& p < t <= buf.len()
        }),
    decreases buf.len() - p,
{
    let (d, m, t) = chunk_walk(buf, p, total)->0;
    let (size, ds) = chunk_header(buf, p)->0;
    let de = ds + size;
    if p <= buf.len() {
        lemma_hexdig_end(buf, p);
        lemma_value_end(buf, hexdig_end(buf, p));
    }
    if size == 0 {
        assert(m =~= Seq::<ChunkMapEntry>::empty());
        assert(d =~= Seq::<u8>::empty());
    } else {
        let (d2, m2, t2) = chunk_walk(buf, de + 2, total + size)->0;
        lemma_chunk_walk_map(buf, de + 2, (total + size) as nat);
        let e = ChunkMapEntry { src_start: ds as u32, body_offset: total as u32, len: size as u32 };
        assert(m == seq![e] + m2);
        assert(m.drop_first() =~= m2);
        assert(m[0] == e);
        assert(d == buf.subrange(ds, de) + d2);
    }
}

/// Prefixes decoded bytes and map entries to a walk result.
pub open spec fn prepend_walk(
    d: Seq<u8>,
    m: Seq<ChunkMapEntry>,
    r: Option<(Seq<u8>, Seq<ChunkMapEntry>, int)>,
) -> Option<(Seq<u8>, Seq<ChunkMapEntry>, int)> {
    match r {
        None => None,
        Some((d2, m2, t)) => Some((d + d2, m + m2, t)),
    }
}

/// Facts about the maximal hex-digit run.
pub proof fn lemma_hexdig_end(buf: Seq<u8>, p: int)
    requires
        0 <= p <= buf.len(),
    ensures
        p <= hexdig_end(buf, p) <= buf.len(),
    decreases buf.len() - p,
{
    if p < buf.len() && spec_hexdig(buf[p]) {
        lemma_hexdig_end(buf, p + 1);
    }
}

/// Walks the chunked body of `buf` starting at `start`, decoding it.
///
/// Takes no table input: chunk structure is derived from the bytes alone.
/// `capacity_hint` only pre-sizes the decode buffer and never affects the
/// result.
pub fn walk_chunks(buf: &[u8], start: usize, capacity_hint: usize) -> (r: Result<
    ChunkWalkOutcome,
    Error,
>)
    ensures
        r is Ok <==> chunk_walk(buf@, start as int, 0) is Some,
        r matches Ok(out) ==> chunk_walk(buf@, start as int, 0) == Some(
            (out.decoded@, out.chunk_map@, out.trailer_start as int),
        ),
        r matches Err(e) ==> e == chunk_walk_error(buf@, start as int, 0),
        buf@.len() <= u32::MAX ==> (r matches Ok(out) ==> {
            &&& out.decoded@.len() <= MAX_BODY_LEN
            &&& out.decoded@ == chunk_sources(buf@, out.chunk_map@)
            &&& map_runs(out.chunk_map@, 0)
            &&& start < out.trailer_start <= buf@.len()
        }),
{
    let cap = if capacity_hint < buf.len() {
        capacity_hint
    } else {
        buf.len()
    };
    let mut decoded: Vec<u8> = Vec::with_capacity(cap);
    let mut chunk_map: Vec<ChunkMapEntry> = Vec::new();
    let mut total: u64 = 0;
    let mut p = start;
    let crlf: [u8; 2] = [0x0D, 0x0A];
    assert(crlf@ =~= crlf_lit());
    assert(decoded@ + Seq::<u8>::empty() =~= Seq::<u8>::empty());
    proof {
        assert(prepend_walk(decoded@, chunk_map@, chunk_walk(buf@, p as int, 0)) =~= chunk_walk(
            buf@,
            start as int,
            0,
        )) by {
            match chunk_walk(buf@, p as int, 0) {
                None => {},
                Some((d2, m2, t)) => {
                    assert(decoded@ + d2 =~= d2);
                    assert(chunk_map@ + m2 =~= m2);
                },
            }
        }
    }
    loop
        invariant
            chunk_walk(buf@, start as int, 0) == prepend_walk(
                decoded@,
                chunk_map@,
                chunk_walk(buf@, p as int, total as nat),
            ),
            total == decoded@.len(),
            total <= MAX_BODY_LEN,
            p == start || p <= buf@.len(),
            crlf@ == crlf_lit(),
            chunk_walk_error(buf@, start as int, 0) == chunk_walk_error(buf@, p as int, total as nat),
        decreases buf@.len() + 1 - p,
    {
        let q = scan_hexdigs(buf, p);
        if q == p {
            return Err(http_err(p, "invalid chunk size"));
        }
        let size = match parse_hex_u64(&buf[p..q]) {
            Some(v) => v,
            None => {
                return Err(http_err(p, "invalid chunk size"));
            },
        };
        if size > MAX_BODY_LEN - total {
            return Err(http_err(p, "chunked body exceeds 2^30 bytes"));
        }
        let ext_start = q;
        let e = scan_value(buf, q);
        let o = skip_ows(buf, q);
        proof {
            lemma_ows_end(buf@, q as int);
            lemma_value_end(buf@, q as int);
            if o > e {
                assert(spec_value_byte(buf@[e as int]));
            }
        }
        if o < e && buf[o] != 0x3B {
            return Err(http_err(ext_start, "invalid chunk extension"));
        }
        let ds = match expect_lit(buf, e, crlf.as_slice(), "expected CRLF after chunk size") {
            Ok(x) => x,
            Err(err) => {
                return Err(err);
            },
        };
        assert(chunk_header(buf@, p as int) == Some((size as nat, ds as int)));
        if size == 0 {
            let out = ChunkWalkOutcome { decoded, chunk_map, trailer_start: ds };
            proof {
                assert(out.decoded@ + Seq::<u8>::empty() =~= out.decoded@);
                assert(out.chunk_map@ + Seq::<ChunkMapEntry>::empty() =~= out.chunk_map@);
                if buf@.len() <= u32::MAX {
                    lemma_chunk_walk_map(buf@, start as int, 0);
                }
            }
            return Ok(out);
        }
        let sz = size as usize;
        if sz > buf.len() || ds > buf.len() - sz {
            return Err(http_err(ds, "chunk data exceeds buffer"));
        }
        let data_end = ds + sz;
        let ghost old_decoded = decoded@;
        let ghost old_map = chunk_map@;
        let entry = ChunkMapEntry { src_start: ds as u32, body_offset: decoded.len() as u32, len: sz as u32 };
        chunk_map.push(entry);
        let mut k = ds;
        while k < data_end
            invariant
                ds <= k <= data_end <= buf@.len(),
                decoded@ == old_decoded + buf@.subrange(ds as int, k as int),
            decreases data_end - k,
        {
            decoded.push(buf[k]);
            proof {
                assert(buf@.subrange(ds as int, k + 1) =~= buf@.subrange(ds as int, k as int).push(buf@[k as int]));
            }
            k += 1;
        }
        let next = match expect_lit(buf, data_end, crlf.as_slice(), "expected CRLF after chunk data") {
            Ok(x) => x,
            Err(err) => {
                return Err(err);
            },
        };
        proof {
            let cd = buf@.subrange(ds as int, data_end as int);
            match chunk_walk(buf@, next as int, (total + size) as nat) {
                None => {},
                Some((d2, m2, t)) => {
                    assert(old_decoded + (cd + d2) =~= decoded@ + d2);
                    assert(old_map + (seq![entry] + m2) =~= chunk_map@ + m2);
                },
            }
        }
        total = total + size;
        p = next;
    }
}

// === trailers ===

/// No trailer record is named `Content-Length`, `Transfer-Encoding` or
/// `Host` (ASCII case-insensitive).
pub open spec fn no_restricted_trailers(buf: Seq<u8>, recs: Seq<HeaderSpan>) -> bool {
    forall|j: int|
        0 <= j < recs.len() ==> {
            let name = span_bytes(buf, #[trigger] recs[j].name);
            &&& !ascii_ci_eq(name, name_content_length())
            &&& !ascii_ci_eq(name, name_transfer_encoding())
            &&& !ascii_ci_eq(name, name_host())
        }
}

/// The name is one that a trailer may not carry.
pub open spec fn restricted_name(name: Seq<u8>) -> bool {
    ||| ascii_ci_eq(name, name_content_length())
    ||| ascii_ci_eq(name, name_transfer_encoding())
    ||| ascii_ci_eq(name, name_host())
}

/// The error the trailer walk at `p` (record `i` next) meets first, where
/// the section does not match `recs`: the buffer ends, a CR without LF, a
/// 129th line, a malformed line, a line without record, a record that does
/// not hold its line, a restricted name, or records left at the blank line.
/// (Where the blank line ends the section as `recs` say, the walk succeeds
/// and the value given there is never returned.)
pub open spec fn trailer_error(buf: Seq<u8>, p: int, recs: Seq<HeaderSpan>, i: int) -> Error
    decreases buf.len() - p,
{
    if p < 0 || p >= buf.len() {
        Error::Http { at: p as u32, reason: "truncated trailer section" }
    } else if buf[p] == 0x0D {
        if p + 1 < buf.len() && buf[p + 1] == 0x0A {
            Error::Http { at: (p + 2) as u32, reason: "table has extra trailer records" }
        } else {
            Error::Http { at: p as u32, reason: "expected LF after CR" }
        }
    } else if i >= MAX_HEADER_LINES {
        Error::Table { reason: "more than 128 trailer lines" }
    } else if !header_line_ok(buf, p) {
        header_line_error(buf, p)
    } else if i >= recs.len() {
        Error::Http { at: p as u32, reason: "trailer line without table record" }
    } else if !record_matches(recs[i], scanned_line(buf, p)) {
        record_error(buf.len() as int, scanned_line(buf, p), recs[i])
    } else if restricted_name(span_bytes(buf, recs[i].name)) {
        Error::Http { at: p as u32, reason: "restricted trailer name" }
    } else if p < scanned_line(buf, p).line_end <= buf.len() {
        trailer_error(buf, scanned_line(buf, p).line_end as int, recs, i + 1)
    } else {
        Error::Http { at: p as u32, reason: "truncated trailer section" }
    }
}

/// Walks the trailer section of a chunked body starting at `start`, in
/// lockstep with `expected`, and returns the chunked message end.
pub fn walk_trailers(buf: &[u8], start: usize, expected: &[HeaderSpan]) -> (r: Result<
    usize,
    Error,
>)
    ensures
        r is Ok <==> (section_end(buf@, start as int, expected@) is Some && expected@.len()
            <= MAX_HEADER_LINES && no_restricted_trailers(buf@, expected@)),
        r matches Ok(end) ==> section_end(buf@, start as int, expected@) == Some(end as int),
        r matches Err(e) ==> e == (if expected@.len() > MAX_HEADER_LINES {
            Error::Table { reason: "more than 128 trailer records" }
        } else {
            trailer_error(buf@, start as int, expected@, 0)
        }),
{
    if expected.len() > MAX_HEADER_LINES {
        return Err(Error::Table { reason: "more than 128 trailer records" });
    }
    let ghost n = expected@.len() as int;
    let cl_lit = content_length_name();
    let te_lit = transfer_encoding_name();
    let host_lit = host_name();
    let crlf: [u8; 2] = [0x0D, 0x0A];
    assert(crlf@ =~= seq![0x0Du8, 0x0Au8]);
    let mut p = start;
    let mut i: usize = 0;
    let ghost mut pb: int = 0;
    assert(expected@.subrange(0, n) =~= expected@);
    loop
        invariant_except_break
            0 <= i <= n,
            n == expected@.len() <= MAX_HEADER_LINES,
            section_end(buf@, start as int, expected@) == section_end(
                buf@,
                p as int,
                expected@.subrange(i as int, n),
            ),
            no_restricted_trailers(buf@, expected@.subrange(0, i as int)),
            crlf@ == seq![0x0Du8, 0x0Au8],
            cl_lit@ == name_content_length(),
            te_lit@ == name_transfer_encoding(),
            host_lit@ == name_host(),
            trailer_error(buf@, start as int, expected@, 0) == trailer_error(buf@, p as int, expected@, i as int),
        ensures
            trailer_error(buf@, start as int, expected@, 0) == trailer_error(buf@, pb, expected@, i as int),
            0 <= i <= n,
            n == expected@.len() <= MAX_HEADER_LINES,
            section_end(buf@, start as int, expected@) == section_end(
                buf@,
                pb,
                expected@.subrange(i as int, n),
            ),
            no_restricted_trailers(buf@, expected@.subrange(0, i as int)),
            0 <= pb,
            pb + 1 < buf@.len(),
            buf@[pb] == 0x0D,
            buf@[pb + 1] == 0x0A,
            p == pb + 2,
        decreases buf@.len() - p,
    {
        if p >= buf.len() {
            proof {
                if i < n {
                    lemma_section_step(buf@, p as int, expected@, i as int);
                }
            }
            return Err(http_err(p, "truncated trailer section"));
        }
        if buf[p] == 0x0D {
            proof {
                if i < n {
                    lemma_section_step(buf@, p as int, expected@, i as int);
                }
            }
            match expect_lit(buf, p, crlf.as_slice(), "expected LF after CR") {
                Ok(e) => {
                    proof {
                        pb = p as int;
                        assert(buf@.subrange(p as int, p + 2)[1] == crlf@[1]);
                    }
                    p = e;
                    break ;
                },
                Err(e) => {
                    proof {
                        if p + 1 < buf@.len() && buf@[p + 1] == 0x0A {
                            assert(buf@.subrange(p as int, p + 2) =~= crlf@);
                        }
                    }
                    return Err(e);
                },
            }
        }
        if i >= MAX_HEADER_LINES {
            return Err(Error::Table { reason: "more than 128 trailer lines" });
        }
        proof {
            if i < n {
                lemma_section_step(buf@, p as int, expected@, i as int);
            }
        }
        let h = match scan_header_line(buf, p) {
            Ok(h) => h,
            Err(e) => {
                return Err(e);
            },
        };
        if i >= expected.len() {
            return Err(http_err(p, "trailer line without table record"));
        }
        let record = &expected[i];
        proof {
            lemma_scanned_line(buf@, p as int);
        }
        match check_header_record(buf.len(), &h, record) {
            Ok(()) => {},
            Err(e) => {
                return Err(e);
            },
        }
        let name = &buf[h.name_start..h.name_end];
        proof {
            assert(name@ == span_bytes(buf@, expected@[i as int].name));
        }
        if ascii_eq_ignore_case(name, cl_lit.as_slice()) || ascii_eq_ignore_case(
            name,
            te_lit.as_slice(),
        ) || ascii_eq_ignore_case(name, host_lit.as_slice()) {
            return Err(http_err(h.name_start, "restricted trailer name"));
        }
        proof {
            let prev = expected@.subrange(0, i as int);
            let next = expected@.subrange(0, i + 1);
            assert forall|j: int| 0 <= j < next.len() implies {
                let name = span_bytes(buf@, #[trigger] next[j].name);
                &&& !ascii_ci_eq(name, name_content_length())
                &&& !ascii_ci_eq(name, name_transfer_encoding())
                &&& !ascii_ci_eq(name, name_host())
            } by {
                if j < i {
                    assert(next[j] == prev[j]);
                }
            }
        }
        p = h.line_end;
        i += 1;
    }
    if i != expected.len() {
        proof {
            lemma_section_step(buf@, pb, expected@, i as int);
            lemma_tchar_end(buf@, pb);
        }
        return Err(http_err(p, "table has extra trailer records"));
    }
    proof {
        assert(expected@.subrange(i as int, n) =~= Seq::<HeaderSpan>::empty());
    }
    Ok(p)
}

} // verus!
