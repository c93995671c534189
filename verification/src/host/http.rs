//! Host-side HTTP flattening: bytes to table spans, with the validator's
//! own grammar.
use vstd::prelude::*;

use crate::error::{error_reason, reason_view, unsupported, Error, HostError};
use crate::spans::{BodySpans, Framing, HeaderSpan, RequestSpans, ResponseSpans, Span};
use crate::transcript::{slice_span, span_view};
use crate::validate::http::{
    ascii_ci_eq, expect_lit, header_line_ok, lemma_scanned_line, lower, record_matches, scan_header_line,
    scan_target, scan_token, scan_value, section_end, span_bytes, walk_chunks, walk_header_lines,
    walk_trailers, MAX_HEADER_LINES,
};
use crate::validate::{derive_request_framing, derive_response_framing, DerivedFraming, MAX_BUF_LEN};

verus! {

/// The records tile `[start, p)` as consecutive header lines.
pub open spec fn lines_tile(buf: Seq<u8>, start: int, recs: Seq<HeaderSpan>, p: int) -> bool
    decreases recs.len(),
{
    if recs.len() == 0 {
        start == p
    } else {
        crate::validate::http::header_line_ok(buf, start) && record_matches(
            recs[0],
            crate::validate::http::scanned_line(buf, start),
        ) && lines_tile(
            buf,
            crate::validate::http::scanned_line(buf, start).line_end as int,
            recs.drop_first(),
            p,
        )
    }
}

/// Tiling lines then a blank line is a header section.
pub proof fn lemma_tile_section(buf: Seq<u8>, start: int, recs: Seq<HeaderSpan>, p: int)
    requires
        lines_tile(buf, start, recs, p),
    ensures
        section_end(buf, start, recs) == section_end(buf, p, Seq::empty()),
    decreases recs.len(),
{
    if recs.len() > 0 {
        lemma_tile_section(
            buf,
            crate::validate::http::scanned_line(buf, start).line_end as int,
            recs.drop_first(),
            p,
        );
    }
}

/// Extending a tiling by one more line.
pub proof fn lemma_tile_push(buf: Seq<u8>, start: int, recs: Seq<HeaderSpan>, p: int, rec: HeaderSpan)
    requires
        lines_tile(buf, start, recs, p),
        crate::validate::http::header_line_ok(buf, p),
        record_matches(rec, crate::validate::http::scanned_line(buf, p)),
    ensures
        lines_tile(buf, start, recs.push(rec), crate::validate::http::scanned_line(buf, p).line_end as int),
    decreases recs.len(),
{
    if recs.len() == 0 {
        assert(recs.push(rec).drop_first() =~= Seq::<HeaderSpan>::empty());
        assert(recs.push(rec)[0] == rec);
        let le = crate::validate::http::scanned_line(buf, p).line_end as int;
        assert(lines_tile(buf, le, Seq::<HeaderSpan>::empty(), le));
    } else {
        let s2 = crate::validate::http::scanned_line(buf, start).line_end as int;
        lemma_tile_push(buf, s2, recs.drop_first(), p, rec);
        assert(recs.push(rec).drop_first() =~= recs.drop_first().push(rec));
        assert(recs.push(rec)[0] == recs[0]);
    }
}

/// Some header records, no more than the cap, describe a section of `buf`
/// starting at `start`.
pub open spec fn section_fits(buf: Seq<u8>, start: int) -> bool {
    exists|w: Seq<HeaderSpan>| section_end(buf, start, w) is Some && w.len() <= MAX_HEADER_LINES
}

/// Derives the header records of the section starting at `start`, up to
/// and including the blank line; returns them with the section end.
pub fn scan_header_records(buf: &[u8], start: usize) -> (r: Result<(Vec<HeaderSpan>, usize), HostError>)
    requires
        buf@.len() <= MAX_BUF_LEN,
    ensures
        r matches Ok((recs, end)) ==> section_end(buf@, start as int, recs@) == Some(end as int)
            && recs@.len() <= MAX_HEADER_LINES,
        section_fits(buf@, start as int) ==> r is Ok,
{
    let mut recs: Vec<HeaderSpan> = Vec::new();
    let mut p = start;
    let crlf: [u8; 2] = [0x0D, 0x0A];
    assert(crlf@ =~= seq![0x0Du8, 0x0Au8]);
    assert(lines_tile(buf@, start as int, recs@, p as int));
    let ghost fits = section_fits(buf@, start as int);
    let ghost mut rest: Seq<HeaderSpan> = if fits {
        choose|w: Seq<HeaderSpan>| section_end(buf@, start as int, w) is Some && w.len() <= MAX_HEADER_LINES
    } else {
        Seq::empty()
    };
    loop
        invariant
            buf@.len() <= MAX_BUF_LEN,
            lines_tile(buf@, start as int, recs@, p as int),
            recs@.len() <= MAX_HEADER_LINES,
            crlf@ == seq![0x0Du8, 0x0Au8],
            start <= p,
            fits == section_fits(buf@, start as int),
            fits ==> section_end(buf@, p as int, rest) is Some && recs@.len() + rest.len() <= MAX_HEADER_LINES,
        decreases buf@.len() + 1 - p,
    {
        if p >= buf.len() {
            return Err(unsupported("http head", "truncated head"));
        }
        proof {
            if fits && rest.len() > 0 {
                assert(header_line_ok(buf@, p as int));
                assert(crate::validate::http::tchar_end(buf@, p as int) > p);
            }
        }
        if buf[p] == 0x0D {
            proof {
                if fits && rest.len() > 0 {
                    assert(crate::validate::http::spec_tchar(buf@[p as int]));
                    assert(!crate::validate::http::spec_tchar(0x0Du8));
                }
            }
            let e = match expect_lit(buf, p, crlf.as_slice(), "expected LF after CR") {
                Ok(e) => e,
                Err(_) => {
                    proof {
                        if fits {
                            assert(rest.len() == 0);
                            assert(buf@.subrange(p as int, p + 2) =~= crlf@);
                        }
                    }
                    return Err(unsupported("http grammar", "expected LF after CR"));
                },
            };
            proof {
                assert(buf@.subrange(p as int, p + 2)[1] == crlf@[1]);
                lemma_tile_section(buf@, start as int, recs@, p as int);
            }
            return Ok((recs, e));
        }
        if recs.len() >= MAX_HEADER_LINES {
            return Err(unsupported("http head", "more than 128 header lines"));
        }
        let h = match scan_header_line(buf, p) {
            Ok(h) => h,
            Err(e) => {
                return Err(unsupported("http grammar", error_reason(&e)));
            },
        };
        proof {
            lemma_scanned_line(buf@, p as int);
            if fits {
                rest = rest.drop_first();
            }
        }
        let rec = HeaderSpan {
            name: Span::new(h.name_start as u32, h.name_end as u32),
            value: Span::new(h.value_start as u32, h.value_end as u32),
        };
        proof {
            lemma_tile_push(buf@, start as int, recs@, p as int, rec);
        }
        recs.push(rec);
        p = h.line_end;
    }
}

/// Some body record describes the body section of `buf` starting at
/// `head_end` under the derived framing.
pub open spec fn body_fits(buf: Seq<u8>, head_end: int, derived: DerivedFraming) -> bool {
    exists|b: Option<BodySpans>| #[trigger] crate::validate::spec_body(buf, head_end, derived, b) is Some
}

/// Derives the body record for the body section starting at `head_end`
/// under the derived framing; `None` for a message without body. The JSON
/// claim is left opaque.
pub fn build_body(buf: &[u8], head_end: usize, derived: DerivedFraming) -> (r: Result<
    Option<BodySpans>,
    HostError,
>)
    requires
        head_end <= buf@.len() <= MAX_BUF_LEN,
    ensures
        r matches Ok(b) ==> crate::validate::spec_body(buf@, head_end as int, derived, b) is Some
            && (b matches Some(bs) ==> bs.json is None),
        body_fits(buf@, head_end as int, derived) ==> r is Ok,
{
    let ghost fits = body_fits(buf@, head_end as int, derived);
    let ghost w: Option<BodySpans> = if fits {
        choose|b: Option<BodySpans>| #[trigger] crate::validate::spec_body(buf@, head_end as int, derived, b) is Some
    } else {
        None
    };
    let derived = match derived {
        DerivedFraming::ContentLength(0) => DerivedFraming::NoBody,
        other => other,
    };
    match derived {
        DerivedFraming::NoBody => {
            if head_end != buf.len() {
                return Err(unsupported("message framing", "bytes remain after message without body"));
            }
            Ok(None)
        },
        DerivedFraming::ContentLength(n) => {
            if n as usize > buf.len() || head_end != buf.len() - n as usize {
                return Err(unsupported("message framing", "Content-Length body must end exactly at end of buffer"));
            }
            Ok(
                Some(
                    BodySpans {
                        framing: Framing::ContentLength,
                        raw: Span::new(head_end as u32, buf.len() as u32),
                        content_len: n,
                        trailers: Vec::new(),
                        json: None,
                    },
                ),
            )
        },
        DerivedFraming::Close => {
            Ok(
                Some(
                    BodySpans {
                        framing: Framing::Close,
                        raw: Span::new(head_end as u32, buf.len() as u32),
                        content_len: (buf.len() - head_end) as u32,
                        trailers: Vec::new(),
                        json: None,
                    },
                ),
            )
        },
        DerivedFraming::Chunked => {
            let outcome = match walk_chunks(buf, head_end, 0) {
                Ok(o) => o,
                Err(e) => {
                    return Err(unsupported("http grammar", error_reason(&e)));
                },
            };
            proof {
                if fits {
                    let bs = w->0;
                    assert(section_end(buf@, outcome.trailer_start as int, bs.trailers@) is Some
                        && bs.trailers@.len() <= MAX_HEADER_LINES);
                    assert(section_fits(buf@, outcome.trailer_start as int));
                }
            }
            let (trailers, end) = scan_header_records(buf, outcome.trailer_start)?;
            proof {
                if fits {
                    crate::validate::laws::lemma_section_unique(
                        buf@,
                        outcome.trailer_start as int,
                        trailers@,
                        w->0.trailers@,
                    );
                }
            }
            match walk_trailers(buf, outcome.trailer_start, trailers.as_slice()) {
                Ok(_) => {},
                Err(e) => {
                    return Err(unsupported("chunked trailers", error_reason(&e)));
                },
            }
            if end != buf.len() {
                return Err(unsupported("message framing", "bytes remain after chunked message"));
            }
            if head_end > end || outcome.decoded.len() > u32::MAX as usize {
                return Err(unsupported("message framing", "chunked body out of range"));
            }
            Ok(
                Some(
                    BodySpans {
                        framing: Framing::Chunked,
                        raw: Span::new(head_end as u32, end as u32),
                        content_len: outcome.decoded.len() as u32,
                        trailers,
                        json: None,
                    },
                ),
            )
        },
    }
}

/// Maps an error of the head walk over host-derived records: only a
/// malformed `Content-Length` value or a cap can remain.
pub fn head_error(e: &Error) -> (r: HostError)
    ensures
        r matches HostError::Unsupported { feature, detail } && match *e {
            Error::Http { reason, .. } => feature@ == "Content-Length"@ && detail@ == reason@,
            Error::Table { reason } => feature@ == "http head"@ && detail@ == reason@,
            _ => feature@ == "http grammar"@ && detail@ == reason_view(*e),
        },
{
    match e {
        Error::Http { reason, .. } => unsupported("Content-Length", reason),
        Error::Table { reason } => unsupported("http head", reason),
        _ => unsupported("http grammar", error_reason(e)),
    }
}

/// Maps a framing-derivation error to a host error.
pub fn framing_error(e: &Error) -> (r: HostError)
    ensures
        r matches HostError::Unsupported { feature, detail } && feature@ == "framing"@ && detail@
            == reason_view(*e),
{
    unsupported("framing", error_reason(e))
}

/// `q` describes the request in `buf`: its head, derivable framing and body.
pub open spec fn request_described(buf: Seq<u8>, q: RequestSpans) -> bool {
    match crate::validate::http::spec_request_head(buf, q) {
        Some(h) => match crate::validate::spec_request_framing(h.info) {
            Some(f) => crate::validate::spec_body(buf, h.head_end as int, f, q.body) is Some,
            None => false,
        },
        None => false,
    }
}

/// `s` describes the response in `buf`, given whether the request method
/// was `HEAD`: its head, derivable framing and body.
pub open spec fn response_described(buf: Seq<u8>, is_head: bool, s: ResponseSpans) -> bool {
    match crate::validate::http::spec_response_head(buf, s) {
        Some(h) => match crate::validate::spec_response_framing(is_head, h.status, h.info, buf.len() > h.head_end) {
            Some(f) => crate::validate::spec_body(buf, h.head_end as int, f, s.body) is Some,
            None => false,
        },
        None => false,
    }
}

/// Flattens the request head and body framing of `sent` into table spans
/// (the body's JSON claim is left opaque).
pub fn request_spans(sent: &[u8]) -> (r: Result<RequestSpans, HostError>)
    requires
        sent@.len() <= MAX_BUF_LEN,
    ensures
        r matches Ok(req) ==> {
            &&& crate::validate::http::spec_request_head(sent@, req) matches Some(h)
            &&& crate::validate::spec_request_framing(h.info) matches Some(f)
            &&& crate::validate::spec_body(sent@, h.head_end as int, f, req.body) is Some
            &&& (req.body matches Some(b) ==> b.json is None)
        },
        (exists|q: RequestSpans| #[trigger] request_described(sent@, q)) ==> r is Ok,
{
    let buf = sent;
    let ghost fits = exists|q: RequestSpans| #[trigger] request_described(sent@, q);
    let ghost w = choose|q: RequestSpans| #[trigger] request_described(sent@, q);
    let method_end = scan_token(buf, 0);
    if method_end == 0 {
        return Err(unsupported("http grammar", "invalid method token"));
    }
    if method_end >= buf.len() || buf[method_end] != 0x20 {
        proof {
            if fits {
                assert(request_described(sent@, w));
                assert(buf@.subrange(method_end as int, method_end + 1)[0] == buf@[method_end as int]);
            }
        }
        return Err(unsupported("http grammar", "expected SP after method"));
    }
    proof {
        assert(buf@.subrange(method_end as int, method_end + 1) =~= seq![0x20u8]);
    }
    let target_start = method_end + 1;
    let target_end = scan_target(buf, target_start);
    if target_end == target_start {
        return Err(unsupported("http grammar", "invalid request target"));
    }
    let version: [u8; 11] = [0x20, 0x48, 0x54, 0x54, 0x50, 0x2f, 0x31, 0x2e, 0x31, 0x0d, 0x0a];
    assert(version@ =~= crate::validate::http::request_version_lit());
    let hs = match expect_lit(buf, target_end, version.as_slice(), "expected ` HTTP/1.1` and CRLF") {
        Ok(e) => e,
        Err(_) => {
            return Err(unsupported("http version", "expected ` HTTP/1.1` and CRLF"));
        },
    };
    proof {
        if fits {
            assert(request_described(sent@, w));
            assert(section_end(buf@, hs as int, w.headers@) is Some && w.headers@.len() <= MAX_HEADER_LINES);
            assert(section_fits(buf@, hs as int));
        }
    }
    let (headers, head_end) = scan_header_records(buf, hs)?;
    proof {
        if fits {
            crate::validate::laws::lemma_section_unique(buf@, hs as int, headers@, w.headers@);
        }
    }
    let (_, info) = match walk_header_lines(buf, hs, headers.as_slice()) {
        Ok(x) => x,
        Err(e) => {
            return Err(head_error(&e));
        },
    };
    proof {
        crate::validate::http::lemma_section_end_bounds(buf@, hs as int, headers@);
    }
    let framing = match derive_request_framing(&info) {
        Ok(f) => f,
        Err(e) => {
            return Err(framing_error(&e));
        },
    };
    proof {
        if fits {
            assert(crate::validate::spec_body(buf@, head_end as int, framing, w.body) is Some);
            assert(body_fits(buf@, head_end as int, framing));
        }
    }
    let body = build_body(buf, head_end, framing)?;
    let req = RequestSpans {
        method: Span::new(0, method_end as u32),
        target: Span::new(target_start as u32, target_end as u32),
        head_end: head_end as u32,
        headers,
        body,
    };
    Ok(req)
}

/// Flattens the response head and body framing of `recv` into table spans,
/// given whether the request method was `HEAD` (the body's JSON claim is
/// left opaque).
pub fn response_spans(recv: &[u8], request_method_is_head: bool) -> (r: Result<
    ResponseSpans,
    HostError,
>)
    requires
        recv@.len() <= MAX_BUF_LEN,
    ensures
        r matches Ok(resp) ==> {
            &&& crate::validate::http::spec_response_head(recv@, resp) matches Some(h)
            &&& crate::validate::spec_response_framing(
                request_method_is_head,
                h.status,
                h.info,
                recv@.len() > h.head_end,
            ) matches Some(f)
            &&& crate::validate::spec_body(recv@, h.head_end as int, f, resp.body) is Some
            &&& (resp.body matches Some(b) ==> b.json is None)
        },
        (exists|s: ResponseSpans| #[trigger] response_described(recv@, request_method_is_head, s)) ==> r is Ok,
{
    let buf = recv;
    let ghost fits = exists|s: ResponseSpans| #[trigger] response_described(recv@, request_method_is_head, s);
    let ghost w = choose|s: ResponseSpans| #[trigger] response_described(recv@, request_method_is_head, s);
    proof {
        if fits {
            assert(response_described(recv@, request_method_is_head, w));
        }
    }
    let version: [u8; 9] = [0x48, 0x54, 0x54, 0x50, 0x2f, 0x31, 0x2e, 0x31, 0x20];
    assert(version@ =~= crate::validate::http::status_version_lit());
    match expect_lit(buf, 0, version.as_slice(), "expected `HTTP/1.1 `") {
        Ok(_) => {},
        Err(_) => {
            return Err(unsupported("status line", "expected `HTTP/1.1 `"));
        },
    }
    if buf.len() < 12 {
        return Err(unsupported("status line", "truncated status line"));
    }
    if !(0x31 <= buf[9] && buf[9] <= 0x35) || !(0x30 <= buf[10] && buf[10] <= 0x39) || !(0x30
        <= buf[11] && buf[11] <= 0x39) {
        return Err(unsupported("status line", "status code must be 3 digits with the first in 1-5"));
    }
    let status: u16 = (buf[9] - 0x30) as u16 * 100 + (buf[10] - 0x30) as u16 * 10 + (buf[11]
        - 0x30) as u16;
    let (reason_start, reason_end) = if 12 < buf.len() && buf[12] == 0x20 {
        (13, scan_value(buf, 13))
    } else {
        (12, 12)
    };
    let crlf: [u8; 2] = [0x0D, 0x0A];
    assert(crlf@ =~= seq![0x0Du8, 0x0Au8]);
    let hs = match expect_lit(buf, reason_end, crlf.as_slice(), "expected CRLF after status line") {
        Ok(e) => e,
        Err(_) => {
            return Err(unsupported("status line", "expected CRLF after status line"));
        },
    };
    proof {
        if fits {
            assert(section_end(buf@, hs as int, w.headers@) is Some && w.headers@.len() <= MAX_HEADER_LINES);
            assert(section_fits(buf@, hs as int));
        }
    }
    let (headers, head_end) = scan_header_records(buf, hs)?;
    proof {
        if fits {
            crate::validate::laws::lemma_section_unique(buf@, hs as int, headers@, w.headers@);
        }
    }
    let (_, info) = match walk_header_lines(buf, hs, headers.as_slice()) {
        Ok(x) => x,
        Err(e) => {
            return Err(head_error(&e));
        },
    };
    proof {
        crate::validate::http::lemma_section_end_bounds(buf@, hs as int, headers@);
    }
    let framing = match derive_response_framing(
        request_method_is_head,
        status,
        &info,
        buf.len() > head_end,
    ) {
        Ok(f) => f,
        Err(e) => {
            return Err(framing_error(&e));
        },
    };
    proof {
        if fits {
            assert(crate::validate::spec_body(buf@, head_end as int, framing, w.body) is Some);
            assert(body_fits(buf@, head_end as int, framing));
        }
    }
    let body = build_body(buf, head_end, framing)?;
    let resp = ResponseSpans {
        code: Span::new(9, 12),
        reason: Span::new(reason_start as u32, reason_end as u32),
        head_end: head_end as u32,
        headers,
        body,
    };
    Ok(resp)
}

/// The index of the first record whose raw name bytes equal `name` ASCII
/// case-insensitively.
pub open spec fn first_raw_named(buf: Seq<u8>, headers: Seq<HeaderSpan>, name: Seq<u8>, from: int) -> Option<int>
    decreases headers.len() - from,
{
    if from < 0 || from >= headers.len() {
        None
    } else if ascii_ci_eq(span_view(buf, headers[from].name), name) {
        Some(from)
    } else {
        first_raw_named(buf, headers, name, from + 1)
    }
}

/// Returns the value bytes of the first header named `name` (ASCII
/// case-insensitive), or `None`.
pub fn first_header_value<'b>(buf: &'b [u8], headers: &[HeaderSpan], name: &[u8]) -> (r: Option<
    &'b [u8],
>)
    ensures
        match first_raw_named(buf@, headers@, name@, 0) {
            Some(i) => r matches Some(v) && v@ == span_view(buf@, headers@[i].value),
            None => r is None,
        },
{
    let mut i: usize = 0;
    while i < headers.len()
        invariant
            0 <= i <= headers@.len(),
            first_raw_named(buf@, headers@, name@, 0) == first_raw_named(buf@, headers@, name@, i as int),
        decreases headers@.len() - i,
    {
        let h = headers[i];
        if crate::validate::http::ascii_eq_ignore_case(slice_span(buf, h.name), name) {
            return Some(slice_span(buf, h.value));
        }
        i += 1;
    }
    None
}

/// `application/json`.
pub open spec fn media_json() -> Seq<u8> {
    seq![
        0x61u8, 0x70, 0x70, 0x6c, 0x69, 0x63, 0x61, 0x74, 0x69, 0x6f, 0x6e, 0x2f, 0x6a, 0x73,
        0x6f, 0x6e,
    ]
}

/// The index of the first `;` in `v`, or its length.
pub open spec fn param_start(v: Seq<u8>, i: int) -> int
    decreases v.len() - i,
{
    if i < 0 || i >= v.len() {
        v.len() as int
    } else if v[i] == 0x3B {
        i
    } else {
        param_start(v, i + 1)
    }
}

/// The media type of a `Content-Type` value is `application/json`: the
/// part before any `;` parameter, with trailing OWS removed, equals it ASCII
/// case-insensitively.
pub open spec fn spec_is_json_media_type(v: Seq<u8>) -> bool {
    let e = crate::validate::http::trim_ows_end(v, 0, param_start(v, 0));
    ascii_ci_eq(v.subrange(0, e), media_json())
}

/// Appending parameters after `v` does not move where they start: at the
/// first `;` of `v`, or else at the end of `v`.
proof fn lemma_param_start_append(v: Seq<u8>, p: Seq<u8>, i: int)
    requires
        0 <= i <= v.len(),
        p.len() > 0,
        p[0] == 0x3B,
    ensures
        param_start(v + p, i) == param_start(v, i),
    decreases v.len() - i,
{
    if i < v.len() {
        assert((v + p)[i] == v[i]);
        lemma_param_start_append(v, p, i + 1);
    } else {
        assert((v + p)[i] == p[0]);
    }
}

/// `param_start` lies within the value.
proof fn lemma_param_start_bound(v: Seq<u8>, i: int)
    requires
        0 <= i <= v.len(),
    ensures
        i <= param_start(v, i) <= v.len(),
    decreases v.len() - i,
{
    if i < v.len() && v[i] != 0x3B {
        lemma_param_start_bound(v, i + 1);
    }
}

/// Trimming OWS from the end of `[0, hi)` reads only those bytes, and
/// stops within them.
proof fn lemma_trim_reads_prefix(v: Seq<u8>, w: Seq<u8>, hi: int)
    requires
        0 <= hi <= v.len(),
        hi <= w.len(),
        forall|i: int| 0 <= i < hi ==> v[i] == w[i],
    ensures
        crate::validate::http::trim_ows_end(v, 0, hi) == crate::validate::http::trim_ows_end(w, 0, hi),
        0 <= crate::validate::http::trim_ows_end(v, 0, hi) <= hi,
    decreases hi,
{
    if hi > 0 {
        lemma_trim_reads_prefix(v, w, hi - 1);
    }
}

/// Parameters do not change the media type: a `Content-Type` value with
/// parameters (anything from a `;` on) appended names `application/json`
/// exactly when the value alone does.
pub proof fn law_media_type_ignores_parameters(v: Seq<u8>, p: Seq<u8>)
    requires
        p.len() > 0,
        p[0] == 0x3B,
    ensures
        spec_is_json_media_type(v + p) == spec_is_json_media_type(v),
{
    let w = v + p;
    lemma_param_start_append(v, p, 0);
    lemma_param_start_bound(v, 0);
    let ps = param_start(v, 0);
    assert forall|i: int| 0 <= i < ps implies v[i] == w[i] by {}
    lemma_trim_reads_prefix(v, w, ps);
    let e = crate::validate::http::trim_ows_end(v, 0, ps);
    assert(w.subrange(0, e) =~= v.subrange(0, e));
}

/// `application/json` is a JSON media type, with or without parameters
/// after it (such as `; charset=utf-8`).
pub proof fn law_json_media_type(p: Seq<u8>)
    requires
        p.len() == 0 || p[0] == 0x3B,
    ensures
        spec_is_json_media_type(media_json() + p),
{
    let m = media_json();
    assert(param_start(m, 0) == 16) by {
        reveal_with_fuel(param_start, 18);
    }
    assert(crate::validate::http::trim_ows_end(m, 0, 16) == 16);
    assert(m.subrange(0, 16) =~= m);
    if p.len() == 0 {
        assert(m + p =~= m);
    } else {
        law_media_type_ignores_parameters(m, p);
    }
}

/// Trimming OWS from the end of `[0, hi)` passes over OWS bytes that end
/// it.
proof fn lemma_trim_over_ows(w: Seq<u8>, lo: int, hi: int)
    requires
        0 <= lo <= hi <= w.len(),
        forall|i: int| lo <= i < hi ==> crate::validate::http::spec_ows(#[trigger] w[i]),
    ensures
        crate::validate::http::trim_ows_end(w, 0, hi) == crate::validate::http::trim_ows_end(w, 0, lo),
    decreases hi - lo,
{
    if hi > lo {
        lemma_trim_over_ows(w, lo, hi - 1);
    }
}

/// Whitespace between the media type and its parameters does not change
/// it: `v` followed by OWS, then by nothing or by parameters, names
/// `application/json` exactly when `v` does.
pub proof fn law_media_type_ignores_trailing_ows(v: Seq<u8>, o: Seq<u8>, p: Seq<u8>)
    requires
        forall|i: int| 0 <= i < o.len() ==> crate::validate::http::spec_ows(#[trigger] o[i]),
        p.len() == 0 || p[0] == 0x3B,
    ensures
        spec_is_json_media_type(v + o + p) == spec_is_json_media_type(v),
{
    let w = v + o + p;
    let n = v.len() as int;
    lemma_param_start_bound(v, 0);
    let ps = param_start(v, 0);
    if ps < n {
        // `v` holds a `;`: both values stop at it
        lemma_param_start_prefix_semi(v, w, 0);
    } else {
        lemma_param_start_past_ows(v, o, p, 0);
        assert forall|i: int| n <= i < n + o.len() implies crate::validate::http::spec_ows(#[trigger] w[i]) by {
            assert(w[i] == o[i - n]);
        }
        lemma_trim_over_ows(w, n, n + o.len());
    }
    assert forall|i: int| 0 <= i < ps implies v[i] == w[i] by {}
    lemma_trim_reads_prefix(v, w, ps);
    let e = crate::validate::http::trim_ows_end(v, 0, ps);
    assert(w.subrange(0, e) =~= v.subrange(0, e));
}

/// Where `v` holds a `;`, any value that starts with `v` stops at the same
/// one.
proof fn lemma_param_start_prefix_semi(v: Seq<u8>, w: Seq<u8>, i: int)
    requires
        0 <= i <= param_start(v, i) < v.len(),
        v.len() <= w.len(),
        forall|k: int| 0 <= k < v.len() ==> v[k] == w[k],
    ensures
        param_start(w, i) == param_start(v, i),
    decreases v.len() - i,
{
    if v[i] != 0x3B {
        lemma_param_start_bound(v, i + 1);
        lemma_param_start_prefix_semi(v, w, i + 1);
    }
}

/// Where `v` holds no `;`, the value `v`, OWS, parameters stops at the
/// parameters (or its end).
proof fn lemma_param_start_past_ows(v: Seq<u8>, o: Seq<u8>, p: Seq<u8>, i: int)
    requires
        0 <= i <= v.len() + o.len(),
        param_start(v, 0) == v.len(),
        forall|k: int| 0 <= k < o.len() ==> crate::validate::http::spec_ows(#[trigger] o[k]),
        p.len() == 0 || p[0] == 0x3B,
        i <= v.len() ==> param_start(v, i) == v.len(),
    ensures
        param_start(v + o + p, i) == v.len() + o.len(),
    decreases v.len() + o.len() - i,
{
    let w = v + o + p;
    if i < v.len() {
        assert(w[i] == v[i]);
        assert(v[i] != 0x3B);
        lemma_param_start_past_ows(v, o, p, i + 1);
    } else if i < v.len() + o.len() {
        assert(w[i] == o[i - v.len()]);
        lemma_param_start_past_ows(v, o, p, i + 1);
    } else if p.len() > 0 {
        assert(w[i] == p[0]);
    }
}

/// The two values agree byte for byte up to ASCII letter case.
pub open spec fn same_but_case(v: Seq<u8>, w: Seq<u8>) -> bool {
    v.len() == w.len() && forall|i: int| 0 <= i < v.len() ==> #[trigger] lower(v[i]) == lower(w[i])
}

/// Letter case in a `Content-Type` value does not matter: two values that
/// agree up to ASCII case both name `application/json` or both do not.
pub proof fn law_media_type_ignores_case(v: Seq<u8>, w: Seq<u8>)
    requires
        same_but_case(v, w),
    ensures
        spec_is_json_media_type(v) == spec_is_json_media_type(w),
{
    assert forall|i: int| 0 <= i < v.len() implies (v[i] == 0x3B <==> w[i] == 0x3B) && (
    crate::validate::http::spec_ows(v[i]) <==> crate::validate::http::spec_ows(w[i])) by {
        assert(lower(v[i]) == lower(w[i]));
    }
    lemma_param_start_case(v, w, 0);
    lemma_param_start_bound(v, 0);
    let ps = param_start(v, 0);
    lemma_trim_case(v, w, ps);
    let e = crate::validate::http::trim_ows_end(v, 0, ps);
    lemma_trim_reads_prefix(v, v, ps);
    let (a, b) = (v.subrange(0, e), w.subrange(0, e));
    assert forall|i: int| 0 <= i < a.len() implies #[trigger] lower(a[i]) == lower(b[i]) by {
        assert(lower(v[i]) == lower(w[i]));
    }
    if ascii_ci_eq(a, media_json()) {
        assert forall|i: int| 0 <= i < b.len() implies #[trigger] lower(b[i]) == lower(media_json()[i]) by {
            assert(lower(a[i]) == lower(media_json()[i]));
        }
    }
    if ascii_ci_eq(b, media_json()) {
        assert forall|i: int| 0 <= i < a.len() implies #[trigger] lower(a[i]) == lower(media_json()[i]) by {
            assert(lower(b[i]) == lower(media_json()[i]));
        }
    }
}

/// Values that agree up to case have their parameters at the same place.
proof fn lemma_param_start_case(v: Seq<u8>, w: Seq<u8>, i: int)
    requires
        v.len() == w.len(),
        0 <= i <= v.len(),
        forall|k: int| 0 <= k < v.len() ==> (v[k] == 0x3B <==> w[k] == 0x3B),
    ensures
        param_start(v, i) == param_start(w, i),
    decreases v.len() - i,
{
    if i < v.len() && v[i] != 0x3B {
        lemma_param_start_case(v, w, i + 1);
    }
}

/// Values with OWS at the same places are trimmed to the same end.
proof fn lemma_trim_case(v: Seq<u8>, w: Seq<u8>, hi: int)
    requires
        v.len() == w.len(),
        0 <= hi <= v.len(),
        forall|k: int|
            0 <= k < v.len() ==> (crate::validate::http::spec_ows(v[k]) <==> crate::validate::http::spec_ows(
                w[k],
            )),
    ensures
        crate::validate::http::trim_ows_end(v, 0, hi) == crate::validate::http::trim_ows_end(w, 0, hi),
    decreases hi,
{
    if hi > 0 {
        lemma_trim_case(v, w, hi - 1);
    }
}

/// Returns whether a `Content-Type` value names the `application/json`
/// media type (parameters such as `charset` allowed).
pub fn is_json_media_type(value: &[u8]) -> (r: bool)
    ensures
        r == spec_is_json_media_type(value@),
{
    let mut i: usize = 0;
    while i < value.len() && value[i] != 0x3B
        invariant
            0 <= i <= value@.len(),
            param_start(value@, 0) == param_start(value@, i as int),
        decreases value@.len() - i,
    {
        i += 1;
    }
    let mut e = i;
    while e > 0 && crate::validate::http::is_ows(value[e - 1])
        invariant
            0 <= e <= i <= value@.len(),
            crate::validate::http::trim_ows_end(value@, 0, e as int) == crate::validate::http::trim_ows_end(value@, 0, i as int),
        decreases e,
    {
        e -= 1;
    }
    let lit: [u8; 16] = [
        0x61, 0x70, 0x70, 0x6c, 0x69, 0x63, 0x61, 0x74, 0x69, 0x6f, 0x6e, 0x2f, 0x6a, 0x73, 0x6f,
        0x6e,
    ];
    assert(lit@ =~= media_json());
    crate::validate::http::ascii_eq_ignore_case(&value[0..e], lit.as_slice())
}

} // verus!
