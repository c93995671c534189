//! Transcript validation: the in-VM entry point.
//!
//! [`validate`] performs a single forward pass over each buffer: table
//! well-formedness checks, the head walks, framing derivation, the body walk
//! with de-chunking, and lockstep JSON checking.
use vstd::prelude::*;

pub mod http;
pub mod json;
pub mod json_laws;
pub mod json_read;
pub mod laws;
pub mod message_laws;

use crate::error::Error;
use crate::spans::{BodySpans, FORMAT_VERSION, Framing, JsonNode, SpanTable};
use crate::transcript::{body_data_view, BodyData, ChunkMapEntry, Transcript, ValidatedBody};
use crate::validate::http::{
    chunk_walk, chunk_walk_error, no_restricted_trailers, request_head_error, response_head_error,
    section_end, span_error, spec_request_head, spec_response_head, trailer_error, MAX_HEADER_LINES,
};
use crate::validate::json::{json_parse, json_table_sane};

verus! {

/// Maximum buffer (and decoded-body) length: 2^30 bytes.
pub const MAX_BUF_LEN: usize = 0x4000_0000;

/// Message framing derived from verified head facts.
#[derive(Debug, Clone, Copy, PartialEq, Eq, Hash, Structural)]
pub enum DerivedFraming {
    /// The message has no body section.
    NoBody,
    /// The body is exactly this many bytes starting at `head_end`
    /// (at most 2^30).
    ContentLength(u32),
    /// The body is chunked, starting at `head_end`.
    Chunked,
    /// The body extends from `head_end` to the end of the buffer.
    Close,
}

/// Framing-relevant facts collected from a verified head.
#[derive(Debug, Clone, Copy, PartialEq, Eq, Structural)]
pub struct ParsedHeadInfo {
    /// The strictly parsed value of the last `Content-Length` header.
    pub content_length: Option<u64>,
    /// A `Transfer-Encoding` header was present.
    pub te_present: bool,
    /// The last `Transfer-Encoding` value was exactly `chunked` (ASCII
    /// case-insensitive).
    pub te_chunked: bool,
    /// More than one `Content-Length` header line was present.
    pub dup_content_length: bool,
    /// More than one `Transfer-Encoding` header line was present.
    pub dup_transfer_encoding: bool,
    /// More than one `Host` header line was present.
    pub dup_host: bool,
}

/// The facts of a head with no framing-relevant headers.
pub open spec fn empty_head_info() -> ParsedHeadInfo {
    ParsedHeadInfo {
        content_length: None,
        te_present: false,
        te_chunked: false,
        dup_content_length: false,
        dup_transfer_encoding: false,
        dup_host: false,
    }
}

impl Default for ParsedHeadInfo {
    fn default() -> (r: Self)
        ensures
            r == empty_head_info(),
    {
        ParsedHeadInfo {
            content_length: None,
            te_present: false,
            te_chunked: false,
            dup_content_length: false,
            dup_transfer_encoding: false,
            dup_host: false,
        }
    }
}

/// The head facts are free of framing toxins: no duplicate
/// `Content-Length`/`Transfer-Encoding`/`Host`, not both CL and TE, and any
/// transfer coding is exactly `chunked`.
pub open spec fn head_facts_ok(h: ParsedHeadInfo) -> bool {
    &&& !h.dup_content_length
    &&& !h.dup_transfer_encoding
    &&& !h.dup_host
    &&& !(h.content_length is Some && h.te_present)
    &&& !(h.te_present && !h.te_chunked)
}

/// The framing a verified `Content-Length` value yields, if it fits the
/// coordinate space.
pub open spec fn spec_cl_framing(n: u64) -> Option<DerivedFraming> {
    if n > MAX_BUF_LEN {
        None
    } else {
        Some(DerivedFraming::ContentLength(n as u32))
    }
}

/// The request framing the head facts yield (`None` when they are
/// rejected).
pub open spec fn spec_request_framing(h: ParsedHeadInfo) -> Option<DerivedFraming> {
    if !head_facts_ok(h) {
        None
    } else if h.te_chunked {
        Some(DerivedFraming::Chunked)
    } else if h.content_length is Some {
        spec_cl_framing(h.content_length->0)
    } else {
        Some(DerivedFraming::NoBody)
    }
}

/// The response statuses that never carry a body: 1xx, 204 and 304.
pub open spec fn bodiless_status(status: u16) -> bool {
    (100 <= status <= 199) || status == 204 || status == 304
}

/// The response framing the head facts and request context yield (`None`
/// when they are rejected).
pub open spec fn spec_response_framing(
    method_is_head: bool,
    status: u16,
    h: ParsedHeadInfo,
    bytes_remain: bool,
) -> Option<DerivedFraming> {
    if !head_facts_ok(h) {
        None
    } else if method_is_head || bodiless_status(status) {
        Some(DerivedFraming::NoBody)
    } else if h.te_chunked {
        Some(DerivedFraming::Chunked)
    } else if h.content_length is Some {
        spec_cl_framing(h.content_length->0)
    } else if bytes_remain {
        Some(DerivedFraming::Close)
    } else {
        Some(DerivedFraming::NoBody)
    }
}

/// The error for head facts that are not free of framing toxins: the first
/// of the duplicate flags, the CL+TE exclusion and the transfer coding that
/// fails.
pub open spec fn head_facts_error(h: ParsedHeadInfo) -> Error {
    if h.dup_content_length {
        Error::Framing { reason: "duplicate Content-Length header" }
    } else if h.dup_transfer_encoding {
        Error::Framing { reason: "duplicate Transfer-Encoding header" }
    } else if h.dup_host {
        Error::Framing { reason: "duplicate Host header" }
    } else if h.content_length is Some && h.te_present {
        Error::Framing { reason: "Content-Length and Transfer-Encoding both present" }
    } else {
        Error::Framing { reason: "unsupported transfer coding" }
    }
}

/// The error when a `Content-Length` value exceeds the coordinate cap.
pub open spec fn cl_error() -> Error {
    Error::Framing { reason: "Content-Length exceeds 2^30" }
}

/// The error when the framing cannot be derived from the head facts.
pub open spec fn framing_error_of(h: ParsedHeadInfo) -> Error {
    if !head_facts_ok(h) {
        head_facts_error(h)
    } else {
        cl_error()
    }
}

/// Checks the duplicate flags, the CL+TE exclusion and the supported
/// transfer coding, in that order.
pub fn check_head_facts(headers: &ParsedHeadInfo) -> (r: Result<(), Error>)
    ensures
        r is Ok <==> head_facts_ok(*headers),
        r matches Err(e) ==> e == head_facts_error(*headers),
{
    if headers.dup_content_length {
        return Err(Error::Framing { reason: "duplicate Content-Length header" });
    }
    if headers.dup_transfer_encoding {
        return Err(Error::Framing { reason: "duplicate Transfer-Encoding header" });
    }
    if headers.dup_host {
        return Err(Error::Framing { reason: "duplicate Host header" });
    }
    if headers.content_length.is_some() && headers.te_present {
        return Err(Error::Framing { reason: "Content-Length and Transfer-Encoding both present" });
    }
    if headers.te_present && !headers.te_chunked {
        return Err(Error::Framing { reason: "unsupported transfer coding" });
    }
    Ok(())
}

/// Maps a verified `Content-Length` value to a framing, enforcing the 2^30
/// coordinate cap.
pub fn content_length_framing(n: u64) -> (r: Result<DerivedFraming, Error>)
    ensures
        match spec_cl_framing(n) {
            Some(f) => r == Ok::<DerivedFraming, Error>(f),
            None => r == Err::<DerivedFraming, Error>(cl_error()),
        },
{
    if n > MAX_BUF_LEN as u64 {
        return Err(Error::Framing { reason: "Content-Length exceeds 2^30" });
    }
    Ok(DerivedFraming::ContentLength(n as u32))
}

/// Derives the request body framing from verified head facts.
///
/// Duplicates, CL+TE and unsupported codings are rejected; then chunked,
/// then `Content-Length`; requests are never close-delimited.
pub fn derive_request_framing(headers: &ParsedHeadInfo) -> (r: Result<DerivedFraming, Error>)
    ensures
        match spec_request_framing(*headers) {
            Some(f) => r == Ok::<DerivedFraming, Error>(f),
            None => r == Err::<DerivedFraming, Error>(framing_error_of(*headers)),
        },
{
    check_head_facts(headers)?;
    if headers.te_chunked {
        return Ok(DerivedFraming::Chunked);
    }
    if let Some(n) = headers.content_length {
        return content_length_framing(n);
    }
    Ok(DerivedFraming::NoBody)
}

/// Derives the response body framing from verified head facts plus request
/// context.
///
/// After the head-fact checks: HEAD requests and 1xx/204/304 statuses mean
/// no body; then chunked; then `Content-Length`; otherwise the body is
/// close-delimited if bytes remain.
pub fn derive_response_framing(
    request_method_is_head: bool,
    status: u16,
    headers: &ParsedHeadInfo,
    bytes_remain: bool,
) -> (r: Result<DerivedFraming, Error>)
    ensures
        match spec_response_framing(request_method_is_head, status, *headers, bytes_remain) {
            Some(f) => r == Ok::<DerivedFraming, Error>(f),
            None => r == Err::<DerivedFraming, Error>(framing_error_of(*headers)),
        },
{
    check_head_facts(headers)?;
    if request_method_is_head || (100 <= status && status <= 199) || status == 204 || status
        == 304 {
        return Ok(DerivedFraming::NoBody);
    }
    if headers.te_chunked {
        return Ok(DerivedFraming::Chunked);
    }
    if let Some(n) = headers.content_length {
        return content_length_framing(n);
    }
    Ok(
        if bytes_remain {
            DerivedFraming::Close
        } else {
            DerivedFraming::NoBody
        },
    )
}


// === body checks ===

/// `Content-Length: 0` yields no body section at all.
pub open spec fn norm_framing(d: DerivedFraming) -> DerivedFraming {
    if d == DerivedFraming::ContentLength(0) {
        DerivedFraming::NoBody
    } else {
        d
    }
}

/// The table's framing tag agrees with the derived framing.
pub open spec fn tag_matches(d: DerivedFraming, f: Framing) -> bool {
    match d {
        DerivedFraming::ContentLength(_) => f == Framing::ContentLength,
        DerivedFraming::Chunked => f == Framing::Chunked,
        DerivedFraming::Close => f == Framing::Close,
        DerivedFraming::NoBody => false,
    }
}

/// The body section the record must describe, given the verified head end
/// and derived framing: `None` when the record (or the bytes) are rejected,
/// `Some(None)` for a message without body, and otherwise the decoded
/// content with its chunk map. The JSON claim is checked separately.
pub open spec fn spec_body(
    buf: Seq<u8>,
    head_end: int,
    derived: DerivedFraming,
    record: Option<BodySpans>,
) -> Option<Option<(Seq<u8>, Seq<ChunkMapEntry>)>> {
    let d = norm_framing(derived);
    if d == DerivedFraming::NoBody {
        if record is Some || head_end != buf.len() {
            None
        } else {
            Some(None)
        }
    } else {
        match record {
            None => None,
            Some(b) => {
                if !tag_matches(d, b.framing) {
                    None
                } else if b.framing == Framing::Chunked {
                    match chunk_walk(buf, head_end, 0) {
                        None => None,
                        Some((dec, map, ts)) => {
                            let end = section_end(buf, ts, b.trailers@);
                            if end is Some && b.trailers@.len() <= MAX_HEADER_LINES
                                && no_restricted_trailers(buf, b.trailers@) && end->0 == buf.len()
                                && b.raw.start <= b.raw.end <= buf.len() && b.raw.start == head_end
                                && b.raw.end == end->0 && b.content_len == dec.len() {
                                Some(Some((dec, map)))
                            } else {
                                None
                            }
                        },
                    }
                } else {
                    let cl_ok = match d {
                        DerivedFraming::ContentLength(n) => head_end + n == buf.len(),
                        _ => true,
                    };
                    if cl_ok && b.raw.start <= b.raw.end <= buf.len() && b.raw.start == head_end
                        && b.raw.end == buf.len() && b.content_len == buf.len() - head_end
                        && b.trailers@.len() == 0 {
                        Some(Some((buf.subrange(head_end, buf.len() as int), Seq::empty())))
                    } else {
                        None
                    }
                }
            },
        }
    }
}

/// What validation guarantees of a claimed JSON body: its node table is
/// sane for the content (see [`json_table_sane`]) and is the content's
/// parse (see [`json_parse`]).
pub open spec fn json_claim_ok(content: Seq<u8>, record: BodySpans) -> bool {
    record.json matches Some(j) ==> json_table_sane(content, j.nodes@) && json_parse(content)
        == Some(j.nodes@)
}

/// Runs the lockstep JSON check if the body claims JSON.
pub fn check_json_claim(content: &[u8], body: &BodySpans) -> (r: Result<(), Error>)
    ensures
        r is Ok ==> json_claim_ok(content@, *body),
        content@.len() <= u32::MAX && json_claim_ok(content@, *body) ==> r is Ok,
        r matches Err(e) ==> e is Json || e is Table,
{
    if let Some(json) = &body.json {
        if json.nodes.len() > content.len() {
            return Err(Error::Table { reason: "more JSON nodes than body bytes" });
        }
        match json::validate_json(content, json.nodes.as_slice()) {
            Ok(()) => {},
            Err(e) => {
                return Err(e);
            },
        }
    }
    Ok(())
}

/// The validated body matches the decoded content and chunk map.
pub open spec fn body_matches(vb: ValidatedBody, c: (Seq<u8>, Seq<ChunkMapEntry>)) -> bool {
    body_data_view(vb.data) == c.0 && vb.chunk_map@ == c.1
}

/// Finishes validation of a contiguous (`ContentLength`/`Close`) body
/// spanning `head_end..buf.len()`.
pub fn finish_contiguous_body<'a>(buf: &'a [u8], head_end: usize, body: &BodySpans) -> (r: Result<
    Option<ValidatedBody<'a>>,
    Error,
>)
    requires
        head_end <= buf@.len(),
    ensures
        ({
            let shape_ok = body.raw.start <= body.raw.end <= buf@.len() && body.raw.start == head_end
                && body.raw.end == buf@.len() && body.content_len == buf@.len() - head_end
                && body.trailers@.len() == 0;
            let json_ok = json_claim_ok(buf@.subrange(head_end as int, buf@.len() as int), *body);
            &&& r is Ok ==> shape_ok && json_ok
            &&& shape_ok && json_ok && buf@.len() <= u32::MAX ==> r is Ok
        }),
        r matches Ok(v) ==> v matches Some(vb) && body_matches(
            vb,
            (buf@.subrange(head_end as int, buf@.len() as int), Seq::empty()),
        ),
        contiguous_record_error(buf@, head_end as int, *body) matches Some(e) ==> r == Err::<
            Option<ValidatedBody>,
            Error,
        >(e),
{
    match http::check_span(body.raw, buf.len(), "body.raw") {
        Ok(()) => {},
        Err(e) => {
            return Err(e);
        },
    }
    if body.raw.start as usize != head_end || body.raw.end as usize != buf.len() {
        return Err(Error::Framing { reason: "body raw span mismatch" });
    }
    let content = &buf[head_end..buf.len()];
    if body.content_len as usize != content.len() {
        return Err(Error::Framing { reason: "content_len mismatch" });
    }
    if body.trailers.len() != 0 {
        return Err(Error::Table { reason: "trailers on a non-chunked body" });
    }
    check_json_claim(content, body)?;
    let empty: Vec<ChunkMapEntry> = Vec::new();
    Ok(Some(ValidatedBody { data: BodyData::Borrowed(content), chunk_map: empty }))
}

/// The error owed for the record of a contiguous body spanning
/// `head_end..buf.len()`, where the record does not describe it: a raw span
/// out of bounds or elsewhere, another content length, trailers.
pub open spec fn contiguous_record_error(buf: Seq<u8>, head_end: int, b: BodySpans) -> Option<Error> {
    if span_error(b.raw, buf.len() as int, "body.raw") is Some {
        span_error(b.raw, buf.len() as int, "body.raw")
    } else if b.raw.start != head_end || b.raw.end != buf.len() {
        Some(Error::Framing { reason: "body raw span mismatch" })
    } else if b.content_len != buf.len() - head_end {
        Some(Error::Framing { reason: "content_len mismatch" })
    } else if b.trailers@.len() != 0 {
        Some(Error::Table { reason: "trailers on a non-chunked body" })
    } else {
        None
    }
}

/// The error owed for the record of a chunked body whose chunks decode to
/// `dlen` bytes with the trailer section at `ts`, where the record does not
/// describe it: trailers that do not match, bytes after the message, a raw
/// span out of bounds or elsewhere, another content length.
pub open spec fn chunked_record_error(buf: Seq<u8>, head_end: int, b: BodySpans, dlen: int, ts: int) -> Option<
    Error,
> {
    let tl = b.trailers@;
    let end = section_end(buf, ts, tl);
    if !(end is Some && tl.len() <= MAX_HEADER_LINES && no_restricted_trailers(buf, tl)) {
        Some(
            if tl.len() > MAX_HEADER_LINES {
                Error::Table { reason: "more than 128 trailer records" }
            } else {
                trailer_error(buf, ts, tl, 0)
            },
        )
    } else if end->0 != buf.len() {
        Some(Error::Http { at: (end->0) as u32, reason: "bytes remain after chunked message" })
    } else if span_error(b.raw, buf.len() as int, "body.raw") is Some {
        span_error(b.raw, buf.len() as int, "body.raw")
    } else if b.raw.start != head_end || b.raw.end != end->0 {
        Some(Error::Framing { reason: "body raw span mismatch" })
    } else if b.content_len != dlen {
        Some(Error::Framing { reason: "content_len mismatch" })
    } else {
        None
    }
}

/// The error owed for a body record that contradicts the derived framing
/// or the body bytes, where it is one of these: a record for a message
/// without body, bytes after a message without body, no record for a body,
/// another framing tag, a `Content-Length` body not ending at the end of the
/// buffer, a chunked body whose chunks do not parse, a record that does not
/// describe the body's shape (its JSON claim aside).
pub open spec fn body_error(
    buf: Seq<u8>,
    head_end: int,
    derived: DerivedFraming,
    record: Option<BodySpans>,
) -> Option<Error> {
    let d = norm_framing(derived);
    if d == DerivedFraming::NoBody {
        if record is Some {
            Some(Error::Framing { reason: "body record present but derived framing yields no body" })
        } else if head_end != buf.len() {
            Some(Error::Http { at: head_end as u32, reason: "bytes remain after message without body" })
        } else {
            None
        }
    } else {
        match record {
            None => Some(Error::Framing { reason: "missing body record for derived framing" }),
            Some(b) => {
                if !tag_matches(d, b.framing) {
                    Some(Error::Framing { reason: "framing tag mismatch" })
                } else if d matches DerivedFraming::ContentLength(len) && head_end + len != buf.len() {
                    Some(Error::Framing { reason: "Content-Length body must end exactly at end of buffer" })
                } else if b.framing == Framing::Chunked {
                    match chunk_walk(buf, head_end, 0) {
                        None => Some(chunk_walk_error(buf, head_end, 0)),
                        Some((dec, map, ts)) => chunked_record_error(buf, head_end, b, dec.len() as int, ts),
                    }
                } else {
                    contiguous_record_error(buf, head_end, b)
                }
            },
        }
    }
}

/// Checks a message's body record against the derived framing and walks
/// the body bytes; `None` when the message has no body.
pub fn check_body<'a>(
    buf: &'a [u8],
    head_end: usize,
    derived: DerivedFraming,
    record: Option<&BodySpans>,
) -> (r: Result<Option<ValidatedBody<'a>>, Error>)
    requires
        head_end <= buf@.len() <= MAX_BUF_LEN,
        derived matches DerivedFraming::ContentLength(n) ==> n <= MAX_BUF_LEN,
    ensures
        ({
            let rec = match record {
                Some(b) => Some(*b),
                None => None::<BodySpans>,
            };
            let sb = spec_body(buf@, head_end as int, derived, rec);
            &&& sb is None ==> r is Err
            &&& r is Ok ==> sb is Some
            &&& (sb matches Some(b) && (b matches Some(c) ==> json_claim_ok(c.0, rec->0))) ==> r is Ok
            &&& r matches Ok(v) ==> match sb->0 {
                None => v is None,
                Some(c) => v matches Some(vb) && body_matches(vb, c) && json_claim_ok(c.0, rec->0),
            }
            &&& body_error(buf@, head_end as int, derived, rec) matches Some(e) ==> r == Err::<
                Option<ValidatedBody>,
                Error,
            >(e)
        }),
{
    let derived = match derived {
        DerivedFraming::ContentLength(0) => DerivedFraming::NoBody,
        other => other,
    };
    if derived == DerivedFraming::NoBody {
        if record.is_some() {
            return Err(Error::Framing { reason: "body record present but derived framing yields no body" });
        }
        if head_end != buf.len() {
            return Err(Error::Http { at: head_end as u32, reason: "bytes remain after message without body" });
        }
        return Ok(None);
    }
    let body = match record {
        Some(b) => b,
        None => {
            return Err(Error::Framing { reason: "missing body record for derived framing" });
        },
    };
    let tag_ok = match (derived, body.framing) {
        (DerivedFraming::ContentLength(_), Framing::ContentLength) => true,
        (DerivedFraming::Chunked, Framing::Chunked) => true,
        (DerivedFraming::Close, Framing::Close) => true,
        _ => false,
    };
    if !tag_ok {
        return Err(Error::Framing { reason: "framing tag mismatch" });
    }
    match body.framing {
        Framing::ContentLength | Framing::Close => {
            if let DerivedFraming::ContentLength(len) = derived {
                if head_end + len as usize != buf.len() {
                    return Err(Error::Framing { reason: "Content-Length body must end exactly at end of buffer" });
                }
            }
            finish_contiguous_body(buf, head_end, body)
        },
        Framing::Chunked => {
            let remaining = buf.len() - head_end;
            let hint = if (body.content_len as usize) < remaining {
                body.content_len as usize
            } else {
                remaining
            };
            let outcome = match http::walk_chunks(buf, head_end, hint) {
                Ok(o) => o,
                Err(e) => {
                    return Err(e);
                },
            };
            let end = match http::walk_trailers(buf, outcome.trailer_start, body.trailers.as_slice()) {
                Ok(e) => e,
                Err(e) => {
                    return Err(e);
                },
            };
            if end != buf.len() {
                return Err(Error::Http { at: end as u32, reason: "bytes remain after chunked message" });
            }
            match http::check_span(body.raw, buf.len(), "body.raw") {
                Ok(()) => {},
                Err(e) => {
                    return Err(e);
                },
            }
            if body.raw.start as usize != head_end || body.raw.end as usize != end {
                return Err(Error::Framing { reason: "body raw span mismatch" });
            }
            if body.content_len as usize != outcome.decoded.len() {
                return Err(Error::Framing { reason: "content_len mismatch" });
            }
            check_json_claim(outcome.decoded.as_slice(), body)?;
            let ChunkWalkOutcomeParts { decoded, chunk_map } = split_outcome(outcome);
            Ok(Some(ValidatedBody { data: BodyData::Decoded(decoded), chunk_map }))
        },
    }
}

/// The owned parts of a chunk walk that a validated body keeps.
pub struct ChunkWalkOutcomeParts {
    /// The de-chunked body bytes.
    pub decoded: Vec<u8>,
    /// The decoded-to-source chunk map.
    pub chunk_map: Vec<ChunkMapEntry>,
}

/// Moves the decoded bytes and chunk map out of a chunk walk.
pub fn split_outcome(o: http::ChunkWalkOutcome) -> (r: ChunkWalkOutcomeParts)
    ensures
        r.decoded@ == o.decoded@,
        r.chunk_map@ == o.chunk_map@,
{
    ChunkWalkOutcomeParts { decoded: o.decoded, chunk_map: o.chunk_map }
}

// === the entry point ===

/// The request body `table` describes in `sent` (see [`spec_body`]).
pub open spec fn spec_request_body(sent: Seq<u8>, table: SpanTable) -> Option<
    Option<(Seq<u8>, Seq<ChunkMapEntry>)>,
> {
    match spec_request_head(sent, table.request) {
        None => None,
        Some(h) => match spec_request_framing(h.info) {
            None => None,
            Some(f) => spec_body(sent, h.head_end as int, f, table.request.body),
        },
    }
}

/// The request side validates: head, framing, body and JSON claim.
pub open spec fn request_body_passes(sent: Seq<u8>, table: SpanTable) -> bool {
    spec_request_body(sent, table) matches Some(b) && (b matches Some(c) ==> json_claim_ok(
        c.0,
        table.request.body->0,
    ))
}

/// The error owed for a transcript that `table` does not describe, where
/// it is one of these, in the order of the walk: an unsupported version, a
/// buffer over 2^30 bytes, a request head that does not match, request
/// framing that cannot be derived, a request body record rejected as
/// [`body_error`] says; then, once the request side validates, the same for
/// the response.
pub open spec fn transcript_error(sent: Seq<u8>, recv: Seq<u8>, table: SpanTable) -> Option<Error> {
    if table.version != FORMAT_VERSION {
        Some(Error::Version { expected: FORMAT_VERSION, found: table.version })
    } else if sent.len() > MAX_BUF_LEN {
        Some(Error::TooLarge { len: sent.len() as usize })
    } else if recv.len() > MAX_BUF_LEN {
        Some(Error::TooLarge { len: recv.len() as usize })
    } else {
        match spec_request_head(sent, table.request) {
            None => Some(request_head_error(sent, table.request)),
            Some(rq) => match spec_request_framing(rq.info) {
                None => Some(framing_error_of(rq.info)),
                Some(f) => {
                    if body_error(sent, rq.head_end as int, f, table.request.body) is Some {
                        body_error(sent, rq.head_end as int, f, table.request.body)
                    } else if !request_body_passes(sent, table) {
                        None
                    } else {
                        match spec_response_head(recv, table.response) {
                            None => Some(response_head_error(recv, table.response)),
                            Some(rs) => match spec_response_framing(
                                rq.method_is_head,
                                rs.status,
                                rs.info,
                                recv.len() > rs.head_end,
                            ) {
                                None => Some(framing_error_of(rs.info)),
                                Some(g) => body_error(recv, rs.head_end as int, g, table.response.body),
                            },
                        }
                    }
                },
            },
        }
    }
}

/// The response body `table` describes in `recv`, given the request.
pub open spec fn spec_response_body(sent: Seq<u8>, recv: Seq<u8>, table: SpanTable) -> Option<
    Option<(Seq<u8>, Seq<ChunkMapEntry>)>,
> {
    match (spec_request_head(sent, table.request), spec_response_head(recv, table.response)) {
        (Some(rq), Some(rs)) => match spec_response_framing(
            rq.method_is_head,
            rs.status,
            rs.info,
            recv.len() > rs.head_end,
        ) {
            None => None,
            Some(f) => spec_body(recv, rs.head_end as int, f, table.response.body),
        },
        _ => None,
    }
}

/// `table` is the HTTP parse of the transcript: supported version, buffers
/// within 2^30 bytes, both heads exactly described, framings derivable, and
/// both body records exactly describing the body sections.
pub open spec fn transcript_structure_ok(sent: Seq<u8>, recv: Seq<u8>, table: SpanTable) -> bool {
    &&& table.version == FORMAT_VERSION
    &&& sent.len() <= MAX_BUF_LEN
    &&& recv.len() <= MAX_BUF_LEN
    &&& spec_request_body(sent, table) is Some
    &&& spec_response_body(sent, recv, table) is Some
}

/// The JSON claim of a body (if any) is sane for its decoded content.
pub open spec fn body_json_ok(b: Option<Option<(Seq<u8>, Seq<ChunkMapEntry>)>>, rec: Option<BodySpans>) -> bool {
    b matches Some(Some(c)) ==> json_claim_ok(c.0, rec->0)
}

/// What a table that `validate` accepts satisfies: it is the HTTP parse of
/// the bytes and each JSON claim is the parse of its body.
pub open spec fn validates(sent: Seq<u8>, recv: Seq<u8>, t: SpanTable) -> bool {
    &&& transcript_structure_ok(sent, recv, t)
    &&& body_json_ok(spec_request_body(sent, t), t.request.body)
    &&& body_json_ok(spec_response_body(sent, recv, t), t.response.body)
}

/// The validated body corresponds to the described body section.
pub open spec fn body_corresponds(v: Option<ValidatedBody>, b: Option<Option<(Seq<u8>, Seq<ChunkMapEntry>)>>) -> bool {
    match b {
        Some(Some(c)) => v matches Some(vb) && body_matches(vb, c),
        _ => v is None,
    }
}

/// Validates `table` against the transcript bytes and returns a zero-copy
/// accessor over them.
///
/// Succeeds only if `table` is the parse of `sent` (one HTTP/1.1 request)
/// and `recv` (one HTTP/1.1 response): every span is re-derived from the
/// bytes in one linear walk and equality-checked.
pub fn validate<'a>(sent: &'a [u8], recv: &'a [u8], table: &'a SpanTable) -> (r: Result<
    Transcript<'a>,
    Error,
>)
    ensures
        r is Ok <==> validates(sent@, recv@, *table),
        table.version != FORMAT_VERSION ==> (r matches Err(e) && e == (Error::Version {
            expected: FORMAT_VERSION,
            found: table.version,
        })),
        table.version == FORMAT_VERSION && sent@.len() > MAX_BUF_LEN ==> (r matches Err(e) && e
            == (Error::TooLarge { len: sent@.len() as usize })),
        table.version == FORMAT_VERSION && sent@.len() <= MAX_BUF_LEN && recv@.len() > MAX_BUF_LEN
            ==> (r matches Err(e) && e == (Error::TooLarge { len: recv@.len() as usize })),
        transcript_error(sent@, recv@, *table) matches Some(e) ==> r == Err::<Transcript, Error>(e),
        r matches Ok(t) ==> recv@.len() >= 12 && t.status_view() == (recv@[9] - 0x30) * 100 + (recv@[10]
            - 0x30) * 10 + (recv@[11] - 0x30),
        r matches Ok(t) ==> {
            &&& t.sent_view() == sent@
            &&& t.recv_view() == recv@
            &&& t.table_view() == *table
            &&& t.status_view() == spec_response_head(recv@, table.response)->0.status
            &&& body_corresponds(t.req_body_view(), spec_request_body(sent@, *table))
            &&& body_corresponds(t.resp_body_view(), spec_response_body(sent@, recv@, *table))
        },
{
    if table.version != FORMAT_VERSION {
        return Err(Error::Version { expected: FORMAT_VERSION, found: table.version });
    }
    if sent.len() > MAX_BUF_LEN {
        return Err(Error::TooLarge { len: sent.len() });
    }
    if recv.len() > MAX_BUF_LEN {
        return Err(Error::TooLarge { len: recv.len() });
    }
    let req_head = match http::walk_request_head(sent, &table.request) {
        Ok(h) => h,
        Err(e) => {
            return Err(e);
        },
    };
    proof {
        http::lemma_request_head_bounds(sent@, table.request);
    }
    let req_framing = match derive_request_framing(&req_head.info) {
        Ok(f) => f,
        Err(e) => {
            return Err(e);
        },
    };
    let req_body = match check_body(sent, req_head.head_end, req_framing, table.request.body.as_ref()) {
        Ok(b) => b,
        Err(e) => {
            return Err(e);
        },
    };
    let resp_head = match http::walk_response_head(recv, &table.response) {
        Ok(h) => h,
        Err(e) => {
            return Err(e);
        },
    };
    proof {
        http::lemma_response_head_bounds(recv@, table.response);
    }
    let resp_framing = match derive_response_framing(
        req_head.method_is_head,
        resp_head.status,
        &resp_head.info,
        recv.len() > resp_head.head_end,
    ) {
        Ok(f) => f,
        Err(e) => {
            return Err(e);
        },
    };
    let resp_body = match check_body(recv, resp_head.head_end, resp_framing, table.response.body.as_ref()) {
        Ok(b) => b,
        Err(e) => {
            return Err(e);
        },
    };
    Ok(Transcript::new(sent, recv, table, resp_head.status, req_body, resp_body))
}

} // verus!
