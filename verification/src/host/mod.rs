//! Host-side span-table production.
//!
//! Derives the table from the bytes with the validator's own grammar
//! (header lines, chunk walk, framing derivation), emits JSON node tables
//! for JSON bodies, and self-checks every table with the validator before
//! returning it: host-accepted tables are validator-accepted.
use vstd::prelude::*;

pub mod http;
pub mod json;

use crate::error::{HostError, unsupported};
use crate::spans::{BodySpans, FORMAT_VERSION, Framing, HeaderSpan, JsonSpans, RequestSpans, ResponseSpans, SpanTable};
use crate::transcript::{slice_span, span_view};
use crate::validate::http::{chunk_walk, walk_chunks};
use crate::validate::json::{json_parse, json_table_sane};
use crate::validate::{body_json_ok, spec_body, validate, validates, DerivedFraming, MAX_BUF_LEN};

verus! {

/// `content-type`.
pub open spec fn name_content_type() -> Seq<u8> {
    seq![0x63u8, 0x6f, 0x6e, 0x74, 0x65, 0x6e, 0x74, 0x2d, 0x74, 0x79, 0x70, 0x65]
}

/// The decoded content of a body record in `buf`.
pub open spec fn record_content(buf: Seq<u8>, b: BodySpans) -> Seq<u8> {
    if b.framing == Framing::Chunked {
        match chunk_walk(buf, b.raw.start as int, 0) {
            Some((d, _, _)) => d,
            None => Seq::empty(),
        }
    } else {
        span_view(buf, b.raw)
    }
}

/// The message's first `Content-Type` header names the `application/json`
/// media type.
pub open spec fn claims_json_media(buf: Seq<u8>, headers: Seq<HeaderSpan>) -> bool {
    match http::first_raw_named(buf, headers, name_content_type(), 0) {
        Some(i) => http::spec_is_json_media_type(span_view(buf, headers[i].value)),
        None => false,
    }
}

/// A chunked body record starts where the chunk walk succeeds.
pub open spec fn rewalk_ok(buf: Seq<u8>, body: Option<BodySpans>) -> bool {
    match body {
        Some(b) => b.framing == Framing::Chunked ==> chunk_walk(buf, b.raw.start as int, 0) is Some,
        None => true,
    }
}

/// The host claims JSON for body `b` exactly when the message's first
/// `Content-Type` names `application/json` and the decoded content (at most
/// 2^30 bytes) parses as JSON.
pub open spec fn json_claimed(buf: Seq<u8>, headers: Seq<HeaderSpan>, b: BodySpans) -> bool {
    &&& claims_json_media(buf, headers)
    &&& record_content(buf, b).len() <= json::MAX_CONTENT_LEN
    &&& json_parse(record_content(buf, b)) is Some
}

/// Patches the JSON claim into `body`: the claim is made only when the
/// first `Content-Type` header (case-insensitive) has the
/// `application/json` media type and the decoded body passes the JSON
/// rules; otherwise the body stays opaque. Bodiless messages are never
/// attempted.
pub fn attach_json_claim(buf: &[u8], headers: &[HeaderSpan], body: &mut Option<BodySpans>) -> (r:
    Result<(), HostError>)
    requires
        *old(body) matches Some(b) ==> b.json is None,
    ensures
        (*final(body) is Some) <==> (*old(body) is Some),
        rewalk_ok(buf@, *old(body)) ==> r is Ok,
        r is Ok ==> (*final(body) matches Some(b) ==> (b.json is Some <==> json_claimed(buf@, headers@, b))),
        *final(body) matches Some(b) ==> {
            let o = (*old(body))->0;
            &&& b.framing == o.framing
            &&& b.raw == o.raw
            &&& b.content_len == o.content_len
            &&& b.trailers == o.trailers
            &&& (b.json matches Some(j) ==> claims_json_media(buf@, headers@) && json_table_sane(
                record_content(buf@, b),
                j.nodes@,
            ) && json_parse(record_content(buf@, b)) == Some(j.nodes@))
        },
{
    if body.is_none() {
        return Ok(());
    }
    let mut b = body.take().unwrap();
    let ct_name: [u8; 12] = [0x63, 0x6f, 0x6e, 0x74, 0x65, 0x6e, 0x74, 0x2d, 0x74, 0x79, 0x70, 0x65];
    assert(ct_name@ =~= name_content_type());
    let content_type = match http::first_header_value(buf, headers, ct_name.as_slice()) {
        Some(v) => v,
        None => {
            *body = Some(b);
            return Ok(());
        },
    };
    if !http::is_json_media_type(content_type) {
        *body = Some(b);
        return Ok(());
    }
    let emitted = match b.framing {
        Framing::Chunked => {
            let outcome = match walk_chunks(buf, b.raw.start as usize, b.content_len as usize) {
                Ok(o) => o,
                Err(_) => {
                    *body = Some(b);
                    return Err(HostError::Internal {
                        reason: "chunk re-walk failed after a successful body build",
                        source: None,
                    });
                },
            };
            json::emit(outcome.decoded.as_slice())
        },
        _ => json::emit(slice_span(buf, b.raw)),
    };
    if let Ok(nodes) = emitted {
        b.json = Some(JsonSpans { nodes });
    }
    *body = Some(b);
    Ok(())
}

/// A body record's JSON claim does not change the body section it
/// describes.
proof fn lemma_claim_keeps_body(
    buf: Seq<u8>,
    he: int,
    f: DerivedFraming,
    b0: Option<BodySpans>,
    b1: Option<BodySpans>,
)
    requires
        (b1 is Some) <==> (b0 is Some),
        b1 matches Some(x) ==> x.framing == b0->0.framing && x.raw == b0->0.raw && x.content_len
            == b0->0.content_len && x.trailers == b0->0.trailers,
    ensures
        spec_body(buf, he, f, b1) == spec_body(buf, he, f, b0),
{
}

/// A claim that is the parse of the decoded content is sane for the body
/// section the record describes.
proof fn lemma_claim_json_ok(buf: Seq<u8>, he: int, f: DerivedFraming, b: Option<BodySpans>)
    requires
        spec_body(buf, he, f, b) is Some,
        b matches Some(x) ==> (x.json matches Some(j) ==> json_table_sane(record_content(buf, x), j.nodes@)
            && json_parse(record_content(buf, x)) == Some(j.nodes@)),
    ensures
        body_json_ok(spec_body(buf, he, f, b), b),
{
    if spec_body(buf, he, f, b) matches Some(Some(c)) {
        let x = b->0;
        if x.framing != Framing::Chunked {
            assert(record_content(buf, x) == buf.subrange(he, buf.len() as int));
        }
    }
}

/// Parses a transcript into a [`SpanTable`] ready for validation.
///
/// `sent` must hold exactly one HTTP/1.1 request and `recv` exactly one
/// HTTP/1.1 response. JSON node spans are emitted for a body iff its first
/// `Content-Type` media type is `application/json` and the decoded body
/// passes the JSON rules; otherwise the body is claimed opaque. The
/// returned table has passed a self-check run of the validator; transcripts
/// the validator would reject are reported as `Unsupported`.
pub fn parse_transcript(sent: &[u8], recv: &[u8]) -> (r: Result<SpanTable, HostError>)
    ensures
        r matches Ok(table) ==> validates(sent@, recv@, table),
        r matches Ok(table) ==> (table.request.body matches Some(b) ==> (b.json is Some <==> json_claimed(
            sent@,
            table.request.headers@,
            b,
        ))),
        r matches Ok(table) ==> (table.response.body matches Some(b) ==> (b.json is Some <==> json_claimed(
            recv@,
            table.response.headers@,
            b,
        ))),
        (exists|t: SpanTable| validates(sent@, recv@, t)) ==> r is Ok,
        (sent@.len() > MAX_BUF_LEN || recv@.len() > MAX_BUF_LEN) ==> (r matches Err(
            HostError::Unsupported { feature, detail },
        ) && feature@ == "buffer size"@ && detail@ == "buffers are limited to 2^30 bytes"@),
{
    let ghost fits = exists|t: SpanTable| validates(sent@, recv@, t);
    let ghost w = choose|t: SpanTable| validates(sent@, recv@, t);
    if sent.len() > MAX_BUF_LEN || recv.len() > MAX_BUF_LEN {
        return Err(unsupported("buffer size", "buffers are limited to 2^30 bytes"));
    }
    proof {
        if fits {
            assert(validates(sent@, recv@, w));
            assert(http::request_described(sent@, w.request));
        }
    }
    let req_all = http::request_spans(sent)?;
    let ghost rq = req_all;
    let RequestSpans { method, target, head_end: req_head_end, headers: req_headers, body: req_body } =
        req_all;
    let ghost rh = crate::validate::http::spec_request_head(sent@, rq)->0;
    let ghost rf = crate::validate::spec_request_framing(rh.info)->0;
    let head_lit: [u8; 4] = [0x48, 0x45, 0x41, 0x44];
    let method_is_head = crate::transcript::bytes_eq(slice_span(sent, method), head_lit.as_slice());
    proof {
        assert(head_lit@ =~= crate::validate::http::method_head());
        assert(method_is_head == rh.method_is_head);
        if fits {
            assert(http::response_described(recv@, method_is_head, w.response));
        }
    }
    let resp_all = http::response_spans(recv, method_is_head)?;
    let ghost rs = resp_all;
    let ResponseSpans { code, reason, head_end: resp_head_end, headers: resp_headers, body: resp_body } =
        resp_all;
    let ghost sh = crate::validate::http::spec_response_head(recv@, rs)->0;
    let ghost sf = crate::validate::spec_response_framing(
        method_is_head,
        sh.status,
        sh.info,
        recv@.len() > sh.head_end,
    )->0;
    let mut req_body = req_body;
    let mut resp_body = resp_body;
    proof {
        assert(rewalk_ok(sent@, req_body));
        assert(rewalk_ok(recv@, resp_body));
    }
    attach_json_claim(sent, req_headers.as_slice(), &mut req_body)?;
    attach_json_claim(recv, resp_headers.as_slice(), &mut resp_body)?;
    let table = SpanTable {
        version: FORMAT_VERSION,
        request: RequestSpans { method, target, head_end: req_head_end, headers: req_headers, body: req_body },
        response: ResponseSpans { code, reason, head_end: resp_head_end, headers: resp_headers, body: resp_body },
    };
    proof {
        lemma_claim_keeps_body(sent@, rh.head_end as int, rf, rq.body, table.request.body);
        lemma_claim_keeps_body(recv@, sh.head_end as int, sf, rs.body, table.response.body);
        assert(crate::validate::http::spec_request_head(sent@, table.request) == Some(rh));
        assert(crate::validate::http::spec_response_head(recv@, table.response) == Some(sh));
        lemma_claim_json_ok(sent@, rh.head_end as int, rf, table.request.body);
        lemma_claim_json_ok(recv@, sh.head_end as int, sf, table.response.body);
        assert(validates(sent@, recv@, table));
    }
    match validate(sent, recv, &table) {
        Ok(_) => {},
        Err(source) => {
            return Err(HostError::Internal {
                reason: "emitted span table failed the validator self-check",
                source: Some(source),
            });
        },
    }
    Ok(table)
}

} // verus!
