use transcript_verify::{
    parse_transcript, validate, Framing, HeaderSpan, HostError, Span, SpanTable, FORMAT_VERSION,
};
use transcript_verify::transcript::{Header, HeadersWithName};

/// Drains a named-header iterator.
fn all_named<'t>(mut it: HeadersWithName<'t, '_>) -> Vec<Header<'t>> {
    let mut v = Vec::new();
    while let Some(h) = it.next() {
        v.push(h);
    }
    v
}



/// A minimal valid bodiless response for request-focused tests.
const RECV_204: &[u8] = b"HTTP/1.1 204 No Content\r\n\r\n";
/// A minimal valid request for response-focused tests.
const SENT_GET: &[u8] = b"GET /r HTTP/1.1\r\nHost: t\r\n\r\n";

fn unsupported_feature(err: HostError) -> &'static str {
    match err {
        HostError::Unsupported { feature, .. } => feature,
        other => panic!("expected Unsupported, got {other:?}"),
    }
}

// === crafted transcripts: framings and shapes the corpus lacks ===

#[test]
fn close_delimited_response_via_fallback() {
    let recv =
        b"HTTP/1.1 200 OK\r\nContent-Type: text/plain\r\nConnection: close\r\n\r\nstream until close";
    // ...so an Ok here proves the host's own walk produced the table.
    let table = parse_transcript(SENT_GET, recv).unwrap();
    let head_end = recv.windows(4).position(|w| w == b"\r\n\r\n").unwrap() + 4;
    let body = table.response.body.as_ref().unwrap();
    assert_eq!(body.framing, Framing::Close);
    assert_eq!(body.raw, Span::new(head_end as u32, recv.len() as u32));
    assert_eq!(body.content_len, 18);
    let t = validate(SENT_GET, recv, &table).unwrap();
    let vb = t.response().body().unwrap();
    assert_eq!(vb.content(), b"stream until close");
    assert!(vb.json().is_none());
}

#[test]
fn close_delimited_with_no_reason_and_binary_tail() {
    // Close-delimited, reason-less status line, no Content-Type,
    // non-UTF-8 body bytes.
    let recv = b"HTTP/1.1 200\r\n\r\nraw close-delimited bytes \xC3\xA9\xFF";
    let table = parse_transcript(SENT_GET, recv).unwrap();
    assert_eq!(table.response.reason, Span::new(12, 12));
    let body = table.response.body.as_ref().unwrap();
    assert_eq!(body.framing, Framing::Close);
    // No Content-Type at all: no JSON claim.
    assert!(body.json.is_none());
    let t = validate(SENT_GET, recv, &table).unwrap();
    assert!(
        t.response()
            .body()
            .unwrap()
            .content()
            .ends_with(b"\xC3\xA9\xFF")
    );
}

#[test]
fn head_with_content_length_and_zero_body() {
    let sent = b"HEAD /h HTTP/1.1\r\nHost: t\r\n\r\n";
    let recv = b"HTTP/1.1 200 OK\r\nContent-Length: 5\r\nContent-Type: text/plain\r\n\r\n";
    // Only the request context (HEAD) says the response has no body.
    let table = parse_transcript(sent, recv).unwrap();
    assert!(table.response.body.is_none());
    assert_eq!(table.response.head_end as usize, recv.len());
    let t = validate(sent, recv, &table).unwrap();
    assert_eq!(t.response().header("Content-Length").unwrap().value(), b"5");
}

#[test]
fn chunked_response_with_trailers() {
    let recv =
        b"HTTP/1.1 200 OK\r\nContent-Type: text/plain\r\nTransfer-Encoding: chunked\r\n\r\n\
                 5\r\nhello\r\n3\r\nfoo\r\n0\r\nX-Checksum: abc\r\nX-After: ok\r\n\r\n";
    let table = parse_transcript(SENT_GET, recv).unwrap();
    let body = table.response.body.as_ref().unwrap();
    assert_eq!(body.framing, Framing::Chunked);
    assert_eq!(body.content_len, 8);
    assert_eq!(body.trailers.len(), 2);
    let t = validate(SENT_GET, recv, &table).unwrap();
    let vb = t.response().body().unwrap();
    assert_eq!(vb.content(), b"hellofoo");
    assert_eq!(vb.trailer("x-checksum").unwrap().value(), b"abc");
    assert_eq!(vb.trailer("X-After").unwrap().value(), b"ok");
    // Trailers are a separate namespace, never returned as headers.
    assert!(t.response().header("X-Checksum").is_none());
}

#[test]
fn chunked_request_body_text_plain() {
    let sent = b"POST /c HTTP/1.1\r\nHost: t\r\nContent-Type: text/plain\r\nTransfer-Encoding: chunked\r\n\r\n\
                 3\r\nabc\r\n1\r\nd\r\n0\r\n\r\n";
    let table = parse_transcript(sent, RECV_204).unwrap();
    let body = table.request.body.as_ref().unwrap();
    assert_eq!(body.framing, Framing::Chunked);
    assert_eq!(body.content_len, 4);
    assert!(body.json.is_none());
    let t = validate(sent, RECV_204, &table).unwrap();
    assert_eq!(t.request().body().unwrap().content(), b"abcd");
}

#[test]
fn form_urlencoded_request_body() {
    let sent = b"POST /f HTTP/1.1\r\nHost: t\r\n\
                 Content-Type: application/x-www-form-urlencoded\r\nContent-Length: 7\r\n\r\na=1&b=2";
    // `X-Pad: v \r\n` doubles as a trailing-OWS-trim canary for the
    let recv =
        b"HTTP/1.1 200 OK\r\nContent-Type: text/plain\r\nContent-Length: 2\r\nX-Pad: v \r\n\r\nok";
    let table = parse_transcript(sent, recv).unwrap();
    let body = table.request.body.as_ref().unwrap();
    assert_eq!(body.framing, Framing::ContentLength);
    assert_eq!(body.content_len, 7);
    assert!(body.json.is_none(), "form body is opaque");
    let t = validate(sent, recv, &table).unwrap();
    assert_eq!(t.request().body().unwrap().content(), b"a=1&b=2");
    assert_eq!(t.response().body().unwrap().content(), b"ok");
    assert_eq!(t.response().header("X-Pad").unwrap().value(), b"v");
}

#[test]
fn empty_header_values_pinned_at_cr() {
    //           0123456789012345678 9 0123 4 5678901 2 3...
    let sent = b"GET /e HTTP/1.1\r\nX-E:\r\nX-F: \r\nHost: t\r\n\r\n";
    let recv = b"HTTP/1.1 204 No Content\r\nX-G:\t\r\n\r\n";
    // An Ok means the validator agreed with every pin (self-check).
    let table = parse_transcript(sent, recv).unwrap();
    // `X-E:` — CR at 21; `X-F: ` — CR at 28, pinned past the OWS.
    assert_eq!(table.request.headers[0].value, Span::new(21, 21));
    assert_eq!(table.request.headers[1].value, Span::new(28, 28));
    // `X-G:<TAB>` — CR at 30.
    assert_eq!(table.response.headers[0].value, Span::new(30, 30));
    let t = validate(sent, recv, &table).unwrap();
    assert_eq!(t.request().header("X-E").unwrap().value(), b"");
    assert_eq!(t.request().header("x-f").unwrap().value(), b"");
    assert_eq!(t.response().header("X-G").unwrap().value(), b"");
}

#[test]
fn obs_text_header_value_crafted() {
    let recv = b"HTTP/1.1 200 OK\r\nX-Obs: caf\xC3\xA9 \xFF\r\nContent-Length: 2\r\nContent-Type: text/plain\r\n\r\nok";
    let table = parse_transcript(SENT_GET, recv).unwrap();
    let t = validate(SENT_GET, recv, &table).unwrap();
    let header = t.response().header("x-obs").unwrap();
    assert_eq!(header.value(), b"caf\xC3\xA9 \xFF");
    // 0xFF alone is not UTF-8; the raw bytes are still exposed.
    assert!(header.value_str().is_none());
}

#[test]
fn duplicate_set_cookie_headers() {
    let recv = b"HTTP/1.1 200 OK\r\nSet-Cookie: a=1\r\nSet-Cookie: b=2\r\n\
                 Content-Length: 2\r\nContent-Type: text/plain\r\n\r\nok";
    let table = parse_transcript(SENT_GET, recv).unwrap();
    let t = validate(SENT_GET, recv, &table).unwrap();
    // First match wins; duplicates remain iterable.
    assert_eq!(t.response().header("set-cookie").unwrap().value(), b"a=1");
    let values: Vec<_> = all_named(t.response().headers_with_name("SET-COOKIE"))
        .into_iter()
        .map(|h| h.value())
        .collect();
    assert_eq!(values, [b"a=1", b"b=2"]);
}

#[test]
fn json_content_type_without_body_is_never_attempted() {
    // A JSON Content-Type on a bodiless message: no body, no claim.
    let sent = b"GET /j HTTP/1.1\r\nHost: t\r\nContent-Type: application/json\r\n\r\n";
    let recv = b"HTTP/1.1 204 No Content\r\nContent-Type: application/json\r\n\r\n";
    let table = parse_transcript(sent, recv).unwrap();
    assert!(table.request.body.is_none());
    assert!(table.response.body.is_none());
}

#[test]
fn json_lookalike_media_type_is_not_attempted() {
    // Valid JSON bytes under a lookalike media type stay opaque.
    let recv =
        b"HTTP/1.1 200 OK\r\nContent-Type: application/jsonp\r\nContent-Length: 2\r\n\r\n{}";
    let table = parse_transcript(SENT_GET, recv).unwrap();
    let body = table.response.body.as_ref().unwrap();
    assert!(body.json.is_none());
}

// === negatives: lax inputs the host must reject up front ===

#[test]
fn rejects_plus_sign_content_length_in_request() {
    let sent = b"POST /p HTTP/1.1\r\nHost: t\r\nContent-Length: +5\r\n\r\nhello";
    // ...the host's strict walk must not.
    let err = parse_transcript(sent, RECV_204).unwrap_err();
    assert_eq!(unsupported_feature(err), "Content-Length");
}

#[test]
fn rejects_plus_sign_content_length_in_response() {
    let recv = b"HTTP/1.1 200 OK\r\nContent-Length: +2\r\n\r\nok";
    let err = parse_transcript(SENT_GET, recv).unwrap_err();
    assert_eq!(unsupported_feature(err), "Content-Length");
}

#[test]
fn rejects_content_length_with_transfer_encoding() {
    // Valid chunked bytes, but the framing derivation rejects a
    // Content-Length beside Transfer-Encoding (rule C1).
    let sent = b"POST /p HTTP/1.1\r\nHost: t\r\nContent-Length: 5\r\n\
                 Transfer-Encoding: chunked\r\n\r\n5\r\nhello\r\n0\r\n\r\n";
    let err = parse_transcript(sent, RECV_204).unwrap_err();
    let HostError::Unsupported { feature, detail } = err else {
        panic!("expected Unsupported");
    };
    assert_eq!(feature, "framing");
    assert!(
        detail.contains("Content-Length and Transfer-Encoding"),
        "{detail}"
    );
}

#[test]
fn rejects_duplicate_content_length() {
    let recv = b"HTTP/1.1 200 OK\r\nContent-Length: 2\r\nCONTENT-LENGTH: 2\r\n\r\nok";
    let err = parse_transcript(SENT_GET, recv).unwrap_err();
    assert_eq!(unsupported_feature(err), "framing");
}

#[test]
fn rejects_trailing_garbage_after_content_length_body() {
    let sent = b"POST /p HTTP/1.1\r\nHost: t\r\nContent-Length: 5\r\n\r\nhelloGARBAGE";
    let err = parse_transcript(sent, RECV_204).unwrap_err();
    assert_eq!(unsupported_feature(err), "message framing");
    // Truncated bodies are equally rejected (response side).
    let recv = b"HTTP/1.1 200 OK\r\nContent-Length: 5\r\n\r\nab";
    let err = parse_transcript(SENT_GET, recv).unwrap_err();
    assert_eq!(unsupported_feature(err), "message framing");
}

#[test]
fn rejects_head_response_with_body_bytes() {
    let sent = b"HEAD /h HTTP/1.1\r\nHost: t\r\n\r\n";
    let recv = b"HTTP/1.1 200 OK\r\nContent-Length: 5\r\n\r\nhello";
    let err = parse_transcript(sent, recv).unwrap_err();
    assert_eq!(unsupported_feature(err), "message framing");
}

#[test]
fn rejects_trailing_bytes_after_chunked_message() {
    let recv = b"HTTP/1.1 200 OK\r\nTransfer-Encoding: chunked\r\n\
                 Content-Type: text/plain\r\n\r\n2\r\nok\r\n0\r\n\r\nEXTRA";
    let err = parse_transcript(SENT_GET, recv).unwrap_err();
    assert_eq!(unsupported_feature(err), "message framing");
}

#[test]
fn rejects_restricted_trailer_name() {
    let recv = b"HTTP/1.1 200 OK\r\nTransfer-Encoding: chunked\r\n\
                 Content-Type: text/plain\r\n\r\n2\r\nok\r\n0\r\nContent-Length: 2\r\n\r\n";
    let err = parse_transcript(SENT_GET, recv).unwrap_err();
    assert_eq!(unsupported_feature(err), "chunked trailers");
}

#[test]
fn rejects_ows_chunk_size_spansy_accepts() {
    let sent = b"POST /c HTTP/1.1\r\nHost: t\r\nTransfer-Encoding: chunked\r\n\
                 Content-Type: text/plain\r\n\r\n 3\r\nabc\r\n0\r\n\r\n";
    let err = parse_transcript(sent, RECV_204).unwrap_err();
    assert_eq!(unsupported_feature(err), "http grammar");
}

#[test]
fn rejects_http_1_0_either_side() {
    let sent = b"GET /a HTTP/1.0\r\nHost: t\r\n\r\n";
    let err = parse_transcript(sent, RECV_204).unwrap_err();
    assert_eq!(unsupported_feature(err), "http version");

    let recv = b"HTTP/1.0 204 No Content\r\n\r\n";
    let err = parse_transcript(SENT_GET, recv).unwrap_err();
    assert_eq!(unsupported_feature(err), "status line");
}

#[test]
fn rejects_bad_status_codes() {
    for recv in [
        &b"HTTP/1.1 600 Oops\r\n\r\n"[..],
        &b"HTTP/1.1 999 X\r\n\r\n"[..],
    ] {
        let err = parse_transcript(SENT_GET, recv).unwrap_err();
        assert_eq!(unsupported_feature(err), "status line");
    }
}

#[test]
fn rejects_header_injection_bytes_in_response() {
    // Bare LF terminating a header line.
    let recv = b"HTTP/1.1 204 No Content\r\nX: a\n\r\n";
    let err = parse_transcript(SENT_GET, recv).unwrap_err();
    assert_eq!(unsupported_feature(err), "http grammar");
    // NUL inside a header value.
    let recv = b"HTTP/1.1 204 No Content\r\nX: a\0b\r\n\r\n";
    let err = parse_transcript(SENT_GET, recv).unwrap_err();
    assert_eq!(unsupported_feature(err), "http grammar");
    // Obs-fold continuation line.
    let recv = b"HTTP/1.1 204 No Content\r\nX: a\r\n b\r\n\r\n";
    let err = parse_transcript(SENT_GET, recv).unwrap_err();
    assert_eq!(unsupported_feature(err), "http grammar");
}

#[test]
fn rejects_more_than_128_response_headers() {
    let mut recv = Vec::from(&b"HTTP/1.1 204 No Content\r\n"[..]);
    for _ in 0..129 {
        recv.extend_from_slice(b"A: b\r\n");
    }
    recv.extend_from_slice(b"\r\n");
    let err = parse_transcript(SENT_GET, &recv).unwrap_err();
    assert_eq!(unsupported_feature(err), "http head");
}

#[test]
fn rejects_unsupported_transfer_coding() {
    let recv = b"HTTP/1.1 200 OK\r\nTransfer-Encoding: gzip\r\n\r\nxx";
    let err = parse_transcript(SENT_GET, recv).unwrap_err();
    let HostError::Unsupported { feature, detail } = err else {
        panic!("expected Unsupported");
    };
    assert_eq!(feature, "framing");
    assert!(detail.contains("unsupported transfer coding"), "{detail}");
}


#[test]
fn table_spans_pin_request_line() {
    let table = parse_transcript(SENT_GET, RECV_204).unwrap();
    assert_eq!(table.version, FORMAT_VERSION);
    assert_eq!(table.request.method, Span::new(0, 3));
    assert_eq!(table.request.target, Span::new(4, 6));
    assert_eq!(table.request.head_end as usize, SENT_GET.len());
    assert_eq!(table.request.headers.len(), 1);
    assert_eq!(table.response.code, Span::new(9, 12));
    assert!(table.request.body.is_none());
    assert!(table.response.body.is_none());
}

#[test]
fn spansy_error_propagates_for_unparseable_request() {
    // A truncated request head is a hard error of the host parser, not a
    // fallback.
    let err = parse_transcript(b"GET /a HTTP/1.1\r\nHost: t\r\n", RECV_204).unwrap_err();
    match err {
        HostError::Unsupported { feature, detail } => {
            assert_eq!((feature, detail.as_str()), ("http head", "truncated head"));
        }
        other => panic!("expected Unsupported, got {other:?}"),
    }
}
