use std::ops::Range;

use transcript_verify::spans::{
    BodySpans, FORMAT_VERSION, Framing, HeaderSpan, JsonKind, JsonNode, JsonSpans, RequestSpans,
    ResponseSpans, Span, SpanTable,
};
use transcript_verify::transcript::{
    Body, BodyData, ChunkMapEntry, Header, Headers, HeadersWithName, JsonArrayIter, JsonKey,
    JsonObjectIter, JsonValue, Transcript, ValidatedBody,
};

/// Drains a header iterator.
fn all_headers<'t>(mut it: Headers<'t>) -> Vec<Header<'t>> {
    let mut v = Vec::new();
    while let Some(h) = it.next() {
        v.push(h);
    }
    v
}

/// Drains a named-header iterator.
fn all_named<'t>(mut it: HeadersWithName<'t, '_>) -> Vec<Header<'t>> {
    let mut v = Vec::new();
    while let Some(h) = it.next() {
        v.push(h);
    }
    v
}

/// Drains an array iterator.
fn all_elements<'t>(mut it: JsonArrayIter<'t>) -> Vec<JsonValue<'t>> {
    let mut v = Vec::new();
    while let Some(x) = it.next() {
        v.push(x);
    }
    v
}

/// Drains an object iterator.
fn all_members<'t>(mut it: JsonObjectIter<'t>) -> Vec<(JsonKey<'t>, JsonValue<'t>)> {
    let mut v = Vec::new();
    while let Some(x) = it.next() {
        v.push(x);
    }
    v
}

// === builders: hand-build the tables validation WOULD have produced ===

/// Incrementally builds a message buffer, handing back the span of every
/// appended piece so tables stay consistent with the documented
/// invariants.
struct HeadBuilder {
    buf: Vec<u8>,
}

impl HeadBuilder {
    fn new() -> Self {
        Self { buf: Vec::new() }
    }

    /// Appends raw bytes, returning their span.
    fn raw(&mut self, bytes: &[u8]) -> Span {
        let start = self.buf.len() as u32;
        self.buf.extend_from_slice(bytes);
        Span::new(start, self.buf.len() as u32)
    }

    /// Appends `name: value\r\n`, returning the header record. An empty
    /// value yields a zero-length span pinned at the CR (rule B5).
    fn header_line(&mut self, name: &str, value: &[u8]) -> HeaderSpan {
        let name_span = self.raw(name.as_bytes());
        self.raw(b":");
        if !value.is_empty() {
            self.raw(b" ");
        }
        let value_span = self.raw(value);
        self.raw(b"\r\n");
        HeaderSpan {
            name: name_span,
            value: value_span,
        }
    }

    /// Appends a status line, returning the (code, reason) spans. An
    /// empty reason yields a zero-length span after the SP.
    fn status_line(&mut self, code: &str, reason: &[u8]) -> (Span, Span) {
        self.raw(b"HTTP/1.1 ");
        let code_span = self.raw(code.as_bytes());
        self.raw(b" ");
        let reason_span = self.raw(reason);
        self.raw(b"\r\n");
        (code_span, reason_span)
    }
}

/// `GET / HTTP/1.1` + Host, no body.
fn minimal_request() -> (Vec<u8>, RequestSpans) {
    let mut b = HeadBuilder::new();
    let method = b.raw(b"GET");
    b.raw(b" ");
    let target = b.raw(b"/");
    b.raw(b" HTTP/1.1\r\n");
    let headers = vec![b.header_line("Host", b"example.com")];
    b.raw(b"\r\n");
    let head_end = b.buf.len() as u32;
    (
        b.buf,
        RequestSpans {
            method,
            target,
            head_end,
            headers,
            body: None,
        },
    )
}

/// Request head exercising header lookups: case-varied duplicates, an
/// obs-text (non-UTF-8) value, and an empty value. No body.
fn rich_request() -> (Vec<u8>, RequestSpans) {
    let mut b = HeadBuilder::new();
    let method = b.raw(b"GET");
    b.raw(b" ");
    let target = b.raw(b"/api/v2/pokemon");
    b.raw(b" HTTP/1.1\r\n");
    let headers = vec![
        b.header_line("Host", b"example.com"),
        b.header_line("Content-Type", b"application/json"),
        b.header_line("Accept", b"text/html"),
        b.header_line("accept", b"application/xml"),
        b.header_line("X-Bin", &[0x80, 0xC3, 0x28]),
        b.header_line("X-Empty", b""),
    ];
    b.raw(b"\r\n");
    let head_end = b.buf.len() as u32;
    (
        b.buf,
        RequestSpans {
            method,
            target,
            head_end,
            headers,
            body: None,
        },
    )
}

/// POST request with a Content-Length body (no JSON claim).
fn request_with_body(content: &[u8]) -> (Vec<u8>, RequestSpans) {
    let mut b = HeadBuilder::new();
    let method = b.raw(b"POST");
    b.raw(b" ");
    let target = b.raw(b"/upload");
    b.raw(b" HTTP/1.1\r\n");
    let content_length = format!("{}", content.len());
    let headers = vec![
        b.header_line("Host", b"example.com"),
        b.header_line("Content-Length", content_length.as_bytes()),
    ];
    b.raw(b"\r\n");
    let head_end = b.buf.len() as u32;
    let raw = b.raw(content);
    let body = BodySpans {
        framing: Framing::ContentLength,
        raw,
        content_len: content.len() as u32,
        trailers: vec![],
        json: None,
    };
    (
        b.buf,
        RequestSpans {
            method,
            target,
            head_end,
            headers,
            body: Some(body),
        },
    )
}

/// `200 OK` response with one Server header, no body.
fn plain_response() -> (Vec<u8>, ResponseSpans) {
    let mut b = HeadBuilder::new();
    let (code, reason) = b.status_line("200", b"OK");
    let headers = vec![b.header_line("Server", b"test")];
    b.raw(b"\r\n");
    let head_end = b.buf.len() as u32;
    (
        b.buf,
        ResponseSpans {
            code,
            reason,
            head_end,
            headers,
            body: None,
        },
    )
}

/// `200 OK` response with a Content-Length body claimed as JSON.
fn response_with_json(content: &[u8], nodes: Vec<JsonNode>) -> (Vec<u8>, ResponseSpans) {
    let mut b = HeadBuilder::new();
    let (code, reason) = b.status_line("200", b"OK");
    let content_length = format!("{}", content.len());
    let headers = vec![b.header_line("Content-Length", content_length.as_bytes())];
    b.raw(b"\r\n");
    let head_end = b.buf.len() as u32;
    let raw = b.raw(content);
    let body = BodySpans {
        framing: Framing::ContentLength,
        raw,
        content_len: content.len() as u32,
        trailers: vec![],
        json: Some(JsonSpans { nodes }),
    };
    (
        b.buf,
        ResponseSpans {
            code,
            reason,
            head_end,
            headers,
            body: Some(body),
        },
    )
}

/// `200 OK` chunked response: one chunk per `chunks` entry, then the
/// terminal chunk and the given trailer lines. Returns the buffer, the
/// spans, and the (decoded bytes, chunk map) the chunk walk would have
/// produced.
fn chunked_response(
    chunks: &[&[u8]],
    trailers: &[(&str, &[u8])],
    json: Option<JsonSpans>,
) -> (Vec<u8>, ResponseSpans, Vec<u8>, Vec<ChunkMapEntry>) {
    let mut b = HeadBuilder::new();
    let (code, reason) = b.status_line("200", b"OK");
    let headers = vec![b.header_line("Transfer-Encoding", b"chunked")];
    b.raw(b"\r\n");
    let head_end = b.buf.len() as u32;
    let mut decoded = Vec::new();
    let mut chunk_map = Vec::new();
    for data in chunks {
        let size_line = format!("{:x}\r\n", data.len());
        b.raw(size_line.as_bytes());
        let span = b.raw(data);
        chunk_map.push(ChunkMapEntry {
            src_start: span.start,
            body_offset: decoded.len() as u32,
            len: data.len() as u32,
        });
        decoded.extend_from_slice(data);
        b.raw(b"\r\n");
    }
    b.raw(b"0\r\n");
    let trailer_spans: Vec<HeaderSpan> = trailers
        .iter()
        .map(|(name, value)| b.header_line(name, value))
        .collect();
    b.raw(b"\r\n");
    let raw = Span::new(head_end, b.buf.len() as u32);
    let body = BodySpans {
        framing: Framing::Chunked,
        raw,
        content_len: decoded.len() as u32,
        trailers: trailer_spans,
        json,
    };
    (
        b.buf,
        ResponseSpans {
            code,
            reason,
            head_end,
            headers,
            body: Some(body),
        },
        decoded,
        chunk_map,
    )
}

/// Owns everything a [`Transcript`] borrows.
struct Fixture {
    sent: Vec<u8>,
    recv: Vec<u8>,
    table: SpanTable,
    status: u16,
    /// Decoded bytes + chunk map for a chunked response body; `None`
    /// means the response body (if any) is borrowed.
    resp_decoded: Option<(Vec<u8>, Vec<ChunkMapEntry>)>,
}

impl Fixture {
    fn assemble(
        sent: Vec<u8>,
        recv: Vec<u8>,
        request: RequestSpans,
        response: ResponseSpans,
        status: u16,
        resp_decoded: Option<(Vec<u8>, Vec<ChunkMapEntry>)>,
    ) -> Self {
        Self {
            sent,
            recv,
            table: SpanTable {
                version: FORMAT_VERSION,
                request,
                response,
            },
            status,
            resp_decoded,
        }
    }

    /// Builds the transcript exactly as a successful `validate()` run
    /// would.
    fn transcript(&self) -> Transcript<'_> {
        let req_body = self.table.request.body.as_ref().map(|spans| ValidatedBody {
            data: BodyData::Borrowed(&self.sent[spans.raw.as_range()]),
            chunk_map: Vec::new(),
        });
        let resp_body =
            self.table
                .response
                .body
                .as_ref()
                .map(|spans| match &self.resp_decoded {
                    Some((decoded, chunk_map)) => ValidatedBody {
                        data: BodyData::Decoded(decoded.clone()),
                        chunk_map: chunk_map.clone(),
                    },
                    None => ValidatedBody {
                        data: BodyData::Borrowed(&self.recv[spans.raw.as_range()]),
                        chunk_map: Vec::new(),
                    },
                });
        Transcript::new(
            &self.sent,
            &self.recv,
            &self.table,
            self.status,
            req_body,
            resp_body,
        )
    }
}

fn plain_fixture() -> Fixture {
    let (sent, request) = rich_request();
    let (recv, response) = plain_response();
    Fixture::assemble(sent, recv, request, response, 200, None)
}

fn reason_fixture(code: &str, reason: &[u8], status: u16) -> Fixture {
    let (sent, request) = minimal_request();
    let mut b = HeadBuilder::new();
    let (code_span, reason_span) = b.status_line(code, reason);
    b.raw(b"\r\n");
    let head_end = b.buf.len() as u32;
    let response = ResponseSpans {
        code: code_span,
        reason: reason_span,
        head_end,
        headers: vec![],
        body: None,
    };
    Fixture::assemble(sent, b.buf, request, response, status, None)
}

/// Request with a Content-Length body `hello`, response with DOC1 as a
/// Content-Length JSON body.
fn cl_fixture() -> Fixture {
    let (sent, request) = request_with_body(b"hello");
    let (recv, response) = response_with_json(DOC1, doc1_nodes());
    Fixture::assemble(sent, recv, request, response, 200, None)
}

/// Chunked response `hello` + ` world` with one trailer.
fn chunked_fixture() -> Fixture {
    let (sent, request) = minimal_request();
    let chunks: &[&[u8]] = &[b"hello", b" world"];
    let trailers: &[(&str, &[u8])] = &[("X-Trailer", b"yes")];
    let (recv, response, decoded, chunk_map) = chunked_response(chunks, trailers, None);
    Fixture::assemble(
        sent,
        recv,
        request,
        response,
        200,
        Some((decoded, chunk_map)),
    )
}

/// Chunked response whose decoded body is `{"x": 12}` with the number
/// split across a chunk boundary.
fn chunked_json_fixture() -> Fixture {
    let nodes = vec![
        node(JsonKind::Object, 0, 9, 3),
        node(JsonKind::Key, 2, 3, 1),
        node(JsonKind::Number, 6, 8, 1),
    ];
    let (sent, request) = minimal_request();
    let chunks: &[&[u8]] = &[b"{\"x\"", b": 1", b"2}"];
    let (recv, response, decoded, chunk_map) =
        chunked_response(chunks, &[], Some(JsonSpans { nodes }));
    assert_eq!(decoded.as_slice(), b"{\"x\": 12}");
    Fixture::assemble(
        sent,
        recv,
        request,
        response,
        200,
        Some((decoded, chunk_map)),
    )
}

/// Minimal transcript whose response body is `content` claimed as JSON
/// with `nodes`.
fn json_fixture(content: &[u8], nodes: Vec<JsonNode>) -> Fixture {
    let (sent, request) = minimal_request();
    let (recv, response) = response_with_json(content, nodes);
    Fixture::assemble(sent, recv, request, response, 200, None)
}

fn node(kind: JsonKind, start: u32, end: u32, size: u32) -> JsonNode {
    JsonNode {
        kind,
        start,
        end,
        size,
    }
}

/// Nested object document; see `doc1_nodes` for the hand-built tree.
const DOC1: &[u8] = br#"{"a": [1, {"b": "x"}, true], "c": null, "d": 1.5e3}"#;

/// Pre-order nodes for [`DOC1`] (string/key spans exclude quotes).
fn doc1_nodes() -> Vec<JsonNode> {
    vec![
        node(JsonKind::Object, 0, 51, 12),
        node(JsonKind::Key, 2, 3, 1),      // "a"
        node(JsonKind::Array, 6, 27, 6),   // [1, {"b": "x"}, true]
        node(JsonKind::Number, 7, 8, 1),   // 1
        node(JsonKind::Object, 10, 20, 3), // {"b": "x"}
        node(JsonKind::Key, 12, 13, 1),    // "b"
        node(JsonKind::String, 17, 18, 1), // "x"
        node(JsonKind::Bool, 22, 26, 1),   // true
        node(JsonKind::Key, 30, 31, 1),    // "c"
        node(JsonKind::Null, 34, 38, 1),   // null
        node(JsonKind::Key, 41, 42, 1),    // "d"
        node(JsonKind::Number, 45, 50, 1), // 1.5e3
    ]
}

/// Array document with multi-node subtrees on BOTH sides of sibling
/// boundaries.
const DOC2: &[u8] = br#"[[1,2],{"k":[3]},"s"]"#;

/// Pre-order nodes for [`DOC2`].
fn doc2_nodes() -> Vec<JsonNode> {
    vec![
        node(JsonKind::Array, 0, 21, 9),  // root
        node(JsonKind::Array, 1, 6, 3),   // [1,2]
        node(JsonKind::Number, 2, 3, 1),  // 1
        node(JsonKind::Number, 4, 5, 1),  // 2
        node(JsonKind::Object, 7, 16, 4), // {"k":[3]}
        node(JsonKind::Key, 9, 10, 1),    // "k"
        node(JsonKind::Array, 12, 15, 2), // [3]
        node(JsonKind::Number, 13, 14, 1),
        node(JsonKind::String, 18, 19, 1), // "s"
    ]
}

/// Document with empty containers.
const EMPTY_DOC: &[u8] = br#"{"o": {}, "a": []}"#;

fn empty_doc_nodes() -> Vec<JsonNode> {
    vec![
        node(JsonKind::Object, 0, 18, 5),
        node(JsonKind::Key, 2, 3, 1), // "o"
        node(JsonKind::Object, 6, 8, 1),
        node(JsonKind::Key, 11, 12, 1), // "a"
        node(JsonKind::Array, 15, 17, 1),
    ]
}

/// Pulls the response JSON root out of a transcript.
fn json_root<'x>(t: &'x Transcript<'_>) -> JsonValue<'x> {
    t.response()
        .body()
        .and_then(|body| body.json())
        .expect("fixture should expose a JSON body")
}

/// Asserts `content_to_source(range)` round-trips: concatenating the
/// source bytes of the returned spans yields exactly `content[range]`.
fn assert_maps_back(buf: &[u8], body: &Body<'_>, range: Range<u32>) {
    let mut collected = Vec::new();
    for span in body.content_to_source(range.clone()) {
        collected.extend_from_slice(&buf[span.as_range()]);
    }
    assert_eq!(
        collected.as_slice(),
        &body.content()[range.start as usize..range.end as usize],
    );
}

// === request/response line ===

#[test]
fn method_and_target() {
    let f = plain_fixture();
    let t = f.transcript();
    assert_eq!(t.request().method(), "GET");
    assert_eq!(t.request().target(), "/api/v2/pokemon");
}

#[test]
fn status_and_reason() {
    let f = plain_fixture();
    let t = f.transcript();
    assert_eq!(t.response().status(), 200);
    assert_eq!(t.response().reason(), "OK");
}

#[test]
fn empty_reason() {
    let f = reason_fixture("204", b"", 204);
    let t = f.transcript();
    assert_eq!(t.response().status(), 204);
    assert_eq!(t.response().reason(), "");
}

#[test]
fn obs_text_reason_falls_back_to_empty() {
    // 0x80 is legal obs-text on the wire but not valid UTF-8: the
    // documented fallback returns "".
    let f = reason_fixture("200", b"\x80K", 200);
    let t = f.transcript();
    assert_eq!(t.response().reason(), "");
    // ...but the raw verified span is recoverable losslessly.
    assert_eq!(t.response().reason_bytes(), b"\x80K");
}

#[test]
fn reason_bytes_matches_reason_for_valid_utf8() {
    // For a UTF-8 reason the bytes equal the string's bytes; an empty
    // reason yields an empty slice.
    let f = plain_fixture();
    let t = f.transcript();
    assert_eq!(t.response().reason(), "OK");
    assert_eq!(t.response().reason_bytes(), b"OK");
    let f = reason_fixture("204", b"", 204);
    let t = f.transcript();
    assert_eq!(t.response().reason_bytes(), b"");
}

// === headers ===

#[test]
fn headers_in_order() {
    let f = plain_fixture();
    let t = f.transcript();
    let req = t.request();
    assert_eq!(all_headers(req.headers()).len(), 6);
    let names: Vec<&str> = all_headers(req.headers()).into_iter().map(|h| h.name()).collect();
    assert_eq!(
        names,
        [
            "Host",
            "Content-Type",
            "Accept",
            "accept",
            "X-Bin",
            "X-Empty"
        ]
    );
    let resp = t.response();
    let names: Vec<&str> = all_headers(resp.headers()).into_iter().map(|h| h.name()).collect();
    assert_eq!(names, ["Server"]);
}

#[test]
fn header_lookup_is_case_insensitive() {
    let f = plain_fixture();
    let t = f.transcript();
    let req = t.request();
    let h = req.header("content-TYPE").expect("should match");
    assert_eq!(h.name(), "Content-Type");
    assert_eq!(h.value(), b"application/json");
    assert_eq!(h.value_str(), Some("application/json"));
    assert!(req.header("HOST").is_some());
    assert!(t.response().header("sErVeR").is_some());
}

#[test]
fn header_returns_first_of_duplicates() {
    let f = plain_fixture();
    let t = f.transcript();
    let h = t.request().header("ACCEPT").expect("should match");
    assert_eq!(h.name(), "Accept");
    assert_eq!(h.value(), b"text/html");
}

#[test]
fn header_miss_returns_none() {
    let f = plain_fixture();
    let t = f.transcript();
    assert!(t.request().header("X-Missing").is_none());
    assert!(t.response().header("Accept").is_none());
}

#[test]
fn headers_with_name_yields_duplicates_in_order() {
    let f = plain_fixture();
    let t = f.transcript();
    let req = t.request();
    let values: Vec<&[u8]> = all_named(req.headers_with_name("aCCePt")).into_iter().map(|h| h.value()).collect();
    assert_eq!(values, [b"text/html".as_slice(), b"application/xml"]);
    let names: Vec<&str> = all_named(req.headers_with_name("accept")).into_iter().map(|h| h.name()).collect();
    assert_eq!(names, ["Accept", "accept"]);
    assert_eq!(all_named(req.headers_with_name("X-Missing")).len(), 0);
}

#[test]
fn empty_header_value() {
    let f = plain_fixture();
    let t = f.transcript();
    let h = t.request().header("x-empty").expect("should match");
    assert_eq!(h.value(), b"");
    assert_eq!(h.value_str(), Some(""));
    let span = h.value_span();
    assert!(span.is_empty());
    // The empty value span is pinned at the terminating CR.
    let at = span.start as usize;
    assert_eq!(&f.sent[at..at + 2], b"\r\n");
}

#[test]
fn non_utf8_header_value() {
    let f = plain_fixture();
    let t = f.transcript();
    let h = t.request().header("X-Bin").expect("should match");
    assert_eq!(h.value(), [0x80, 0xC3, 0x28]);
    assert!(h.value_str().is_none());
}

#[test]
fn header_spans_are_source_coordinates() {
    let f = plain_fixture();
    let t = f.transcript();
    let h = t.request().header("Host").expect("should match");
    assert_eq!(&f.sent[h.name_span().as_range()], b"Host");
    assert_eq!(&f.sent[h.value_span().as_range()], b"example.com");
}

// === bodies ===

#[test]
fn body_none_when_absent() {
    let f = plain_fixture();
    let t = f.transcript();
    assert!(t.request().body().is_none());
    assert!(t.response().body().is_none());
}

#[test]
fn borrowed_body_content() {
    let f = cl_fixture();
    let t = f.transcript();
    let body = t.request().body().expect("request body");
    assert_eq!(body.content(), b"hello");
    assert_eq!(body.framing(), Framing::ContentLength);
    let raw = body.raw_span();
    assert_eq!(raw.start, f.table.request.head_end);
    assert_eq!(raw.end as usize, f.sent.len());
    assert_eq!(&f.sent[raw.as_range()], b"hello");
    // Non-chunked bodies have no trailers and this one claims no JSON.
    assert_eq!(all_headers(body.trailers()).len(), 0);
    assert!(body.trailer("X-Trailer").is_none());
    assert!(body.json().is_none());
}

#[test]
fn decoded_body_content() {
    let f = chunked_fixture();
    let t = f.transcript();
    let body = t.response().body().expect("response body");
    assert_eq!(body.content(), b"hello world");
    assert_eq!(body.framing(), Framing::Chunked);
    let raw = body.raw_span();
    assert_eq!(raw.start, f.table.response.head_end);
    assert_eq!(raw.end as usize, f.recv.len());
}

#[test]
fn trailers_iterate_in_order() {
    let f = chunked_fixture();
    let t = f.transcript();
    let body = t.response().body().expect("response body");
    let trailers: Vec<Header<'_>> = all_headers(body.trailers());
    assert_eq!(trailers.len(), 1);
    assert_eq!(trailers[0].name(), "X-Trailer");
    assert_eq!(trailers[0].value(), b"yes");
    // Trailer spans index the SOURCE buffer.
    assert_eq!(&f.recv[trailers[0].name_span().as_range()], b"X-Trailer");
    assert_eq!(&f.recv[trailers[0].value_span().as_range()], b"yes");
}

#[test]
fn trailers_and_headers_are_separate_namespaces() {
    let f = chunked_fixture();
    let t = f.transcript();
    let resp = t.response();
    let body = resp.body().expect("response body");
    // Found as a trailer (case-insensitively)...
    let trailer = body.trailer("x-TRAILER").expect("trailer should match");
    assert_eq!(trailer.value(), b"yes");
    // ...but never via header() (rule G4).
    assert!(resp.header("X-Trailer").is_none());
    // And head headers never leak into the trailer namespace.
    assert!(resp.header("Transfer-Encoding").is_some());
    assert!(body.trailer("Transfer-Encoding").is_none());
}

// === content_to_source ===

#[test]
fn content_to_source_identity() {
    let f = cl_fixture();
    let t = f.transcript();
    let body = t.request().body().expect("request body");
    let base = body.raw_span().start;
    // Middle range.
    assert_eq!(
        body.content_to_source(1..4),
        vec![Span::new(base + 1, base + 4)]
    );
    assert_maps_back(&f.sent, &body, 1..4);
    // Full body.
    assert_eq!(body.content_to_source(0..5), vec![body.raw_span()]);
    // Empty range.
    assert_eq!(body.content_to_source(2..2), Vec::new());
    // Past the end / fully out of bounds / inverted: empty.
    assert_eq!(body.content_to_source(0..6), Vec::new());
    assert_eq!(body.content_to_source(6..7), Vec::new());
    assert_eq!(
        body.content_to_source(Range { start: 4, end: 1 }),
        Vec::new()
    );
}

#[test]
fn content_to_source_chunked() {
    let f = chunked_fixture();
    let t = f.transcript();
    let body = t.response().body().expect("response body");
    let map = &f.resp_decoded.as_ref().expect("chunked fixture").1;
    let (c1, c2) = (map[0], map[1]);
    assert_eq!((c1.body_offset, c1.len), (0, 5));
    assert_eq!((c2.body_offset, c2.len), (5, 6));

    // Inside one chunk.
    assert_eq!(
        body.content_to_source(1..4),
        vec![Span::new(c1.src_start + 1, c1.src_start + 4)]
    );
    // Straddling two chunks.
    assert_eq!(
        body.content_to_source(3..8),
        vec![
            Span::new(c1.src_start + 3, c1.src_start + 5),
            Span::new(c2.src_start, c2.src_start + 3),
        ]
    );
    // Exactly chunk-aligned.
    assert_eq!(
        body.content_to_source(0..5),
        vec![Span::new(c1.src_start, c1.src_start + 5)]
    );
    assert_eq!(
        body.content_to_source(5..11),
        vec![Span::new(c2.src_start, c2.src_start + 6)]
    );
    // Full body.
    assert_eq!(
        body.content_to_source(0..11),
        vec![
            Span::new(c1.src_start, c1.src_start + 5),
            Span::new(c2.src_start, c2.src_start + 6),
        ]
    );
    // Empty ranges, including one pinned at a chunk boundary.
    assert_eq!(body.content_to_source(4..4), Vec::new());
    assert_eq!(body.content_to_source(5..5), Vec::new());
    // Out of bounds.
    assert_eq!(body.content_to_source(0..12), Vec::new());
    assert_eq!(body.content_to_source(11..12), Vec::new());
    // Every in-bounds mapping round-trips to the exact content bytes.
    for range in [0..11, 1..4, 3..8, 0..5, 5..11, 4..6] {
        assert_maps_back(&f.recv, &body, range);
    }
}

// === JSON ===

#[test]
fn json_none_when_unclaimed() {
    let f = cl_fixture();
    let t = f.transcript();
    // The request body exists but carries no JSON claim.
    assert!(t.request().body().expect("request body").json().is_none());
}

#[test]
fn json_root_kind_and_span() {
    let f = json_fixture(DOC1, doc1_nodes());
    let t = f.transcript();
    let root = json_root(&t);
    assert_eq!(root.kind(), JsonKind::Object);
    assert_eq!(root.span(), Span::new(0, 51));
    assert!(!root.is_null());
}

#[test]
fn json_get_nested_string() {
    let f = json_fixture(DOC1, doc1_nodes());
    let t = f.transcript();
    let v = json_root(&t).get("a.1.b").expect("path should resolve");
    assert_eq!(v.kind(), JsonKind::String);
    assert_eq!(v.as_str(), Some("x"));
    assert_eq!(v.span(), Span::new(17, 18));
}

#[test]
fn json_get_bool_null_number() {
    let f = json_fixture(DOC1, doc1_nodes());
    let t = f.transcript();
    let root = json_root(&t);

    let b = root.get("a.2").expect("a.2");
    assert_eq!(b.kind(), JsonKind::Bool);
    assert_eq!(b.as_bool(), Some(true));
    assert_eq!(b.span(), Span::new(22, 26));

    let n = root.get("c").expect("c");
    assert_eq!(n.kind(), JsonKind::Null);
    assert!(n.is_null());

    let d = root.get("d").expect("d");
    assert_eq!(d.kind(), JsonKind::Number);
    assert_eq!(d.as_number_str(), Some("1.5e3"));
    assert_eq!(d.span(), Span::new(45, 50));
}

#[test]
fn json_get_misses() {
    let f = json_fixture(DOC1, doc1_nodes());
    let t = f.transcript();
    let root = json_root(&t);
    // Wrong key.
    assert!(root.get("z").is_none());
    // Array index out of bounds.
    assert!(root.get("a.3").is_none());
    // Path into a scalar.
    assert!(root.get("a.1.b.0").is_none());
    assert!(root.get("c.x").is_none());
    // Numeric segment on an object.
    assert!(root.get("0").is_none());
    // Non-numeric segment on an array.
    assert!(root.get("a.b").is_none());
    // Empty segments never match.
    assert!(root.get("").is_none());
    assert!(root.get("a.").is_none());
}

#[test]
fn json_bool_false() {
    let f = json_fixture(
        b"[true, false]",
        vec![
            node(JsonKind::Array, 0, 13, 3),
            node(JsonKind::Bool, 1, 5, 1),
            node(JsonKind::Bool, 7, 12, 1),
        ],
    );
    let t = f.transcript();
    let root = json_root(&t);
    assert_eq!(root.get("0").expect("0").as_bool(), Some(true));
    assert_eq!(root.get("1").expect("1").as_bool(), Some(false));
}

#[test]
fn json_array_len() {
    let f = json_fixture(DOC1, doc1_nodes());
    let t = f.transcript();
    let root = json_root(&t);
    assert_eq!(root.get("a").expect("a").array_len(), Some(3));
    // Not arrays.
    assert_eq!(root.array_len(), None);
    assert_eq!(root.get("c").expect("c").array_len(), None);
}

#[test]
fn json_iter_array() {
    let f = json_fixture(DOC1, doc1_nodes());
    let t = f.transcript();
    let arr = json_root(&t).get("a").expect("a");
    let items: Vec<JsonValue<'_>> = all_elements(arr.iter_array().expect("array"));
    assert_eq!(items.len(), 3);
    assert_eq!(items[0].kind(), JsonKind::Number);
    assert_eq!(items[0].span(), Span::new(7, 8));
    assert_eq!(items[1].kind(), JsonKind::Object);
    assert_eq!(items[1].span(), Span::new(10, 20));
    assert_eq!(items[2].kind(), JsonKind::Bool);
    assert_eq!(items[2].span(), Span::new(22, 26));
}

#[test]
fn json_iter_object() {
    let f = json_fixture(DOC1, doc1_nodes());
    let t = f.transcript();
    let pairs: Vec<(JsonKey<'_>, JsonValue<'_>)> =
        all_members(json_root(&t).iter_object().expect("object"));
    assert_eq!(pairs.len(), 3);
    let keys: Vec<&str> = pairs.iter().map(|(key, _)| key.as_str()).collect();
    assert_eq!(keys, ["a", "c", "d"]);
    assert_eq!(pairs[0].1.kind(), JsonKind::Array);
    assert_eq!(pairs[1].1.kind(), JsonKind::Null);
    assert_eq!(pairs[2].1.kind(), JsonKind::Number);
    // Key spans are content spans (quotes excluded).
    assert_eq!(pairs[0].0.span(), Span::new(2, 3));
    assert_eq!(pairs[2].0.span(), Span::new(41, 42));
    // Nested object iterates too.
    let inner: Vec<(JsonKey<'_>, JsonValue<'_>)> = all_members(
        json_root(&t)
            .get("a.1")
            .expect("a.1")
            .iter_object()
            .expect("object"),
    );
    assert_eq!(inner.len(), 1);
    assert_eq!(inner[0].0.as_str(), "b");
    assert_eq!(inner[0].1.as_str(), Some("x"));
}

#[test]
fn json_sibling_jumps_across_multinode_subtrees() {
    let f = json_fixture(DOC2, doc2_nodes());
    let t = f.transcript();
    let root = json_root(&t);
    // Sibling boundaries [1,2] -> {"k":[3]} -> "s" have multi-node
    // subtrees on both sides; size-jumps must land exactly on each
    // element root.
    let items: Vec<JsonValue<'_>> = all_elements(root.iter_array().expect("array"));
    assert_eq!(items.len(), 3);
    assert_eq!(items[0].kind(), JsonKind::Array);
    assert_eq!(items[0].span(), Span::new(1, 6));
    assert_eq!(items[1].kind(), JsonKind::Object);
    assert_eq!(items[1].span(), Span::new(7, 16));
    assert_eq!(items[2].kind(), JsonKind::String);
    assert_eq!(items[2].as_str(), Some("s"));
    assert_eq!(root.array_len(), Some(3));
    // Deep paths across those boundaries.
    assert_eq!(root.get("0.1").expect("0.1").as_number_str(), Some("2"));
    assert_eq!(root.get("1.k.0").expect("1.k.0").as_number_str(), Some("3"));
    assert_eq!(root.get("1.k").expect("1.k").array_len(), Some(1));
    assert_eq!(root.get("2").expect("2").as_str(), Some("s"));
}

#[test]
fn json_scalar_root() {
    let f = json_fixture(b"true", vec![node(JsonKind::Bool, 0, 4, 1)]);
    let t = f.transcript();
    let root = json_root(&t);
    assert_eq!(root.kind(), JsonKind::Bool);
    assert_eq!(root.as_bool(), Some(true));
    assert_eq!(root.span(), Span::new(0, 4));
    // Scalars have no children: iterators absent, paths unresolvable.
    assert!(root.iter_array().is_none());
    assert!(root.iter_object().is_none());
    assert!(root.array_len().is_none());
    assert!(root.get("0").is_none());
    assert!(root.get("a").is_none());
}

#[test]
fn json_empty_containers() {
    let f = json_fixture(EMPTY_DOC, empty_doc_nodes());
    let t = f.transcript();
    let root = json_root(&t);
    let o = root.get("o").expect("o");
    assert_eq!(o.kind(), JsonKind::Object);
    assert_eq!(all_members(o.iter_object().expect("object")).len(), 0);
    assert!(o.get("x").is_none());
    let a = root.get("a").expect("a");
    assert_eq!(a.kind(), JsonKind::Array);
    assert_eq!(a.array_len(), Some(0));
    assert_eq!(all_elements(a.iter_array().expect("array")).len(), 0);
    assert!(a.get("0").is_none());
}

#[test]
fn json_kind_gating_matrix() {
    let f = json_fixture(DOC1, doc1_nodes());
    let t = f.transcript();
    let root = json_root(&t); // Object
    let arr = root.get("a").expect("a"); // Array
    let num = root.get("d").expect("d"); // Number
    let string = root.get("a.1.b").expect("a.1.b"); // String
    let boolean = root.get("a.2").expect("a.2"); // Bool
    let null = root.get("c").expect("c"); // Null

    // as_str: String only.
    assert_eq!(string.as_str(), Some("x"));
    for v in [root, arr, num, boolean, null] {
        assert!(v.as_str().is_none());
    }
    // as_number_str: Number only.
    assert_eq!(num.as_number_str(), Some("1.5e3"));
    for v in [root, arr, string, boolean, null] {
        assert!(v.as_number_str().is_none());
    }
    // as_bool: Bool only.
    assert_eq!(boolean.as_bool(), Some(true));
    for v in [root, arr, num, string, null] {
        assert!(v.as_bool().is_none());
    }
    // is_null: Null only.
    assert!(null.is_null());
    for v in [root, arr, num, string, boolean] {
        assert!(!v.is_null());
    }
    // Array accessors: Array only.
    assert!(arr.iter_array().is_some());
    assert!(arr.array_len().is_some());
    for v in [root, num, string, boolean, null] {
        assert!(v.iter_array().is_none());
        assert!(v.array_len().is_none());
    }
    // Object accessor: Object only.
    assert!(root.iter_object().is_some());
    for v in [arr, num, string, boolean, null] {
        assert!(v.iter_object().is_none());
    }
}

#[test]
fn json_over_chunked_decoded_body() {
    let f = chunked_json_fixture();
    let t = f.transcript();
    let body = t.response().body().expect("response body");
    assert_eq!(body.content(), b"{\"x\": 12}");
    let root = body.json().expect("json claim");
    let x = root.get("x").expect("x");
    assert_eq!(x.as_number_str(), Some("12"));
    // The decoded-coordinate span maps back across the chunk boundary.
    let span = x.span();
    let spans = body.content_to_source(span.start..span.end);
    assert_eq!(spans.len(), 2);
    let mut wire = Vec::new();
    for s in &spans {
        wire.extend_from_slice(&f.recv[s.as_range()]);
    }
    assert_eq!(wire.as_slice(), b"12");
}

#[test]
fn json_path_segments_may_be_empty() {
    let f = json_fixture(
        br#"{"":1}"#,
        vec![
            node(JsonKind::Object, 0, 6, 3),
            node(JsonKind::Key, 2, 2, 1),
            node(JsonKind::Number, 4, 5, 1),
        ],
    );
    let t = f.transcript();
    let root = json_root(&t);
    // the empty path is one empty segment, naming the key ""
    assert_eq!(root.get("").expect("empty key").as_number_str(), Some("1"));
    // "." is two empty segments; a number has no members
    assert!(root.get(".").is_none());
    assert!(root.get("x").is_none());
}

#[test]
fn content_to_source_spans_ascend_within_raw_span() {
    let f = chunked_fixture();
    let t = f.transcript();
    let body = t.response().body().expect("response body");
    let raw = body.raw_span();
    for (a, b) in [(0u32, 11u32), (3, 8), (1, 4), (4, 9), (10, 11)] {
        let spans = body.content_to_source(a..b);
        assert!(!spans.is_empty());
        for s in &spans {
            assert!(raw.start <= s.start && s.start < s.end && s.end <= raw.end);
        }
        for w in spans.windows(2) {
            assert!(w[0].end <= w[1].start);
        }
    }
}
