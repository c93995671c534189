use transcript_verify::error::Error;
use transcript_verify::spans::{HeaderSpan, RequestSpans, ResponseSpans, Span};
use transcript_verify::transcript::ChunkMapEntry;
use transcript_verify::validate::http::{
    check_span, expect_lit, is_target_byte, is_tchar, is_value_byte, parse_dec_u64,
    parse_hex_u64, scan_token, skip_ows, walk_chunks, walk_request_head, walk_response_head,
    walk_trailers,
};
use transcript_verify::validate::ParsedHeadInfo;

fn span(start: usize, end: usize) -> Span {
    Span::new(start as u32, end as u32)
}

fn header(ns: usize, ne: usize, vs: usize, ve: usize) -> HeaderSpan {
    HeaderSpan {
        name: span(ns, ne),
        value: span(vs, ve),
    }
}

fn req(method: Span, target: Span, head_end: usize, headers: Vec<HeaderSpan>) -> RequestSpans {
    RequestSpans {
        method,
        target,
        head_end: head_end as u32,
        headers,
        body: None,
    }
}

fn resp(code: Span, reason: Span, head_end: usize, headers: Vec<HeaderSpan>) -> ResponseSpans {
    ResponseSpans {
        code,
        reason,
        head_end: head_end as u32,
        headers,
        body: None,
    }
}

fn assert_http_err<T: core::fmt::Debug>(result: Result<T, Error>, want: &str) {
    match result {
        Err(Error::Http { reason, .. }) => assert_eq!(reason, want),
        other => panic!("expected Http {{ {want:?} }}, got {other:?}"),
    }
}

// === parse_dec_u64 ===

#[test]
fn parse_dec_accepts_digits() {
    assert_eq!(parse_dec_u64(b"0"), Some(0));
    assert_eq!(parse_dec_u64(b"5"), Some(5));
    assert_eq!(parse_dec_u64(b"42"), Some(42));
    // Leading zeros are valid DIGIT grammar (rule C3).
    assert_eq!(parse_dec_u64(b"05"), Some(5));
    assert_eq!(parse_dec_u64(b"012"), Some(12));
    // 19 digits is the maximum.
    assert_eq!(
        parse_dec_u64(b"9999999999999999999"),
        Some(9_999_999_999_999_999_999)
    );
}

#[test]
fn parse_dec_rejects_non_digits() {
    assert_eq!(parse_dec_u64(b""), None);
    assert_eq!(parse_dec_u64(b"+5"), None);
    assert_eq!(parse_dec_u64(b"-5"), None);
    assert_eq!(parse_dec_u64(b"0x5"), None);
    assert_eq!(parse_dec_u64(b"5,5"), None);
    assert_eq!(parse_dec_u64(b"5 "), None);
    assert_eq!(parse_dec_u64(b" 5"), None);
    assert_eq!(parse_dec_u64(b"5a"), None);
}

#[test]
fn parse_dec_rejects_twenty_digits() {
    // 20 digits is rejected on length alone, even when the value fits.
    assert_eq!(parse_dec_u64(b"00000000000000000005"), None);
    assert_eq!(parse_dec_u64(b"99999999999999999999"), None);
}

// === parse_hex_u64 ===

#[test]
fn parse_hex_accepts_both_cases() {
    assert_eq!(parse_hex_u64(b"0"), Some(0));
    assert_eq!(parse_hex_u64(b"a"), Some(10));
    assert_eq!(parse_hex_u64(b"A"), Some(10));
    assert_eq!(parse_hex_u64(b"fF"), Some(255));
    assert_eq!(parse_hex_u64(b"10"), Some(16));
    // 16 HEXDIGs is the maximum: exactly u64::MAX.
    assert_eq!(parse_hex_u64(b"ffffffffffffffff"), Some(u64::MAX));
    assert_eq!(parse_hex_u64(b"0000000000000005"), Some(5));
}

#[test]
fn parse_hex_rejects_bad_input() {
    assert_eq!(parse_hex_u64(b""), None);
    assert_eq!(parse_hex_u64(b"g"), None);
    assert_eq!(parse_hex_u64(b"+5"), None);
    assert_eq!(parse_hex_u64(b"0x5"), None);
    // 17 HEXDIGs is rejected on length alone.
    assert_eq!(parse_hex_u64(b"00000000000000005"), None);
    assert_eq!(parse_hex_u64(b"1ffffffffffffffff"), None);
}

// === charset predicates ===

#[test]
fn tchar_predicate() {
    for b in b"!#$%&'*+-.^_`|~0aZ9" {
        assert!(is_tchar(*b), "{b:?}");
    }
    for b in b" :;,/(){}<>@?=[]\"\\\r\n\0" {
        assert!(!is_tchar(*b), "{b:?}");
    }
    assert!(!is_tchar(0x7F));
    assert!(!is_tchar(0x80));
}

#[test]
fn value_byte_predicate() {
    assert!(is_value_byte(b'\t'));
    assert!(is_value_byte(b' '));
    assert!(is_value_byte(0x21));
    assert!(is_value_byte(0x7E));
    assert!(is_value_byte(0x80));
    assert!(is_value_byte(0xFF));
    assert!(!is_value_byte(0x00));
    assert!(!is_value_byte(0x1F));
    assert!(!is_value_byte(b'\r'));
    assert!(!is_value_byte(b'\n'));
    assert!(!is_value_byte(0x7F));
}

#[test]
fn target_byte_predicate() {
    assert!(is_target_byte(0x21));
    assert!(is_target_byte(b'/'));
    assert!(is_target_byte(0x7E));
    assert!(!is_target_byte(b' '));
    assert!(!is_target_byte(0x7F));
    assert!(!is_target_byte(0x80));
    assert!(!is_target_byte(b'\r'));
}

// === cursor primitives ===

#[test]
fn expect_lit_matches_and_rejects() {
    assert_eq!(expect_lit(b"abcd", 1, b"bc", "x"), Ok(3));
    assert_http_err(expect_lit(b"abcd", 1, b"bd", "lit"), "lit");
    // Truncated buffer.
    assert_http_err(expect_lit(b"ab", 1, b"bc", "lit"), "lit");
    // Cursor past the end.
    assert_http_err(expect_lit(b"ab", 5, b"b", "lit"), "lit");
}

#[test]
fn skip_ows_and_scan_token() {
    assert_eq!(skip_ows(b"  \tx", 0), 3);
    assert_eq!(skip_ows(b"x", 0), 0);
    assert_eq!(skip_ows(b"  ", 0), 2);
    assert_eq!(scan_token(b"abc def", 0), 3);
    assert_eq!(scan_token(b" abc", 0), 0);
    assert_eq!(scan_token(b"abc", 3), 3);
    assert_eq!(scan_token(b"abc", 9), 9);
}

#[test]
fn check_span_bounds() {
    assert!(check_span(span(0, 4), 4, "x").is_ok());
    assert!(check_span(span(4, 4), 4, "x").is_ok());
    assert!(matches!(
        check_span(span(0, 5), 4, "x"),
        Err(Error::SpanOutOfBounds { .. })
    ));
    // Inverted span.
    assert!(matches!(
        check_span(span(3, 2), 4, "x"),
        Err(Error::SpanOutOfBounds { .. })
    ));
}

// === walk_request_head ===

const GET: &[u8] = b"GET /a HTTP/1.1\r\nHost: x\r\n\r\n";

fn get_table() -> RequestSpans {
    req(span(0, 3), span(4, 6), 28, vec![header(17, 21, 23, 24)])
}

#[test]
fn request_head_happy_path() {
    let head = walk_request_head(GET, &get_table()).unwrap();
    assert_eq!(head.head_end, 28);
    assert!(!head.method_is_head);
    assert_eq!(head.info, ParsedHeadInfo::default());
}

#[test]
fn request_head_detects_head_method() {
    let buf = b"HEAD /a HTTP/1.1\r\n\r\n";
    let table = req(span(0, 4), span(5, 7), 20, vec![]);
    assert!(walk_request_head(buf, &table).unwrap().method_is_head);

    // Exact case only: lowercase `head` is a different method.
    let buf = b"head /a HTTP/1.1\r\n\r\n";
    assert!(!walk_request_head(buf, &table).unwrap().method_is_head);
}

#[test]
fn request_head_rejects_method_span_off_by_one() {
    // "GE"
    let mut t = get_table();
    t.method = span(0, 2);
    assert_http_err(walk_request_head(GET, &t), "method span mismatch");
    // "GET " (swallowing the SP)
    let mut t = get_table();
    t.method = span(0, 4);
    assert_http_err(walk_request_head(GET, &t), "method span mismatch");
    // Not starting at 0.
    let mut t = get_table();
    t.method = span(1, 3);
    assert_http_err(walk_request_head(GET, &t), "method span mismatch");
}

#[test]
fn request_head_rejects_method_span_out_of_bounds() {
    let mut t = get_table();
    t.method = span(0, 1000);
    assert!(matches!(
        walk_request_head(GET, &t),
        Err(Error::SpanOutOfBounds { .. })
    ));
}

#[test]
fn request_head_rejects_bad_method_bytes() {
    // Leading SP: empty token.
    let t = req(span(0, 3), span(4, 6), 28, vec![]);
    assert_http_err(
        walk_request_head(b" GET /a HTTP/1.1\r\n\r\n", &t),
        "invalid method token",
    );
    assert_http_err(walk_request_head(b"", &t), "invalid method token");
}

#[test]
fn request_head_rejects_target_span_off_by_one() {
    let mut t = get_table();
    t.target = span(4, 5);
    assert_http_err(walk_request_head(GET, &t), "target span mismatch");
    let mut t = get_table();
    t.target = span(5, 6);
    assert_http_err(walk_request_head(GET, &t), "target span mismatch");
    let mut t = get_table();
    t.target = span(4, 7);
    assert_http_err(walk_request_head(GET, &t), "target span mismatch");
}

#[test]
fn request_head_rejects_empty_or_doubled_sp_target() {
    // Double SP after method: target scan starts on SP -> empty.
    let t = req(span(0, 3), span(5, 7), 29, vec![]);
    assert_http_err(
        walk_request_head(b"GET  /a HTTP/1.1\r\n\r\n", &t),
        "invalid request target",
    );
}

#[test]
fn request_head_rejects_bad_version() {
    let t = req(span(0, 3), span(4, 6), 28, vec![]);
    assert_http_err(
        walk_request_head(b"GET /a HTTP/1.0\r\n\r\n", &t),
        "expected ` HTTP/1.1` and CRLF",
    );
    assert_http_err(
        walk_request_head(b"GET /a http/1.1\r\n\r\n", &t),
        "expected ` HTTP/1.1` and CRLF",
    );
    // Bare LF after the version.
    assert_http_err(
        walk_request_head(b"GET /a HTTP/1.1\n\r\n", &t),
        "expected ` HTTP/1.1` and CRLF",
    );
}

#[test]
fn request_head_rejects_head_end_off_by_one() {
    let mut t = get_table();
    t.head_end = 27;
    assert_http_err(walk_request_head(GET, &t), "head_end mismatch");
    let mut t = get_table();
    t.head_end = 29;
    assert_http_err(walk_request_head(GET, &t), "head_end mismatch");
}

#[test]
fn request_head_rejects_truncated_head() {
    // No terminating blank line.
    let t = req(span(0, 3), span(4, 6), 26, vec![header(17, 21, 23, 24)]);
    assert_http_err(
        walk_request_head(b"GET /a HTTP/1.1\r\nHost: x\r\n", &t),
        "truncated head",
    );
}

// === header lines (exercised through walk_request_head) ===

#[test]
fn header_value_ows_is_trimmed_canonically() {
    //                   0         1         2
    //                   0123456789012345678901234567890
    let buf = b"GET /a HTTP/1.1\r\nX:  v \t\r\n\r\n";
    // value "v" at offset 21.
    let t = req(span(0, 3), span(4, 6), 28, vec![header(17, 18, 21, 22)]);
    walk_request_head(buf, &t).unwrap();

    // Span extended one byte left into the OWS.
    let t = req(span(0, 3), span(4, 6), 28, vec![header(17, 18, 20, 22)]);
    assert_http_err(walk_request_head(buf, &t), "header value span mismatch");
    // Span extended one byte right into the OWS.
    let t = req(span(0, 3), span(4, 6), 28, vec![header(17, 18, 21, 23)]);
    assert_http_err(walk_request_head(buf, &t), "header value span mismatch");
    // Span swallowing the CR.
    let t = req(span(0, 3), span(4, 6), 28, vec![header(17, 18, 21, 25)]);
    assert_http_err(walk_request_head(buf, &t), "header value span mismatch");
}

#[test]
fn header_empty_value_is_pinned_at_cr() {
    // `X:` form — CR at 19.
    let buf = b"GET /a HTTP/1.1\r\nX:\r\n\r\n";
    let t = req(span(0, 3), span(4, 6), 23, vec![header(17, 18, 19, 19)]);
    walk_request_head(buf, &t).unwrap();
    // Wrong pin position.
    let t = req(span(0, 3), span(4, 6), 23, vec![header(17, 18, 18, 18)]);
    assert_http_err(walk_request_head(buf, &t), "header value span mismatch");

    // `X: ` form — CR at 20, value still pinned at the CR.
    let buf = b"GET /a HTTP/1.1\r\nX: \r\n\r\n";
    let t = req(span(0, 3), span(4, 6), 24, vec![header(17, 18, 20, 20)]);
    walk_request_head(buf, &t).unwrap();
    // Pinning at the OWS instead of the CR is rejected.
    let t = req(span(0, 3), span(4, 6), 24, vec![header(17, 18, 19, 19)]);
    assert_http_err(walk_request_head(buf, &t), "header value span mismatch");
}

#[test]
fn header_name_rejects_space_before_colon() {
    let buf = b"GET /a HTTP/1.1\r\nHost : x\r\n\r\n";
    let t = req(span(0, 3), span(4, 6), 29, vec![header(17, 21, 24, 25)]);
    assert_http_err(
        walk_request_head(buf, &t),
        "expected colon after header name",
    );
}

#[test]
fn header_name_span_off_by_one_rejected() {
    let mut t = get_table();
    t.headers = vec![header(17, 20, 23, 24)];
    assert_http_err(walk_request_head(GET, &t), "header name span mismatch");
    let mut t = get_table();
    t.headers = vec![header(18, 21, 23, 24)];
    assert_http_err(walk_request_head(GET, &t), "header name span mismatch");
}

#[test]
fn header_rejects_obs_fold() {
    let buf = b"GET /a HTTP/1.1\r\nX: a\r\n b\r\n\r\n";
    let t = req(
        span(0, 3),
        span(4, 6),
        29,
        vec![header(17, 18, 20, 21), header(23, 24, 24, 24)],
    );
    assert_http_err(
        walk_request_head(buf, &t),
        "obs-fold or whitespace before header name",
    );
}

#[test]
fn header_rejects_bare_lf() {
    // Bare LF terminating a header line.
    let buf = b"GET /a HTTP/1.1\r\nX: a\n\r\n";
    let t = req(span(0, 3), span(4, 6), 24, vec![header(17, 18, 20, 21)]);
    assert_http_err(walk_request_head(buf, &t), "invalid byte in header value");
    // Bare CR mid-line (CR not followed by LF).
    let buf = b"GET /a HTTP/1.1\r\nX: a\rb\r\n\r\n";
    let t = req(span(0, 3), span(4, 6), 27, vec![header(17, 18, 20, 21)]);
    assert_http_err(walk_request_head(buf, &t), "expected LF after CR");
}

#[test]
fn header_rejects_control_bytes_in_value() {
    let buf = b"GET /a HTTP/1.1\r\nX: a\0b\r\n\r\n";
    let t = req(span(0, 3), span(4, 6), 27, vec![header(17, 18, 20, 23)]);
    assert_http_err(walk_request_head(buf, &t), "invalid byte in header value");
    let buf = b"GET /a HTTP/1.1\r\nX: a\x7Fb\r\n\r\n";
    let t = req(span(0, 3), span(4, 6), 27, vec![header(17, 18, 20, 23)]);
    assert_http_err(walk_request_head(buf, &t), "invalid byte in header value");
}

#[test]
fn header_accepts_obs_text_value() {
    let buf = b"GET /a HTTP/1.1\r\nX: a\x80\xFFb\r\n\r\n";
    let t = req(span(0, 3), span(4, 6), 28, vec![header(17, 18, 20, 24)]);
    walk_request_head(buf, &t).unwrap();
}

#[test]
fn header_record_bijection_enforced() {
    // Bytes have one header, table has none.
    let mut t = get_table();
    t.headers = vec![];
    assert_http_err(
        walk_request_head(GET, &t),
        "header line without table record",
    );
    // Table has one extra record.
    let mut t = get_table();
    t.headers = vec![header(17, 21, 23, 24), header(17, 21, 23, 24)];
    assert_http_err(walk_request_head(GET, &t), "table has extra header records");
}

#[test]
fn header_collects_framing_facts() {
    let buf = b"POST /a HTTP/1.1\r\nContent-Length: 5\r\n\r\n";
    let t = req(span(0, 4), span(5, 7), 39, vec![header(18, 32, 34, 35)]);
    let head = walk_request_head(buf, &t).unwrap();
    assert_eq!(head.info.content_length, Some(5));
    assert!(!head.info.dup_content_length);

    // Case-insensitive names; chunked TE value.
    let buf = b"POST /a HTTP/1.1\r\ntRANSFER-eNCODING: CHUNKED\r\n\r\n";
    let t = req(span(0, 4), span(5, 7), 48, vec![header(18, 35, 37, 44)]);
    let head = walk_request_head(buf, &t).unwrap();
    assert!(head.info.te_present);
    assert!(head.info.te_chunked);

    // Non-chunked TE value: present but not chunked.
    let buf = b"POST /a HTTP/1.1\r\nTransfer-Encoding: gzip\r\n\r\n";
    let t = req(span(0, 4), span(5, 7), 45, vec![header(18, 35, 37, 41)]);
    let head = walk_request_head(buf, &t).unwrap();
    assert!(head.info.te_present);
    assert!(!head.info.te_chunked);
}

#[test]
fn header_flags_duplicates() {
    let buf = b"GET /a HTTP/1.1\r\nHost: x\r\nhost: y\r\n\r\n";
    let t = req(
        span(0, 3),
        span(4, 6),
        37,
        vec![header(17, 21, 23, 24), header(26, 30, 32, 33)],
    );
    let head = walk_request_head(buf, &t).unwrap();
    assert!(head.info.dup_host);

    let buf = b"GET /a HTTP/1.1\r\nContent-Length: 1\r\nCONTENT-LENGTH: 1\r\n\r\n";
    let t = req(
        span(0, 3),
        span(4, 6),
        57,
        vec![header(17, 31, 33, 34), header(36, 50, 52, 53)],
    );
    let head = walk_request_head(buf, &t).unwrap();
    assert!(head.info.dup_content_length);
}

#[test]
fn header_malformed_content_length_is_immediate_error() {
    for (buf, head_end, ve) in [
        (
            &b"GET /a HTTP/1.1\r\nContent-Length: +5\r\n\r\n"[..],
            39,
            35,
        ),
        (
            &b"GET /a HTTP/1.1\r\nContent-Length: 0x5\r\n\r\n"[..],
            40,
            36,
        ),
        (
            &b"GET /a HTTP/1.1\r\nContent-Length: 5,5\r\n\r\n"[..],
            40,
            36,
        ),
        (
            &b"GET /a HTTP/1.1\r\nContent-Length: 5 5\r\n\r\n"[..],
            40,
            36,
        ),
    ] {
        let t = req(
            span(0, 3),
            span(4, 6),
            head_end,
            vec![header(17, 31, 33, ve)],
        );
        assert_http_err(walk_request_head(buf, &t), "malformed Content-Length value");
    }
    // Empty CL value (pinned at CR).
    let buf = b"GET /a HTTP/1.1\r\nContent-Length:\r\n\r\n";
    let t = req(span(0, 3), span(4, 6), 36, vec![header(17, 31, 32, 32)]);
    assert_http_err(walk_request_head(buf, &t), "malformed Content-Length value");
    // 20-digit CL value.
    let buf = b"GET /a HTTP/1.1\r\nContent-Length: 99999999999999999999\r\n\r\n";
    let t = req(span(0, 3), span(4, 6), 57, vec![header(17, 31, 33, 53)]);
    assert_http_err(walk_request_head(buf, &t), "malformed Content-Length value");
}

#[test]
fn header_caps_at_128_lines() {
    // 129 header lines, each `A: b\r\n` (6 bytes), table listing all of
    // them: rejected on the byte-derived line count.
    let mut buf = Vec::from(&b"GET /a HTTP/1.1\r\n"[..]);
    let mut headers = Vec::new();
    for i in 0..129 {
        let base = 17 + i * 6;
        buf.extend_from_slice(b"A: b\r\n");
        headers.push(header(base, base + 1, base + 3, base + 4));
    }
    buf.extend_from_slice(b"\r\n");
    let head_end = buf.len();

    // 129 records: the table-side cap fires.
    let t = req(span(0, 3), span(4, 6), head_end, headers.clone());
    assert!(matches!(
        walk_request_head(&buf, &t),
        Err(Error::Table {
            reason: "more than 128 header records"
        })
    ));

    // 128 records but 129 byte lines: the line-count cap fires.
    headers.truncate(128);
    let t = req(span(0, 3), span(4, 6), head_end, headers);
    assert!(matches!(
        walk_request_head(&buf, &t),
        Err(Error::Table {
            reason: "more than 128 header lines"
        })
    ));
}

// === walk_response_head ===

const OK_RESP: &[u8] = b"HTTP/1.1 200 OK\r\nHost: x\r\n\r\n";

fn ok_table() -> ResponseSpans {
    resp(span(9, 12), span(13, 15), 28, vec![header(17, 21, 23, 24)])
}

#[test]
fn response_head_happy_path() {
    let head = walk_response_head(OK_RESP, &ok_table()).unwrap();
    assert_eq!(head.head_end, 28);
    assert_eq!(head.status, 200);
    assert_eq!(head.info, ParsedHeadInfo::default());
}

#[test]
fn response_head_no_reason_form() {
    // CRLF directly after the code: empty reason pinned at 12.
    let buf = b"HTTP/1.1 204\r\n\r\n";
    let head = walk_response_head(buf, &resp(span(9, 12), span(12, 12), 16, vec![])).unwrap();
    assert_eq!(head.status, 204);
    // Claiming the pin one byte off is rejected.
    assert_http_err(
        walk_response_head(buf, &resp(span(9, 12), span(13, 13), 16, vec![])),
        "reason span mismatch",
    );
}

#[test]
fn response_head_sp_with_empty_reason() {
    // `SP` then CRLF: empty reason pinned at 13.
    let buf = b"HTTP/1.1 200 \r\n\r\n";
    let head = walk_response_head(buf, &resp(span(9, 12), span(13, 13), 17, vec![])).unwrap();
    assert_eq!(head.status, 200);
    assert_http_err(
        walk_response_head(buf, &resp(span(9, 12), span(12, 12), 17, vec![])),
        "reason span mismatch",
    );
}

#[test]
fn response_head_reason_is_untrimmed() {
    // Reason " OK " (leading/trailing SP after the separator SP).
    let buf = b"HTTP/1.1 200  OK \r\n\r\n";
    walk_response_head(buf, &resp(span(9, 12), span(13, 17), 21, vec![])).unwrap();
    // A trimmed claim is rejected.
    assert_http_err(
        walk_response_head(buf, &resp(span(9, 12), span(14, 16), 21, vec![])),
        "reason span mismatch",
    );
}

#[test]
fn response_head_reason_charset() {
    // obs-text accepted.
    let buf = b"HTTP/1.1 200 O\x80K\r\n\r\n";
    walk_response_head(buf, &resp(span(9, 12), span(13, 16), 20, vec![])).unwrap();
    // NUL rejected: the scan stops at it, so a span covering it can
    // never match, and the derived span fails the CRLF expectation.
    let buf = b"HTTP/1.1 200 O\0K\r\n\r\n";
    assert_http_err(
        walk_response_head(buf, &resp(span(9, 12), span(13, 16), 20, vec![])),
        "reason span mismatch",
    );
    assert_http_err(
        walk_response_head(buf, &resp(span(9, 12), span(13, 14), 20, vec![])),
        "expected CRLF after status line",
    );
    // DEL rejected likewise.
    let buf = b"HTTP/1.1 200 O\x7FK\r\n\r\n";
    assert_http_err(
        walk_response_head(buf, &resp(span(9, 12), span(13, 14), 20, vec![])),
        "expected CRLF after status line",
    );
}

#[test]
fn response_head_rejects_bad_status_line() {
    let table = resp(span(9, 12), span(13, 15), 28, vec![]);
    // Wrong literal/case.
    assert_http_err(
        walk_response_head(b"http/1.1 200 OK\r\n\r\n", &table),
        "expected `HTTP/1.1 `",
    );
    assert_http_err(
        walk_response_head(b"HTTP/1.0 200 OK\r\n\r\n", &table),
        "expected `HTTP/1.1 `",
    );
    // First digit out of 1..=5.
    assert_http_err(
        walk_response_head(b"HTTP/1.1 600 OK\r\n\r\n", &table),
        "status code must start with a digit in 1-5",
    );
    assert_http_err(
        walk_response_head(b"HTTP/1.1 999 OK\r\n\r\n", &table),
        "status code must start with a digit in 1-5",
    );
    assert_http_err(
        walk_response_head(b"HTTP/1.1 099 OK\r\n\r\n", &table),
        "status code must start with a digit in 1-5",
    );
    // Non-digit in the code.
    assert_http_err(
        walk_response_head(b"HTTP/1.1 2x0 OK\r\n\r\n", &table),
        "status code must be 3 digits",
    );
    // Two-digit code: byte 11 is SP.
    assert_http_err(
        walk_response_head(b"HTTP/1.1 20 OK\r\n\r\n", &table),
        "status code must be 3 digits",
    );
    // Four-digit code: byte 12 is a digit, neither SP nor CR, so the
    // reason is pinned empty at 12 and the CRLF expectation fails.
    assert_http_err(
        walk_response_head(
            b"HTTP/1.1 2000\r\n\r\n",
            &resp(span(9, 12), span(12, 12), 17, vec![]),
        ),
        "expected CRLF after status line",
    );
    // Truncated.
    assert_http_err(
        walk_response_head(b"HTTP/1.1 20", &table),
        "truncated status line",
    );
    assert_http_err(walk_response_head(b"", &table), "expected `HTTP/1.1 `");
}

#[test]
fn response_head_rejects_code_span_off_by_one() {
    // "20" instead of "200".
    assert_http_err(
        walk_response_head(OK_RESP, &resp(span(9, 11), span(13, 15), 28, vec![])),
        "status code span mismatch",
    );
    assert_http_err(
        walk_response_head(OK_RESP, &resp(span(10, 12), span(13, 15), 28, vec![])),
        "status code span mismatch",
    );
}

#[test]
fn response_head_rejects_reason_span_off_by_one() {
    assert_http_err(
        walk_response_head(OK_RESP, &resp(span(9, 12), span(13, 14), 28, vec![])),
        "reason span mismatch",
    );
    assert_http_err(
        walk_response_head(OK_RESP, &resp(span(9, 12), span(12, 15), 28, vec![])),
        "reason span mismatch",
    );
    // Swallowing the CR.
    assert_http_err(
        walk_response_head(OK_RESP, &resp(span(9, 12), span(13, 16), 28, vec![])),
        "reason span mismatch",
    );
}

#[test]
fn response_head_walks_headers_like_request() {
    let mut t = ok_table();
    t.headers = vec![];
    assert_http_err(
        walk_response_head(OK_RESP, &t),
        "header line without table record",
    );
    let mut t = ok_table();
    t.head_end = 27;
    assert_http_err(walk_response_head(OK_RESP, &t), "head_end mismatch");
}

// === walk_chunks ===

#[test]
fn chunks_multi_chunk_happy_path() {
    //          0   1    2 34567   8 9
    let buf = b"5\r\nhello\r\n3\r\nfoo\r\n0\r\nrest";
    let out = walk_chunks(buf, 0, 8).unwrap();
    assert_eq!(out.decoded, b"hellofoo");
    assert_eq!(out.trailer_start, 21);
    assert_eq!(
        out.chunk_map,
        vec![
            ChunkMapEntry {
                src_start: 3,
                body_offset: 0,
                len: 5
            },
            ChunkMapEntry {
                src_start: 13,
                body_offset: 5,
                len: 3
            },
        ]
    );
}

#[test]
fn chunks_hex_sizes_both_cases() {
    let buf = b"A\r\n0123456789\r\n0\r\n";
    assert_eq!(walk_chunks(buf, 0, 0).unwrap().decoded, b"0123456789");
    let buf = b"a\r\n0123456789\r\n0\r\n";
    assert_eq!(walk_chunks(buf, 0, 0).unwrap().decoded, b"0123456789");
    // Leading zeros are valid HEXDIG grammar.
    let buf = b"05\r\nhello\r\n0\r\n";
    assert_eq!(walk_chunks(buf, 0, 0).unwrap().decoded, b"hello");
}

#[test]
fn chunks_reject_leading_ows_and_signs() {
    assert_http_err(
        walk_chunks(b" 5\r\nhello\r\n0\r\n", 0, 0),
        "invalid chunk size",
    );
    assert_http_err(
        walk_chunks(b"+5\r\nhello\r\n0\r\n", 0, 0),
        "invalid chunk size",
    );
    assert_http_err(walk_chunks(b"\r\n0\r\n", 0, 0), "invalid chunk size");
    assert_http_err(walk_chunks(b"", 0, 0), "invalid chunk size");
    // Start past the end of the buffer.
    assert_http_err(walk_chunks(b"5\r\n", 9, 0), "invalid chunk size");
}

#[test]
fn chunks_reject_seventeen_hexdigits() {
    assert_http_err(
        walk_chunks(b"00000000000000005\r\nhello\r\n0\r\n", 0, 0),
        "invalid chunk size",
    );
}

#[test]
fn chunks_extension_grammar() {
    // Plain extension accepted.
    let buf = b"5;name=val\r\nhello\r\n0\r\n";
    assert_eq!(walk_chunks(buf, 0, 0).unwrap().decoded, b"hello");
    // BWS before the semicolon accepted; on the terminal chunk too.
    let buf = b"5 ;ext\r\nhello\r\n0;last\r\n";
    assert_eq!(walk_chunks(buf, 0, 0).unwrap().decoded, b"hello");
    // Trailing OWS with no extension accepted.
    let buf = b"5 \r\nhello\r\n0\r\n";
    assert_eq!(walk_chunks(buf, 0, 0).unwrap().decoded, b"hello");
    // First non-OWS byte after the size must be `;`.
    assert_http_err(
        walk_chunks(b"5 x\r\nhello\r\n0\r\n", 0, 0),
        "invalid chunk extension",
    );
    // A CR inside the extension breaks the CRLF expectation.
    assert_http_err(
        walk_chunks(b"5;e\rx\nhello\r\n0\r\n", 0, 0),
        "expected CRLF after chunk size",
    );
    // Bare LF terminating the size line.
    assert_http_err(
        walk_chunks(b"5\nhello\r\n0\r\n", 0, 0),
        "expected CRLF after chunk size",
    );
    // NUL in the extension.
    assert_http_err(
        walk_chunks(b"5;a\0b\r\nhello\r\n0\r\n", 0, 0),
        "expected CRLF after chunk size",
    );
}

#[test]
fn chunks_reject_missing_crlf_after_data() {
    assert_http_err(
        walk_chunks(b"5\r\nhelloX\r\n0\r\n", 0, 0),
        "expected CRLF after chunk data",
    );
    // Data shorter than the size: the length-prefixed window swallows
    // the would-be terminator, so the walk runs off the end.
    assert_http_err(walk_chunks(b"5\r\nhi\r\n0\r\n", 0, 0), "invalid chunk size");
}

#[test]
fn chunks_reject_size_beyond_buffer() {
    assert_http_err(
        walk_chunks(b"ff\r\nhi\r\n", 0, 0),
        "chunk data exceeds buffer",
    );
}

#[test]
fn chunks_reject_sum_over_cap() {
    // 2^30 exactly is allowed by the cap (data bounds then reject).
    assert_http_err(
        walk_chunks(b"40000000\r\nhi\r\n", 0, 0),
        "chunk data exceeds buffer",
    );
    // 2^30 + 1 trips the cap before any data is read.
    assert_http_err(
        walk_chunks(b"40000001\r\nhi\r\n", 0, 0),
        "chunked body exceeds 2^30 bytes",
    );
    // u64::MAX as a single size trips the cap, not an overflow panic.
    assert_http_err(
        walk_chunks(b"ffffffffffffffff\r\nhi\r\n", 0, 0),
        "chunked body exceeds 2^30 bytes",
    );
}

#[test]
fn chunks_capacity_hint_does_not_affect_acceptance() {
    let buf = b"5\r\nhello\r\n0\r\n";
    assert_eq!(
        walk_chunks(buf, 0, 0).unwrap(),
        walk_chunks(buf, 0, 1_000).unwrap()
    );
}

// === walk_trailers ===

#[test]
fn trailers_empty_section() {
    let buf = b"0\r\n\r\nX";
    assert_eq!(walk_trailers(buf, 3, &[]), Ok(5));
    // Truncated: no final CRLF.
    assert_http_err(walk_trailers(b"0\r\n", 3, &[]), "truncated trailer section");
    assert_http_err(walk_trailers(b"0\r\n\r", 3, &[]), "expected LF after CR");
}

#[test]
fn trailers_single_trailer() {
    //          0123456 789       0
    let buf = b"X-Sum: abc\r\n\r\n";
    let expected = [header(0, 5, 7, 10)];
    assert_eq!(walk_trailers(buf, 0, &expected), Ok(14));
    // Value span off by one.
    let expected = [header(0, 5, 7, 9)];
    assert_http_err(
        walk_trailers(buf, 0, &expected),
        "header value span mismatch",
    );
}

#[test]
fn trailers_lockstep_bijection() {
    let buf = b"X-Sum: abc\r\n\r\n";
    assert_http_err(
        walk_trailers(buf, 0, &[]),
        "trailer line without table record",
    );
    let expected = [header(0, 5, 7, 10), header(0, 5, 7, 10)];
    assert_http_err(
        walk_trailers(buf, 0, &expected),
        "table has extra trailer records",
    );
}

#[test]
fn trailers_reject_restricted_names() {
    for buf in [
        &b"Content-Length: 3\r\n\r\n"[..],
        &b"content-length: 3\r\n\r\n"[..],
        &b"CONTENT-LENGTH: 3\r\n\r\n"[..],
    ] {
        let expected = [header(0, 14, 16, 17)];
        assert_http_err(walk_trailers(buf, 0, &expected), "restricted trailer name");
    }
    let buf = b"Transfer-Encoding: chunked\r\n\r\n";
    let expected = [header(0, 17, 19, 26)];
    assert_http_err(walk_trailers(buf, 0, &expected), "restricted trailer name");
    let buf = b"Host: x\r\n\r\n";
    let expected = [header(0, 4, 6, 7)];
    assert_http_err(walk_trailers(buf, 0, &expected), "restricted trailer name");
}

#[test]
fn trailers_cap_at_128_lines() {
    let mut buf = Vec::new();
    let mut expected = Vec::new();
    for i in 0..129 {
        let base = i * 6;
        buf.extend_from_slice(b"A: b\r\n");
        expected.push(header(base, base + 1, base + 3, base + 4));
    }
    buf.extend_from_slice(b"\r\n");

    // Record-side cap.
    assert!(matches!(
        walk_trailers(&buf, 0, &expected),
        Err(Error::Table {
            reason: "more than 128 trailer records"
        })
    ));
    // Byte-line cap with 128 records.
    expected.truncate(128);
    assert!(matches!(
        walk_trailers(&buf, 0, &expected),
        Err(Error::Table {
            reason: "more than 128 trailer lines"
        })
    ));
}

// === error values ===

#[test]
fn chunk_errors_name_their_position() {
    let http = |at: u32, reason: &'static str| Err(Error::Http { at, reason });
    // No hex digits, whatever the hint.
    assert_eq!(walk_chunks(b"zz\r\n", 0, 0), http(0, "invalid chunk size"));
    assert_eq!(walk_chunks(b"zz\r\n", 0, 64), http(0, "invalid chunk size"));
    // Data runs past the buffer: reported at the first data byte.
    assert_eq!(walk_chunks(b"5\r\nabc", 0, 0), http(3, "chunk data exceeds buffer"));
    // Data not followed by CRLF: reported where the CRLF should be.
    assert_eq!(
        walk_chunks(b"3\r\nabcX\r\n0\r\n\r\n", 0, 7),
        http(6, "expected CRLF after chunk data")
    );
    // The second chunk's size line is bad: reported at its start.
    assert_eq!(walk_chunks(b"1\r\na\r\nq\r\n", 0, 1), http(6, "invalid chunk size"));
}

#[test]
fn header_walk_errors_name_their_position() {
    let buf: &[u8] = b"GET / HTTP/1.1\r\nHost x\r\n\r\n";
    let table = req(span(0, 3), span(4, 5), 26, vec![header(16, 20, 21, 22)]);
    assert_eq!(
        walk_request_head(buf, &table),
        Err(Error::Http { at: 20, reason: "expected colon after header name" })
    );
    let buf: &[u8] = b"GET / HTTP/1.1\r\n\r\n";
    let table = req(span(0, 3), span(4, 5), 18, vec![header(16, 20, 21, 22)]);
    assert_eq!(
        walk_request_head(buf, &table),
        Err(Error::Http { at: 18, reason: "table has extra header records" })
    );
}

#[test]
fn status_line_errors_name_their_position() {
    let table = resp(span(9, 12), span(13, 15), 19, vec![]);
    assert_eq!(
        walk_response_head(b"HTTP/1.1 2x0 OK\r\n\r\n", &table),
        Err(Error::Http { at: 10, reason: "status code must be 3 digits" })
    );
    assert_eq!(
        walk_response_head(b"HTTP/1.1 20", &table),
        Err(Error::Http { at: 11, reason: "truncated status line" })
    );
}

#[test]
fn chunk_map_runs_rebuild_the_body() {
    let buf = b"5\r\nhello\r\n6;x=1\r\n world\r\n0\r\n\r\n";
    let out = walk_chunks(buf, 0, 0).unwrap();
    let mut rebuilt = Vec::new();
    let mut offset = 0u32;
    for e in &out.chunk_map {
        assert!(e.len > 0);
        assert_eq!(e.body_offset, offset);
        offset += e.len;
        rebuilt.extend_from_slice(&buf[e.src_start as usize..(e.src_start + e.len) as usize]);
    }
    assert_eq!(rebuilt, out.decoded);
    assert_eq!(out.decoded, b"hello world");
    assert!(0 < out.trailer_start && out.trailer_start <= buf.len());
    assert_eq!(out.trailer_start, buf.len() - 2);
}
