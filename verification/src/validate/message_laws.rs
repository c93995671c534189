//! What a validated transcript guarantees of its header records, its body
//! records and the framing between them.
use vstd::prelude::*;

use crate::spans::{Framing, HeaderSpan, SpanTable};
use crate::validate::http::{
    ascii_ci_eq, cl_values_ok, head_facts, name_content_length, name_host, name_transfer_encoding,
    span_bytes, spec_parse_dec, header_line_ok, lemma_ows_end, lemma_tchar_end, lemma_value_end, ows_end, record_matches,
    scanned_line, section_end, spec_ows, spec_tchar, spec_value_byte, tchar_end, trim_ows_end,
    value_end, MAX_HEADER_LINES, reason_span, chunk_sources, chunk_walk, lemma_chunk_walk_map, map_runs,
    no_restricted_trailers, spec_request_head, spec_response_head, target_end,
};
use crate::validate::{
    bodiless_status, norm_framing, spec_body, spec_request_body, spec_request_framing,
    spec_response_body, spec_response_framing, validates,
    tag_matches, DerivedFraming, MAX_BUF_LEN,
};
use crate::spans::BodySpans;
use crate::transcript::ChunkMapEntry;

verus! {

/// The record's name is a non-empty run of token bytes inside `[lo, hi)`,
/// followed by `:`.
pub open spec fn name_well_formed(buf: Seq<u8>, h: HeaderSpan, lo: int, hi: int) -> bool {
    &&& lo <= h.name.start < h.name.end < hi
    &&& hi <= buf.len()
    &&& forall|i: int| h.name.start <= i < h.name.end ==> spec_tchar(#[trigger] buf[i])
    &&& buf[h.name.end as int] == 0x3A
}

/// The record's value lies after the name's colon inside `[lo, hi)`, holds
/// only field-value bytes, and neither starts nor ends with whitespace.
pub open spec fn value_well_formed(buf: Seq<u8>, h: HeaderSpan, lo: int, hi: int) -> bool {
    &&& lo <= h.name.end < h.value.start <= h.value.end < hi
    &&& hi <= buf.len()
    &&& forall|i: int| h.value.start <= i < h.value.end ==> spec_value_byte(#[trigger] buf[i])
    &&& h.value.start < h.value.end ==> !spec_ows(buf[h.value.start as int]) && !spec_ows(
        buf[h.value.end - 1],
    )
}

/// The record describes a well-formed header line inside `[lo, hi)`.
pub open spec fn record_well_formed(buf: Seq<u8>, h: HeaderSpan, lo: int, hi: int) -> bool {
    name_well_formed(buf, h, lo, hi) && value_well_formed(buf, h, lo, hi)
}

/// Trimming OWS from the end of `[lo, hi)` stops inside it, at a byte that
/// is not OWS (or at `lo`).
proof fn lemma_trim_ows_end(buf: Seq<u8>, lo: int, hi: int)
    requires
        lo <= hi,
    ensures
        lo <= trim_ows_end(buf, lo, hi) <= hi,
        trim_ows_end(buf, lo, hi) > lo ==> !spec_ows(buf[trim_ows_end(buf, lo, hi) - 1]),
    decreases hi - lo,
{
    if hi > lo && spec_ows(buf[hi - 1]) {
        lemma_trim_ows_end(buf, lo, hi - 1);
    }
}

/// The record that holds a well-formed line at `p` describes it, and the
/// line ends past its value.
proof fn lemma_line_record(buf: Seq<u8>, p: int, h: HeaderSpan)
    requires
        buf.len() <= MAX_BUF_LEN,
        header_line_ok(buf, p),
        record_matches(h, scanned_line(buf, p)),
    ensures
        record_well_formed(buf, h, p, scanned_line(buf, p).line_end - 2 + 1),
        scanned_line(buf, p).line_end <= buf.len(),
{
    let ne = tchar_end(buf, p);
    lemma_tchar_end(buf, p);
    let vs = ows_end(buf, ne + 1);
    lemma_ows_end(buf, ne + 1);
    let q = value_end(buf, vs);
    lemma_value_end(buf, vs);
    let te = trim_ows_end(buf, vs, q);
    lemma_trim_ows_end(buf, vs, q);
    assert forall|i: int| vs <= i < te implies spec_value_byte(#[trigger] buf[i]) by {}
}

/// Every record of a header section that `recs` describe describes a
/// well-formed line of the section, and each line starts after the one
/// before it.
pub proof fn lemma_section_records(buf: Seq<u8>, p: int, recs: Seq<HeaderSpan>)
    requires
        buf.len() <= MAX_BUF_LEN,
        section_end(buf, p, recs) is Some,
    ensures
        forall|j: int| 0 <= j < recs.len() ==> record_well_formed(
            buf,
            #[trigger] recs[j],
            p,
            section_end(buf, p, recs)->0 - 2,
        ),
        forall|j: int, k: int| 0 <= j < k < recs.len() ==> (#[trigger] recs[j]).value.end < (
        #[trigger] recs[k]).name.start,
        p + 2 <= section_end(buf, p, recs)->0 <= buf.len(),
    decreases recs.len(),
{
    crate::validate::http::lemma_section_end_bounds(buf, p, recs);
    if recs.len() > 0 {
        let line = scanned_line(buf, p);
        let rest = recs.drop_first();
        let e = section_end(buf, p, recs)->0;
        lemma_line_record(buf, p, recs[0]);
        lemma_section_records(buf, line.line_end as int, rest);
        assert forall|j: int| 0 <= j < recs.len() implies record_well_formed(
            buf,
            #[trigger] recs[j],
            p,
            e - 2,
        ) by {
            if j > 0 {
                assert(recs[j] == rest[j - 1]);
            }
        }
        assert forall|j: int, k: int| 0 <= j < k < recs.len() implies (#[trigger] recs[j]).value.end < (
        #[trigger] recs[k]).name.start by {
            assert(recs[k] == rest[k - 1]);
            if j > 0 {
                assert(recs[j] == rest[j - 1]);
            }
        }
    }
}

/// The record's name reads as `name`, ASCII case-insensitively.
pub open spec fn named(buf: Seq<u8>, h: HeaderSpan, name: Seq<u8>) -> bool {
    ascii_ci_eq(span_bytes(buf, h.name), name)
}

/// Some record is named `name`.
pub open spec fn has_named(buf: Seq<u8>, recs: Seq<HeaderSpan>, name: Seq<u8>) -> bool {
    exists|j: int| 0 <= j < recs.len() && #[trigger] named(buf, recs[j], name)
}

/// No two records are named `name`.
pub open spec fn at_most_once(buf: Seq<u8>, recs: Seq<HeaderSpan>, name: Seq<u8>) -> bool {
    forall|i: int, j: int|
        0 <= i < j < recs.len() && #[trigger] named(buf, recs[i], name) ==> !#[trigger] named(
            buf,
            recs[j],
            name,
        )
}

/// What the framing facts of the records say of the records themselves:
/// a `Transfer-Encoding` or `Host` fact holds exactly when such a record
/// exists; a `Content-Length` value is the value of such a record, and one
/// exists exactly when the values parse; and a record occurs at most once
/// when its duplicate flag is clear.
pub proof fn lemma_head_facts_named(buf: Seq<u8>, recs: Seq<HeaderSpan>)
    ensures
        ({
            let (info, host_seen) = head_facts(buf, recs);
            &&& info.te_present <==> has_named(buf, recs, name_transfer_encoding())
            &&& info.te_chunked ==> info.te_present
            &&& host_seen <==> has_named(buf, recs, name_host())
            &&& info.content_length matches Some(n) ==> exists|j: int|
                0 <= j < recs.len() && #[trigger] named(buf, recs[j], name_content_length())
                    && spec_parse_dec(span_bytes(buf, recs[j].value)) == Some(n)
            &&& cl_values_ok(buf, recs) && has_named(buf, recs, name_content_length())
                ==> info.content_length is Some
            &&& cl_values_ok(buf, recs) && !info.dup_content_length ==> at_most_once(
                buf,
                recs,
                name_content_length(),
            )
            &&& !info.dup_transfer_encoding ==> at_most_once(buf, recs, name_transfer_encoding())
            &&& !info.dup_host ==> at_most_once(buf, recs, name_host())
        }),
    decreases recs.len(),
{
    if recs.len() > 0 {
        let init = recs.drop_last();
        let n = recs.len() - 1;
        let last = recs[n];
        assert(recs.last() == last);
        lemma_head_facts_named(buf, init);
        assert forall|j: int| 0 <= j < init.len() implies #[trigger] init[j] == recs[j] by {}
        assert(cl_values_ok(buf, recs) ==> cl_values_ok(buf, init)) by {
            if cl_values_ok(buf, recs) {
                assert forall|j: int|
                    0 <= j < init.len() && ascii_ci_eq(
                        span_bytes(buf, #[trigger] init[j].name),
                        name_content_length(),
                    ) implies spec_parse_dec(span_bytes(buf, init[j].value)) is Some by {
                    assert(init[j] == recs[j]);
                }
            }
        }
        let names = seq![name_content_length(), name_transfer_encoding(), name_host()];
        assert forall|k: int| 0 <= k < 3 implies (has_named(buf, recs, #[trigger] names[k]) <==> (
        has_named(buf, init, names[k]) || named(buf, last, names[k]))) by {
            let nm = names[k];
            if has_named(buf, recs, nm) {
                let j = choose|j: int| 0 <= j < recs.len() && #[trigger] named(buf, recs[j], nm);
                if j < n {
                    assert(named(buf, init[j], nm));
                }
            }
            if has_named(buf, init, nm) {
                let j = choose|j: int| 0 <= j < init.len() && #[trigger] named(buf, init[j], nm);
                assert(named(buf, recs[j], nm));
            }
            if named(buf, last, nm) {
                assert(named(buf, recs[n], nm));
            }
        }
        assert forall|k: int| 0 <= k < 3 implies (at_most_once(buf, recs, #[trigger] names[k]) <== (
        at_most_once(buf, init, names[k]) && !(has_named(buf, init, names[k]) && named(
            buf,
            last,
            names[k],
        )))) by {
            let nm = names[k];
            if at_most_once(buf, init, nm) && !(has_named(buf, init, nm) && named(buf, last, nm)) {
                assert forall|i: int, j: int|
                    0 <= i < j < recs.len() && #[trigger] named(buf, recs[i], nm) implies !#[trigger] named(
                    buf,
                    recs[j],
                    nm,
                ) by {
                    assert(named(buf, init[i], nm));
                    if j < n {
                        assert(init[j] == recs[j]);
                    } else {
                        assert(has_named(buf, init, nm));
                    }
                }
            }
        }
        assert(names[0] == name_content_length());
        assert(names[1] == name_transfer_encoding());
        assert(names[2] == name_host());
        // the three names differ in length, so no record has two of them
        let ln = span_bytes(buf, last.name);
        if named(buf, last, name_content_length()) {
            assert(spec_parse_dec(span_bytes(buf, recs[n].value)) == spec_parse_dec(
                span_bytes(buf, last.value),
            ));
            assert(named(buf, recs[n], name_content_length()));
        }
        let (info0, _) = head_facts(buf, init);
        if info0.content_length is Some && !named(buf, last, name_content_length()) {
            let j = choose|j: int|
                0 <= j < init.len() && #[trigger] named(buf, init[j], name_content_length())
                    && spec_parse_dec(span_bytes(buf, init[j].value)) == info0.content_length;
            assert(named(buf, recs[j], name_content_length()));
        }
        if cl_values_ok(buf, recs) && named(buf, last, name_content_length()) {
            assert(named(buf, recs[n], name_content_length()));
        }
    }
}

/// Where the request's header section starts: after the request line.
pub open spec fn request_headers_start(sent: Seq<u8>) -> int {
    target_end(sent, tchar_end(sent, 0) + 1) + 11
}

/// Where the response's header section starts: after the status line.
pub open spec fn response_headers_start(recv: Seq<u8>) -> int {
    reason_span(recv).1 + 2
}

/// The record's value is a positive decimal number.
pub open spec fn positive_value(buf: Seq<u8>, h: HeaderSpan) -> bool {
    spec_parse_dec(span_bytes(buf, h.value)) matches Some(n) && n > 0
}

/// Some record is named `Content-Length` with a positive value.
pub open spec fn positive_length(buf: Seq<u8>, recs: Seq<HeaderSpan>) -> bool {
    exists|j: int|
        0 <= j < recs.len() && #[trigger] named(buf, recs[j], name_content_length()) && positive_value(
            buf,
            recs[j],
        )
}

/// The records of a header section, with the facts the framing rules
/// demand: each line is well-formed and inside the head; they follow one
/// another; there are at most 128; and `Content-Length`,
/// `Transfer-Encoding` and `Host` each occur at most once.
pub open spec fn head_records_ok(buf: Seq<u8>, hs: int, he: int, recs: Seq<HeaderSpan>) -> bool {
    &&& section_end(buf, hs, recs) == Some(he)
    &&& recs.len() <= MAX_HEADER_LINES
    &&& forall|j: int| 0 <= j < recs.len() ==> record_well_formed(buf, #[trigger] recs[j], hs, he - 2)
    &&& forall|j: int, k: int| 0 <= j < k < recs.len() ==> (#[trigger] recs[j]).value.end < (
    #[trigger] recs[k]).name.start
    &&& at_most_once(buf, recs, name_content_length())
    &&& at_most_once(buf, recs, name_transfer_encoding())
    &&& at_most_once(buf, recs, name_host())
}

/// The `Content-Length` fact of valid records is the positive value of
/// their one such record, if any.
proof fn lemma_length_fact(buf: Seq<u8>, recs: Seq<HeaderSpan>)
    requires
        cl_values_ok(buf, recs),
        !head_facts(buf, recs).0.dup_content_length,
    ensures
        (head_facts(buf, recs).0.content_length matches Some(n) && n > 0) <==> positive_length(buf, recs),
{
    lemma_head_facts_named(buf, recs);
    let info = head_facts(buf, recs).0;
    if positive_length(buf, recs) {
        let j = choose|j: int|
            0 <= j < recs.len() && #[trigger] named(buf, recs[j], name_content_length()) && positive_value(
                buf,
                recs[j],
            );
        assert(has_named(buf, recs, name_content_length()));
        let n = info.content_length->0;
        let j2 = choose|j2: int|
            0 <= j2 < recs.len() && #[trigger] named(buf, recs[j2], name_content_length())
                && spec_parse_dec(span_bytes(buf, recs[j2].value)) == Some(n);
        if j < j2 {
            assert(!named(buf, recs[j2], name_content_length()));
        } else if j2 < j {
            assert(!named(buf, recs[j], name_content_length()));
        }
    }
}

/// A body section that validates has a record exactly when the framing
/// yields a body, and the record's tag is that framing's.
proof fn lemma_body_presence(buf: Seq<u8>, he: int, f: DerivedFraming, body: Option<BodySpans>)
    requires
        spec_body(buf, he, f, body) is Some,
    ensures
        body is Some <==> norm_framing(f) != DerivedFraming::NoBody,
        body matches Some(b) ==> tag_matches(norm_framing(f), b.framing),
{
}

/// What a validated request guarantees: its header records are exactly
/// the header lines of its head, in order (see [`head_records_ok`]); and it
/// has a body record exactly when a `Transfer-Encoding` header or a
/// positive `Content-Length` is present, never one delimited by the end of
/// the buffer.
pub proof fn law_request_records(sent: Seq<u8>, recv: Seq<u8>, t: SpanTable)
    requires
        validates(sent, recv, t),
    ensures
        head_records_ok(sent, request_headers_start(sent), t.request.head_end as int, t.request.headers@),
        t.request.body is Some <==> (has_named(sent, t.request.headers@, name_transfer_encoding())
            || positive_length(sent, t.request.headers@)),
        t.request.body matches Some(b) ==> b.framing != Framing::Close,
{
    let recs = t.request.headers@;
    let hs = request_headers_start(sent);
    assert(spec_request_head(sent, t.request) is Some);
    lemma_section_records(sent, hs, recs);
    lemma_head_facts_named(sent, recs);
    let info = head_facts(sent, recs).0;
    let f = spec_request_framing(info)->0;
    lemma_length_fact(sent, recs);
    assert(spec_body(sent, t.request.head_end as int, f, t.request.body) is Some);
    lemma_body_presence(sent, t.request.head_end as int, f, t.request.body);
    if info.te_present {
        assert(f == DerivedFraming::Chunked);
    } else if let Some(n) = info.content_length {
        assert(f == DerivedFraming::ContentLength(n as u32));
    } else {
        assert(f == DerivedFraming::NoBody);
    }
}

/// What a validated response guarantees: its header records are exactly
/// the header lines of its head, in order (see [`head_records_ok`]); a
/// response to `HEAD`, or with a 1xx, 204 or 304 status, has no body
/// record; and a body record's framing is chunked exactly when a
/// `Transfer-Encoding` header is present, by `Content-Length` exactly when
/// a positive `Content-Length` is, and by the end of the buffer exactly
/// when neither header is present.
#[verifier::rlimit(40)]
pub proof fn law_response_records(sent: Seq<u8>, recv: Seq<u8>, t: SpanTable)
    requires
        validates(sent, recv, t),
    ensures
        head_records_ok(recv, response_headers_start(recv), t.response.head_end as int, t.response.headers@),
        ({
            let rq = spec_request_head(sent, t.request)->0;
            let rs = spec_response_head(recv, t.response)->0;
            (rq.method_is_head || bodiless_status(rs.status)) ==> t.response.body is None
        }),
        t.response.body matches Some(b) ==> {
            let recs = t.response.headers@;
            &&& (b.framing == Framing::Chunked <==> has_named(recv, recs, name_transfer_encoding()))
            &&& (b.framing == Framing::ContentLength <==> positive_length(recv, recs))
            &&& (b.framing == Framing::Close <==> (!has_named(recv, recs, name_transfer_encoding())
                && !has_named(recv, recs, name_content_length())))
        },
{
    let recs = t.response.headers@;
    let hs = response_headers_start(recv);
    assert(spec_request_head(sent, t.request) is Some);
    assert(spec_response_head(recv, t.response) is Some);
    lemma_section_records(recv, hs, recs);
    lemma_head_facts_named(recv, recs);
    let info = head_facts(recv, recs).0;
    let rq = spec_request_head(sent, t.request)->0;
    let rs = spec_response_head(recv, t.response)->0;
    let f = spec_response_framing(rq.method_is_head, rs.status, info, recv.len() > rs.head_end)->0;
    lemma_length_fact(recv, recs);
    assert(spec_body(recv, t.response.head_end as int, f, t.response.body) is Some);
    lemma_body_presence(recv, t.response.head_end as int, f, t.response.body);
    if rq.method_is_head || bodiless_status(rs.status) {
        assert(f == DerivedFraming::NoBody);
    } else if info.te_present {
        assert(f == DerivedFraming::Chunked);
    } else if let Some(n) = info.content_length {
        assert(f == DerivedFraming::ContentLength(n as u32));
        assert(has_named(recv, recs, name_content_length()));
    } else {
        assert(cl_values_ok(recv, recs));
        assert(!has_named(recv, recs, name_content_length()));
    }
}

/// What a body record says of its body `c` (the decoded bytes and chunk
/// map): the raw span runs from the end of the head to the end of the
/// buffer and the decoded length is the content's. A body not chunked is
/// the raw bytes themselves, with no chunk map and no trailers. A chunked
/// body is the source bytes of its chunk runs, in order, the runs non-empty
/// and following one another from offset 0; its trailer records are
/// exactly the trailer lines after the chunks, in order, at most 128, each
/// well-formed, none named `Content-Length`, `Transfer-Encoding` or `Host`.
pub open spec fn body_facts(buf: Seq<u8>, he: int, b: BodySpans, c: (Seq<u8>, Seq<ChunkMapEntry>)) -> bool {
    &&& b.raw.start == he && b.raw.end == buf.len()
    &&& c.0.len() == b.content_len
    &&& b.framing != Framing::Chunked ==> {
        &&& c.0 == span_bytes(buf, b.raw)
        &&& c.1.len() == 0
        &&& b.trailers@.len() == 0
    }
    &&& b.framing == Framing::Chunked ==> {
        let ts = (chunk_walk(buf, he, 0)->0).2;
        &&& c.0 == chunk_sources(buf, c.1)
        &&& map_runs(c.1, 0)
        &&& he < ts
        &&& section_end(buf, ts, b.trailers@) == Some(buf.len() as int)
        &&& b.trailers@.len() <= MAX_HEADER_LINES
        &&& no_restricted_trailers(buf, b.trailers@)
        &&& forall|j: int|
            0 <= j < b.trailers@.len() ==> record_well_formed(buf, #[trigger] b.trailers@[j], ts, buf.len() - 2)
    }
}

/// A body section that validates against its record has the facts of
/// [`body_facts`].
pub proof fn law_body_record(buf: Seq<u8>, he: int, f: DerivedFraming, b: BodySpans)
    requires
        buf.len() <= MAX_BUF_LEN,
        0 <= he,
        spec_body(buf, he, f, Some(b)) matches Some(Some(c)),
    ensures
        body_facts(buf, he, b, spec_body(buf, he, f, Some(b))->0->0),
{
    if b.framing == Framing::Chunked {
        lemma_chunk_walk_map(buf, he, 0);
        let ts = (chunk_walk(buf, he, 0)->0).2;
        lemma_section_records(buf, ts, b.trailers@);
    }
}

/// Each body of a validated transcript has the facts of [`body_facts`]
/// against its record, past the end of its message's head.
pub proof fn law_validated_bodies(sent: Seq<u8>, recv: Seq<u8>, t: SpanTable)
    requires
        validates(sent, recv, t),
    ensures
        t.request.body matches Some(b) ==> spec_request_body(sent, t) matches Some(Some(c)) && body_facts(
            sent,
            t.request.head_end as int,
            b,
            c,
        ),
        t.response.body matches Some(b) ==> spec_response_body(sent, recv, t) matches Some(Some(c))
            && body_facts(recv, t.response.head_end as int, b, c),
{
    let rh = spec_request_head(sent, t.request)->0;
    let rf = spec_request_framing(rh.info)->0;
    assert(spec_request_head(sent, t.request) is Some);
    assert(spec_response_head(recv, t.response) is Some);
    lemma_body_presence(sent, rh.head_end as int, rf, t.request.body);
    if let Some(b) = t.request.body {
        law_body_record(sent, rh.head_end as int, rf, b);
    }
    let sh = spec_response_head(recv, t.response)->0;
    let sf = spec_response_framing(rh.method_is_head, sh.status, sh.info, recv.len() > sh.head_end)->0;
    lemma_body_presence(recv, sh.head_end as int, sf, t.response.body);
    if let Some(b) = t.response.body {
        law_body_record(recv, sh.head_end as int, sf, b);
    }
}

} // verus!
