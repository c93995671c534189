//! What holds of every table that validates.
use vstd::prelude::*;

use crate::spans::{BodySpans, Framing, HeaderSpan, Span, SpanTable};
use crate::transcript::ChunkMapEntry;
use crate::validate::http::{
    dec_value, span_bytes, header_line_ok, lemma_tchar_end, lemma_value_end, scanned_line, section_end, spec_request_head,
    spec_response_head, spec_target_byte, spec_tchar, spec_value_byte, target_end,
};
use crate::validate::{
    bodiless_status, DerivedFraming, norm_framing, spec_body, spec_request_body, spec_request_framing,
    spec_response_body, spec_response_framing, tag_matches, validates,
};

verus! {

/// The parts of a body record the bytes pin down: the framing tag, the raw
/// extent, the decoded length and the trailer lines (not the JSON claim).
pub open spec fn body_shape(b: Option<BodySpans>) -> Option<(Framing, Span, u32, Seq<HeaderSpan>)> {
    match b {
        None => None,
        Some(b) => Some((b.framing, b.raw, b.content_len, b.trailers@)),
    }
}

/// Two tables describe the same HTTP parse: they agree on every field but
/// the bodies' JSON claims.
pub open spec fn same_http_parse(t1: SpanTable, t2: SpanTable) -> bool {
    &&& t1.version == t2.version
    &&& t1.request.method == t2.request.method
    &&& t1.request.target == t2.request.target
    &&& t1.request.head_end == t2.request.head_end
    &&& t1.request.headers@ == t2.request.headers@
    &&& body_shape(t1.request.body) == body_shape(t2.request.body)
    &&& t1.response.code == t2.response.code
    &&& t1.response.reason == t2.response.reason
    &&& t1.response.head_end == t2.response.head_end
    &&& t1.response.headers@ == t2.response.headers@
    &&& body_shape(t1.response.body) == body_shape(t2.response.body)
}

/// A header section is described by exactly one sequence of records.
pub proof fn lemma_section_unique(buf: Seq<u8>, p: int, r1: Seq<HeaderSpan>, r2: Seq<HeaderSpan>)
    requires
        section_end(buf, p, r1) is Some,
        section_end(buf, p, r2) is Some,
    ensures
        r1 == r2,
    decreases r1.len(),
{
    if r1.len() == 0 || r2.len() == 0 {
        if r1.len() != r2.len() {
            // a blank line starts with CR, a header line with a token byte
            let recs = if r1.len() == 0 { r2 } else { r1 };
            assert(header_line_ok(buf, p));
            lemma_tchar_end(buf, p);
            assert(crate::validate::http::spec_tchar(buf[p]));
            assert(buf[p] == 0x0D);
            assert(false);
        }
        assert(r1 =~= r2);
    } else {
        let h = scanned_line(buf, p);
        assert(r1[0].name == r2[0].name);
        assert(r1[0].value == r2[0].value);
        lemma_section_unique(buf, h.line_end as int, r1.drop_first(), r2.drop_first());
        assert(r1 =~= seq![r1[0]] + r1.drop_first());
        assert(r2 =~= seq![r2[0]] + r2.drop_first());
    }
}

/// The body section pins down every field of its record but the JSON claim.
proof fn lemma_body_unique(
    buf: Seq<u8>,
    head_end: int,
    d: DerivedFraming,
    b1: Option<BodySpans>,
    b2: Option<BodySpans>,
)
    requires
        spec_body(buf, head_end, d, b1) is Some,
        spec_body(buf, head_end, d, b2) is Some,
    ensures
        body_shape(b1) == body_shape(b2),
        spec_body(buf, head_end, d, b1) == spec_body(buf, head_end, d, b2),
{
    let nd = norm_framing(d);
    if nd != DerivedFraming::NoBody {
        let (x, y) = (b1->0, b2->0);
        assert(tag_matches(nd, x.framing) && tag_matches(nd, y.framing));
        assert(x.framing == y.framing);
        if x.framing == Framing::Chunked {
            let w = crate::validate::http::chunk_walk(buf, head_end, 0)->0;
            lemma_section_unique(buf, w.2, x.trailers@, y.trailers@);
        } else {
            assert(x.trailers@ =~= y.trailers@);
        }
    }
}

/// Two body records that both claim JSON claim the same node table.
pub open spec fn json_claims_agree(b1: Option<BodySpans>, b2: Option<BodySpans>) -> bool {
    match (b1, b2) {
        (Some(x), Some(y)) => (x.json is Some && y.json is Some) ==> x.json->0.nodes@ == y.json->0.nodes@,
        _ => true,
    }
}

/// For fixed bytes, at most one table validates: every span, offset,
/// length and header record is pinned down by the bytes, and a body's JSON
/// node table, when claimed, by the body. Only whether a body is claimed as
/// JSON may differ.
pub proof fn law_validated_table_unique(sent: Seq<u8>, recv: Seq<u8>, t1: SpanTable, t2: SpanTable)
    requires
        validates(sent, recv, t1),
        validates(sent, recv, t2),
    ensures
        same_http_parse(t1, t2),
        json_claims_agree(t1.request.body, t2.request.body),
        json_claims_agree(t1.response.body, t2.response.body),
{
    let (q1, q2) = (t1.request, t2.request);
    let (s1, s2) = (t1.response, t2.response);
    // request head
    assert(spec_request_head(sent, q1) is Some);
    assert(spec_request_head(sent, q2) is Some);
    let m = crate::validate::http::tchar_end(sent, 0);
    let te = crate::validate::http::target_end(sent, m + 1);
    lemma_section_unique(sent, te + 11, q1.headers@, q2.headers@);
    assert(q1.method == q2.method);
    assert(q1.target == q2.target);
    assert(spec_request_head(sent, q1) == spec_request_head(sent, q2));
    let rh = spec_request_head(sent, q1)->0;
    let rf = spec_request_framing(rh.info)->0;
    lemma_body_unique(sent, rh.head_end as int, rf, q1.body, q2.body);
    assert(spec_request_body(sent, t1) == spec_request_body(sent, t2));
    // response head
    assert(spec_response_head(recv, s1) is Some);
    assert(spec_response_head(recv, s2) is Some);
    let rr = crate::validate::http::reason_span(recv);
    lemma_section_unique(recv, rr.1 + 2, s1.headers@, s2.headers@);
    assert(s1.code == s2.code);
    assert(s1.reason == s2.reason);
    assert(spec_response_head(recv, s1) == spec_response_head(recv, s2));
    let sh = spec_response_head(recv, s1)->0;
    let sf = spec_response_framing(rh.method_is_head, sh.status, sh.info, recv.len() > sh.head_end)->0;
    lemma_body_unique(recv, sh.head_end as int, sf, s1.body, s2.body);
    assert(spec_response_body(sent, recv, t1) == spec_response_body(sent, recv, t2));
}

/// Facts about the maximal request-target run.
proof fn lemma_target_end(buf: Seq<u8>, p: int)
    requires
        0 <= p <= buf.len(),
    ensures
        p <= target_end(buf, p) <= buf.len(),
        forall|i: int| p <= i < target_end(buf, p) ==> spec_target_byte(#[trigger] buf[i]),
    decreases buf.len() - p,
{
    if p < buf.len() && spec_target_byte(buf[p]) {
        lemma_target_end(buf, p + 1);
    }
}

/// What the heads of a validated transcript guarantee: the method is a
/// non-empty token at the start of `sent` followed by a space; the target
/// is non-empty printable ASCII; the reason phrase holds only header-value
/// bytes (no CR, LF, NUL or DEL); the status lies in `100..=599`; and a
/// response to a `HEAD` request or with a 1xx, 204 or 304 status has no
/// body.
pub proof fn law_validated_heads(sent: Seq<u8>, recv: Seq<u8>, t: SpanTable)
    requires
        validates(sent, recv, t),
    ensures
        ({
            let rq = spec_request_head(sent, t.request)->0;
            let rs = spec_response_head(recv, t.response)->0;
            let (m, tg, rn) = (t.request.method, t.request.target, t.response.reason);
            &&& m.start == 0 < m.end < sent.len()
            &&& forall|i: int| m.start <= i < m.end ==> spec_tchar(#[trigger] sent[i])
            &&& sent[m.end as int] == 0x20
            &&& tg.start < tg.end <= sent.len()
            &&& forall|i: int| tg.start <= i < tg.end ==> spec_target_byte(#[trigger] sent[i])
            &&& rn.start <= rn.end <= recv.len()
            &&& forall|i: int| rn.start <= i < rn.end ==> spec_value_byte(#[trigger] recv[i])
            &&& 100 <= rs.status <= 599
            &&& (rq.method_is_head || bodiless_status(rs.status)) ==> spec_response_body(sent, recv, t)
                == Some(None::<(Seq<u8>, Seq<ChunkMapEntry>)>)
        }),
{
    let q = t.request;
    assert(spec_request_head(sent, q) is Some);
    assert(spec_response_head(recv, t.response) is Some);
    lemma_tchar_end(sent, 0);
    let m = crate::validate::http::tchar_end(sent, 0);
    assert(sent.subrange(m, m + 1)[0] == sent[m]);
    lemma_target_end(sent, m + 1);
    if 12 < recv.len() && recv[12] == 0x20 {
        lemma_value_end(recv, 13);
    }
}

/// The value of the three status-code digits at `[9, 12)` of `recv`, in
/// decimal.
pub open spec fn status_digits(recv: Seq<u8>) -> int {
    (recv[9] - 0x30) * 100 + (recv[10] - 0x30) * 10 + (recv[11] - 0x30)
}

/// The status of a validated response is the decimal number its code span
/// spells: the code span is `[9, 12)`, its three bytes are digits, and the
/// status is the first times 100 plus the second times 10 plus the third.
pub proof fn law_validated_status(sent: Seq<u8>, recv: Seq<u8>, t: SpanTable)
    requires
        validates(sent, recv, t),
    ensures
        ({
            let status = spec_response_head(recv, t.response)->0.status;
            let code = span_bytes(recv, t.response.code);
            &&& t.response.code.start == 9 && t.response.code.end == 12 && recv.len() >= 12
            &&& code.len() == 3
            &&& forall|i: int| 0 <= i < 3 ==> 0x30 <= #[trigger] code[i] <= 0x39
            &&& status == status_digits(recv)
            &&& status == dec_value(code)
        }),
{
    assert(spec_response_head(recv, t.response) is Some);
    let code = span_bytes(recv, t.response.code);
    assert(code[0] == recv[9] && code[1] == recv[10] && code[2] == recv[11]);
    assert(code.drop_last().drop_last().drop_last() =~= Seq::<u8>::empty());
    assert(code.drop_last().drop_last().last() == recv[9]);
    assert(code.drop_last().last() == recv[10]);
    assert(code.last() == recv[11]);
    assert(dec_value(code) == status_digits(recv)) by {
        reveal_with_fuel(dec_value, 4);
    }
}

} // verus!
