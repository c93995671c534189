//! Zero-copy accessors over a validated transcript.
//!
//! Everything here borrows from the validated buffers and the span table;
//! every answer is backed by a span the validator verified. All accessors
//! are panic-free: spans are applied with guarded slicing, and the failure
//! paths (unreachable for a validated table) degrade to empty slices, `""`,
//! or `None`.
use vstd::prelude::*;
use vstd::string::StringSliceAdditionalSpecFns;

use crate::spans::{
    BodySpans, Framing, HeaderSpan, JsonKind, JsonNode, RequestSpans, ResponseSpans, Span,
    SpanTable,
};
use crate::utf8::str_from_utf8;
use crate::validate::http::ascii_ci_eq;
use crate::json_path::{
    array_elems, cap, first_key, jump, key_bytes, lemma_array_elems_len, lemma_array_elems_step,
    lemma_first_dot, lemma_object_keys_step, object_keys, sat_add_usize, split_dots, step_target, walk_path,
};

verus! {

// === guarded span application ===

/// The bytes `span` covers in `buf`, or nothing if it is inverted or out of
/// bounds.
pub open spec fn span_view(buf: Seq<u8>, span: Span) -> Seq<u8> {
    if span.start <= span.end && span.end <= buf.len() {
        buf.subrange(span.start as int, span.end as int)
    } else {
        Seq::empty()
    }
}

/// `s` reads `bytes` as UTF-8, or is empty when they are not UTF-8.
pub open spec fn str_reading(s: &str, bytes: Seq<u8>) -> bool {
    if vstd::utf8::valid_utf8(bytes) {
        s.spec_bytes() == bytes
    } else {
        s@.len() == 0
    }
}

/// The bytes a string accessor compares by: the bytes themselves when they
/// are UTF-8, nothing otherwise.
pub open spec fn reading_bytes(bytes: Seq<u8>) -> Seq<u8> {
    if vstd::utf8::valid_utf8(bytes) {
        bytes
    } else {
        Seq::empty()
    }
}

/// Returns the bytes `span` covers in `buf`, or the empty slice if the span
/// is inverted or out of bounds.
pub fn slice_span<'b>(buf: &'b [u8], span: Span) -> (r: &'b [u8])
    ensures
        r@ == span_view(buf@, span),
{
    if span.start <= span.end && (span.end as usize) <= buf.len() {
        &buf[span.start as usize..span.end as usize]
    } else {
        let e: &[u8] = &[];
        assert(e@ =~= Seq::<u8>::empty());
        e
    }
}

/// Returns the empty string.
pub fn empty_str() -> (r: &'static str)
    ensures
        r@.len() == 0,
        r.spec_bytes().len() == 0,
{
    let e = "";
    proof {
        reveal_strlit("");
        vstd::string::is_ascii_spec_bytes(e);
    }
    e
}

/// Returns the bytes `span` covers in `buf` as UTF-8, or `""` if the span is
/// out of bounds or the bytes are not UTF-8.
pub fn str_span<'b>(buf: &'b [u8], span: Span) -> (r: &'b str)
    ensures
        str_reading(r, span_view(buf@, span)),
        r.spec_bytes() == reading_bytes(span_view(buf@, span)),
{
    match str_from_utf8(slice_span(buf, span)) {
        Some(s) => s,
        None => empty_str(),
    }
}

/// Compares a string's bytes ASCII case-insensitively with `name`.
pub fn str_eq_ignore_ascii_case(a: &str, name: &str) -> (r: bool)
    ensures
        r == ascii_ci_eq(a.spec_bytes(), name.spec_bytes()),
{
    crate::validate::http::ascii_eq_ignore_case(a.as_bytes(), name.as_bytes())
}

// === construction seam (the validator builds these) ===

/// The decoded payload of a validated body.
#[derive(Debug, Clone)]
pub enum BodyData<'a> {
    /// Body bytes borrowed directly from the source buffer
    /// (`ContentLength` and `Close` bodies).
    Borrowed(&'a [u8]),
    /// Body bytes decoded out of chunked framing.
    Decoded(Vec<u8>),
}

/// The bytes of a body payload.
pub open spec fn body_data_view(d: BodyData) -> Seq<u8> {
    match d {
        BodyData::Borrowed(b) => b@,
        BodyData::Decoded(v) => v@,
    }
}

/// Maps one contiguous run of decoded body bytes back to the source buffer.
#[derive(Debug, Clone, Copy, PartialEq, Eq, Hash, Structural)]
pub struct ChunkMapEntry {
    /// Start of the run's data bytes, in source-buffer coordinates.
    pub src_start: u32,
    /// Start of the same bytes, in decoded-body coordinates.
    pub body_offset: u32,
    /// Number of bytes in the run.
    pub len: u32,
}

/// A body that passed framing (and, if claimed, JSON) validation.
#[derive(Debug, Clone)]
pub struct ValidatedBody<'a> {
    /// The decoded body bytes.
    pub data: BodyData<'a>,
    /// Decoded-to-source map: one entry per non-empty data chunk, in order;
    /// empty means the identity mapping from `raw.start`.
    pub chunk_map: Vec<ChunkMapEntry>,
}

/// A validated transcript: one HTTP/1.1 request (`sent`) and one response
/// (`recv`).
#[derive(Debug, Clone)]
pub struct Transcript<'a> {
    sent: &'a [u8],
    recv: &'a [u8],
    table: &'a SpanTable,
    status: u16,
    req_body: Option<ValidatedBody<'a>>,
    resp_body: Option<ValidatedBody<'a>>,
}

impl<'a> Transcript<'a> {
    /// The `sent` buffer.
    pub closed spec fn sent_view(&self) -> Seq<u8> {
        self.sent@
    }

    /// The `recv` buffer.
    pub closed spec fn recv_view(&self) -> Seq<u8> {
        self.recv@
    }

    /// The span table.
    pub closed spec fn table_view(&self) -> SpanTable {
        *self.table
    }

    /// The status code.
    pub closed spec fn status_view(&self) -> u16 {
        self.status
    }

    /// The validated request body.
    pub closed spec fn req_body_view(&self) -> Option<ValidatedBody<'a>> {
        self.req_body
    }

    /// The validated response body.
    pub closed spec fn resp_body_view(&self) -> Option<ValidatedBody<'a>> {
        self.resp_body
    }

    /// Assembles a transcript from fully verified parts: `status` parsed
    /// from the verified status code, and the bodies present exactly when
    /// the table's body records are, holding the decoded bytes and derived
    /// chunk maps of the body walks.
    pub fn new(
        sent: &'a [u8],
        recv: &'a [u8],
        table: &'a SpanTable,
        status: u16,
        req_body: Option<ValidatedBody<'a>>,
        resp_body: Option<ValidatedBody<'a>>,
    ) -> (t: Self)
        ensures
            t.sent_view() == sent@,
            t.recv_view() == recv@,
            t.table_view() == *table,
            t.status_view() == status,
            t.req_body_view() == req_body,
            t.resp_body_view() == resp_body,
    {
        Transcript { sent, recv, table, status, req_body, resp_body }
    }

    /// Returns the validated request.
    pub fn request(&self) -> (r: Request<'_>)
        ensures
            r.buf_view() == self.sent_view(),
            r.spans_view() == self.table_view().request,
            r.body_view() == self.req_body_view(),
    {
        Request { buf: self.sent, spans: &self.table.request, body: self.req_body.as_ref() }
    }

    /// Returns the validated response.
    pub fn response(&self) -> (r: Response<'_>)
        ensures
            r.buf_view() == self.recv_view(),
            r.spans_view() == self.table_view().response,
            r.status_view() == self.status_view(),
            r.body_view() == self.resp_body_view(),
    {
        Response {
            buf: self.recv,
            spans: &self.table.response,
            status: self.status,
            body: self.resp_body.as_ref(),
        }
    }
}

/// Accessor over the validated request.
#[derive(Debug, Clone, Copy)]
pub struct Request<'t> {
    buf: &'t [u8],
    spans: &'t RequestSpans,
    body: Option<&'t ValidatedBody<'t>>,
}

impl<'t> Request<'t> {
    /// The `sent` buffer.
    pub closed spec fn buf_view(&self) -> Seq<u8> {
        self.buf@
    }

    /// The request spans.
    pub closed spec fn spans_view(&self) -> RequestSpans {
        *self.spans
    }

    /// The validated body.
    pub closed spec fn body_view(&self) -> Option<ValidatedBody<'t>> {
        match self.body {
            Some(b) => Some(*b),
            None => None,
        }
    }

    /// Returns the request method (a `tchar+` token, always ASCII).
    pub fn method(&self) -> (r: &'t str)
        ensures
            str_reading(r, span_view(self.buf_view(), self.spans_view().method)),
    {
        str_span(self.buf, self.spans.method)
    }

    /// Returns the request target (printable ASCII; URIs are not parsed).
    pub fn target(&self) -> (r: &'t str)
        ensures
            str_reading(r, span_view(self.buf_view(), self.spans_view().target)),
    {
        str_span(self.buf, self.spans.target)
    }

    /// Returns an iterator over all headers, in order of appearance.
    pub fn headers(&self) -> (r: Headers<'t>)
        ensures
            r.buf_view() == self.buf_view(),
            r.spans_view() == self.spans_view().headers@,
            r.pos_view() == 0,
    {
        Headers { buf: self.buf, spans: self.spans.headers.as_slice(), pos: 0 }
    }

    /// Returns the first header whose name matches `name` ASCII
    /// case-insensitively, or `None`.
    pub fn header(&self, name: &str) -> (r: Option<Header<'t>>)
        ensures
            match first_named(self.buf_view(), self.spans_view().headers@, name.spec_bytes(), 0) {
                Some(i) => r matches Some(h) && h.buf_view() == self.buf_view() && h.span_view()
                    == self.spans_view().headers@[i],
                None => r is None,
            },
    {
        let mut it = self.headers_with_name(name);
        it.next()
    }

    /// Returns an iterator over every header whose name matches `name`
    /// ASCII case-insensitively, in order of appearance.
    pub fn headers_with_name<'n>(&self, name: &'n str) -> (r: HeadersWithName<'t, 'n>)
        ensures
            r.inner_view().buf_view() == self.buf_view(),
            r.inner_view().spans_view() == self.spans_view().headers@,
            r.inner_view().pos_view() == 0,
            r.name_view() == name.spec_bytes(),
    {
        HeadersWithName { inner: self.headers(), name }
    }

    /// Returns the request body, or `None` if the message has none.
    pub fn body(&self) -> (r: Option<Body<'t>>)
        ensures
            r is Some <==> (self.spans_view().body is Some && self.body_view() is Some),
            r matches Some(b) ==> b.buf_view() == self.buf_view() && b.spans_view()
                == self.spans_view().body->0 && b.data_view() == self.body_view()->0,
    {
        let spans = match &self.spans.body {
            Some(s) => s,
            None => {
                return None;
            },
        };
        let data = match self.body {
            Some(d) => d,
            None => {
                return None;
            },
        };
        Some(Body { buf: self.buf, spans, data })
    }
}

/// Accessor over the validated response.
#[derive(Debug, Clone, Copy)]
pub struct Response<'t> {
    buf: &'t [u8],
    spans: &'t ResponseSpans,
    status: u16,
    body: Option<&'t ValidatedBody<'t>>,
}

impl<'t> Response<'t> {
    /// The `recv` buffer.
    pub closed spec fn buf_view(&self) -> Seq<u8> {
        self.buf@
    }

    /// The response spans.
    pub closed spec fn spans_view(&self) -> ResponseSpans {
        *self.spans
    }

    /// The status code.
    pub closed spec fn status_view(&self) -> u16 {
        self.status
    }

    /// The validated body.
    pub closed spec fn body_view(&self) -> Option<ValidatedBody<'t>> {
        match self.body {
            Some(b) => Some(*b),
            None => None,
        }
    }

    /// Returns the status code.
    pub fn status(&self) -> (r: u16)
        ensures
            r == self.status_view(),
    {
        self.status
    }

    /// Returns the reason phrase, or `""` if it is not valid UTF-8.
    pub fn reason(&self) -> (r: &'t str)
        ensures
            str_reading(r, span_view(self.buf_view(), self.spans_view().reason)),
    {
        str_span(self.buf, self.spans.reason)
    }

    /// Returns the raw reason-phrase bytes.
    pub fn reason_bytes(&self) -> (r: &'t [u8])
        ensures
            r@ == span_view(self.buf_view(), self.spans_view().reason),
    {
        slice_span(self.buf, self.spans.reason)
    }

    /// Returns an iterator over all headers, in order of appearance.
    pub fn headers(&self) -> (r: Headers<'t>)
        ensures
            r.buf_view() == self.buf_view(),
            r.spans_view() == self.spans_view().headers@,
            r.pos_view() == 0,
    {
        Headers { buf: self.buf, spans: self.spans.headers.as_slice(), pos: 0 }
    }

    /// Returns the first header whose name matches `name` ASCII
    /// case-insensitively, or `None`.
    pub fn header(&self, name: &str) -> (r: Option<Header<'t>>)
        ensures
            match first_named(self.buf_view(), self.spans_view().headers@, name.spec_bytes(), 0) {
                Some(i) => r matches Some(h) && h.buf_view() == self.buf_view() && h.span_view()
                    == self.spans_view().headers@[i],
                None => r is None,
            },
    {
        let mut it = self.headers_with_name(name);
        it.next()
    }

    /// Returns an iterator over every header whose name matches `name`
    /// ASCII case-insensitively, in order of appearance.
    pub fn headers_with_name<'n>(&self, name: &'n str) -> (r: HeadersWithName<'t, 'n>)
        ensures
            r.inner_view().buf_view() == self.buf_view(),
            r.inner_view().spans_view() == self.spans_view().headers@,
            r.inner_view().pos_view() == 0,
            r.name_view() == name.spec_bytes(),
    {
        HeadersWithName { inner: self.headers(), name }
    }

    /// Returns the response body, or `None` if the message has none.
    pub fn body(&self) -> (r: Option<Body<'t>>)
        ensures
            r is Some <==> (self.spans_view().body is Some && self.body_view() is Some),
            r matches Some(b) ==> b.buf_view() == self.buf_view() && b.spans_view()
                == self.spans_view().body->0 && b.data_view() == self.body_view()->0,
    {
        let spans = match &self.spans.body {
            Some(s) => s,
            None => {
                return None;
            },
        };
        let data = match self.body {
            Some(d) => d,
            None => {
                return None;
            },
        };
        Some(Body { buf: self.buf, spans, data })
    }
}

/// One verified header (or chunked-trailer) line.
#[derive(Debug, Clone, Copy)]
pub struct Header<'t> {
    buf: &'t [u8],
    span: HeaderSpan,
}

impl<'t> Header<'t> {
    /// The source buffer.
    pub closed spec fn buf_view(&self) -> Seq<u8> {
        self.buf@
    }

    /// The header's spans.
    pub closed spec fn span_view(&self) -> HeaderSpan {
        self.span
    }

    /// Returns the header name (a token, always ASCII).
    pub fn name(&self) -> (r: &'t str)
        ensures
            str_reading(r, span_view(self.buf_view(), self.span_view().name)),
            r.spec_bytes() == reading_bytes(span_view(self.buf_view(), self.span_view().name)),
    {
        str_span(self.buf, self.span.name)
    }

    /// Returns the header value, OWS-trimmed on both sides (may be empty).
    pub fn value(&self) -> (r: &'t [u8])
        ensures
            r@ == span_view(self.buf_view(), self.span_view().value),
    {
        slice_span(self.buf, self.span.value)
    }

    /// Returns the header value as a string, or `None` if it is not UTF-8.
    pub fn value_str(&self) -> (r: Option<&'t str>)
        ensures
            r is Some <==> vstd::utf8::valid_utf8(span_view(self.buf_view(), self.span_view().value)),
            r matches Some(s) ==> s.spec_bytes() == span_view(self.buf_view(), self.span_view().value),
    {
        str_from_utf8(self.value())
    }

    /// Returns the name span, in source coordinates.
    pub fn name_span(&self) -> (r: Span)
        ensures
            r == self.span_view().name,
    {
        self.span.name
    }

    /// Returns the value span, in source coordinates.
    pub fn value_span(&self) -> (r: Span)
        ensures
            r == self.span_view().value,
    {
        self.span.value
    }
}

/// The index of the first record at or after `from` whose name reads as
/// `name` ASCII case-insensitively.
pub open spec fn first_named(buf: Seq<u8>, spans: Seq<HeaderSpan>, name: Seq<u8>, from: int) -> Option<int>
    decreases spans.len() - from,
{
    if from < 0 || from >= spans.len() {
        None
    } else if ascii_ci_eq(reading_bytes(span_view(buf, spans[from].name)), name) {
        Some(from)
    } else {
        first_named(buf, spans, name, from + 1)
    }
}

/// Iterator over a message's headers (or a body's trailers), in order.
#[derive(Debug, Clone)]
pub struct Headers<'t> {
    buf: &'t [u8],
    spans: &'t [HeaderSpan],
    pos: usize,
}

impl<'t> Headers<'t> {
    /// The source buffer.
    pub closed spec fn buf_view(&self) -> Seq<u8> {
        self.buf@
    }

    /// The records iterated over.
    pub closed spec fn spans_view(&self) -> Seq<HeaderSpan> {
        self.spans@
    }

    /// The index of the next record.
    pub closed spec fn pos_view(&self) -> int {
        self.pos as int
    }

    /// Returns the next header, in order of appearance.
    pub fn next(&mut self) -> (r: Option<Header<'t>>)
        ensures
            final(self).buf_view() == old(self).buf_view(),
            final(self).spans_view() == old(self).spans_view(),
            old(self).pos_view() < old(self).spans_view().len() ==> {
                &&& r matches Some(h) && h.buf_view() == old(self).buf_view() && h.span_view()
                    == old(self).spans_view()[old(self).pos_view()]
                &&& final(self).pos_view() == old(self).pos_view() + 1
            },
            old(self).pos_view() >= old(self).spans_view().len() ==> r is None && final(self).pos_view()
                == old(self).pos_view(),
    {
        if self.pos >= self.spans.len() {
            return None;
        }
        let span = self.spans[self.pos];
        self.pos = self.pos + 1;
        Some(Header { buf: self.buf, span })
    }
}

/// Iterator over the headers matching one name ASCII case-insensitively,
/// in order of appearance.
#[derive(Debug, Clone)]
pub struct HeadersWithName<'t, 'n> {
    inner: Headers<'t>,
    name: &'n str,
}

impl<'t, 'n> HeadersWithName<'t, 'n> {
    /// The underlying header iterator.
    pub closed spec fn inner_view(&self) -> Headers<'t> {
        self.inner
    }

    /// The name matched.
    pub closed spec fn name_view(&self) -> Seq<u8> {
        self.name.spec_bytes()
    }

    /// Returns the next matching header.
    pub fn next(&mut self) -> (r: Option<Header<'t>>)
        ensures
            final(self).name_view() == old(self).name_view(),
            final(self).inner_view().buf_view() == old(self).inner_view().buf_view(),
            final(self).inner_view().spans_view() == old(self).inner_view().spans_view(),
            match first_named(
                old(self).inner_view().buf_view(),
                old(self).inner_view().spans_view(),
                old(self).name_view(),
                old(self).inner_view().pos_view(),
            ) {
                Some(i) => r matches Some(h) && h.buf_view() == old(self).inner_view().buf_view()
                    && h.span_view() == old(self).inner_view().spans_view()[i]
                    && final(self).inner_view().pos_view() == i + 1,
                None => r is None,
            },
    {
        let name = self.name;
        loop
            invariant
                self.name == name,
                name == old(self).name,
                self.inner.buf == old(self).inner.buf,
                self.inner.spans == old(self).inner.spans,
                old(self).inner.pos <= self.inner.pos,
                first_named(
                    self.inner.buf@,
                    self.inner.spans@,
                    name.spec_bytes(),
                    old(self).inner.pos as int,
                ) == first_named(
                    self.inner.buf@,
                    self.inner.spans@,
                    name.spec_bytes(),
                    self.inner.pos as int,
                ),
            decreases self.inner.spans@.len() - self.inner.pos,
        {
            let h = match self.inner.next() {
                Some(h) => h,
                None => {
                    return None;
                },
            };
            if str_eq_ignore_ascii_case(h.name(), name) {
                return Some(h);
            }
        }
    }
}

/// `a + b`, saturating at `u32::MAX`.
pub open spec fn sat_add(a: u32, b: u32) -> u32 {
    if a + b > u32::MAX {
        u32::MAX
    } else {
        (a + b) as u32
    }
}

/// The source spans backing decoded bytes `[rs, re)` through the chunk map
/// from entry `i` on: one per overlapped run, in order, stopping at the
/// first run that starts at or after `re`.
pub open spec fn mapped_spans(map: Seq<ChunkMapEntry>, i: int, rs: u32, re: u32) -> Seq<Span>
    decreases map.len() - i,
{
    if i < 0 || i >= map.len() || map[i].body_offset >= re {
        Seq::empty()
    } else {
        let e = map[i];
        let chunk_end = sat_add(e.body_offset, e.len);
        let os: u32 = if rs > e.body_offset {
            rs
        } else {
            e.body_offset
        };
        let oe: u32 = if re < chunk_end {
            re
        } else {
            chunk_end
        };
        let rest = mapped_spans(map, i + 1, rs, re);
        if os < oe {
            seq![
                Span {
                    start: sat_add(e.src_start, (os - e.body_offset) as u32),
                    end: sat_add(e.src_start, (oe - e.body_offset) as u32),
                },
            ] + rest
        } else {
            rest
        }
    }
}

/// The source spans backing decoded range `[rs, re)` of a body whose
/// source starts at `raw_start`, with `content_len` decoded bytes and chunk
/// map `map`: none for an empty, inverted or out-of-range request; one span
/// for a contiguous body (no chunk map); one per overlapped chunk otherwise.
pub open spec fn source_spans(raw_start: u32, content_len: int, map: Seq<ChunkMapEntry>, rs: u32, re: u32) -> Seq<
    Span,
> {
    let clen: u32 = if content_len <= u32::MAX {
        content_len as u32
    } else {
        u32::MAX
    };
    if rs >= re || re > clen {
        Seq::empty()
    } else if map.len() == 0 {
        seq![Span { start: sat_add(raw_start, rs), end: sat_add(raw_start, re) }]
    } else {
        mapped_spans(map, 0, rs, re)
    }
}

/// Accessor over one validated message body.
#[derive(Debug, Clone, Copy)]
pub struct Body<'t> {
    buf: &'t [u8],
    spans: &'t BodySpans,
    data: &'t ValidatedBody<'t>,
}

impl<'t> Body<'t> {
    /// The source buffer.
    pub closed spec fn buf_view(&self) -> Seq<u8> {
        self.buf@
    }

    /// The body spans.
    pub closed spec fn spans_view(&self) -> BodySpans {
        *self.spans
    }

    /// The validated body data.
    pub closed spec fn data_view(&self) -> ValidatedBody<'t> {
        *self.data
    }

    /// The decoded content.
    pub open spec fn content_view(&self) -> Seq<u8> {
        body_data_view(self.data_view().data)
    }

    /// Returns the decoded body content.
    pub fn content(&self) -> (r: &'t [u8])
        ensures
            r@ == self.content_view(),
    {
        match &self.data.data {
            BodyData::Borrowed(bytes) => bytes,
            BodyData::Decoded(bytes) => bytes.as_slice(),
        }
    }

    /// Returns the verified framing of this body.
    pub fn framing(&self) -> (r: Framing)
        ensures
            r == self.spans_view().framing,
    {
        self.spans.framing
    }

    /// Returns the full source extent of the body section.
    pub fn raw_span(&self) -> (r: Span)
        ensures
            r == self.spans_view().raw,
    {
        self.spans.raw
    }

    /// Returns an iterator over the chunked trailers, in order (empty for
    /// non-chunked bodies).
    pub fn trailers(&self) -> (r: Headers<'t>)
        ensures
            r.buf_view() == self.buf_view(),
            r.spans_view() == self.spans_view().trailers@,
            r.pos_view() == 0,
    {
        Headers { buf: self.buf, spans: self.spans.trailers.as_slice(), pos: 0 }
    }

    /// Returns the first trailer whose name matches `name` ASCII
    /// case-insensitively, or `None`.
    pub fn trailer(&self, name: &str) -> (r: Option<Header<'t>>)
        ensures
            match first_named(self.buf_view(), self.spans_view().trailers@, name.spec_bytes(), 0) {
                Some(i) => r matches Some(h) && h.buf_view() == self.buf_view() && h.span_view()
                    == self.spans_view().trailers@[i],
                None => r is None,
            },
    {
        let mut it = HeadersWithName { inner: self.trailers(), name };
        it.next()
    }

    /// Returns the verified JSON view of the decoded body: `Some` iff the
    /// table claimed JSON (with a root node).
    pub fn json(&self) -> (r: Option<JsonValue<'t>>)
        ensures
            r is Some <==> (self.spans_view().json is Some && self.spans_view().json->0.nodes@.len()
                > 0),
            r matches Some(v) ==> v.content_view() == self.content_view() && v.nodes_view()
                == self.spans_view().json->0.nodes@ && v.idx_view() == 0,
    {
        let nodes = match &self.spans.json {
            Some(j) => j.nodes.as_slice(),
            None => {
                return None;
            },
        };
        if nodes.len() == 0 {
            return None;
        }
        Some(JsonValue { content: self.content(), nodes, idx: 0 })
    }

    /// Maps a range of decoded-body coordinates to the source spans backing
    /// it: one span for a contiguous body, one per straddled chunk for a
    /// chunked one; empty for an empty, inverted, or out-of-range request.
    pub fn content_to_source(&self, range: std::ops::Range<u32>) -> (r: Vec<Span>)
        ensures
            r@ == source_spans(
                self.spans_view().raw.start,
                self.content_view().len() as int,
                self.data_view().chunk_map@,
                range.start,
                range.end,
            ),
    {
        let content = self.content();
        let content_len: u32 = if content.len() <= u32::MAX as usize {
            content.len() as u32
        } else {
            u32::MAX
        };
        if range.start >= range.end || range.end > content_len {
            return Vec::new();
        }
        if self.data.chunk_map.len() == 0 {
            let base = self.spans.raw.start;
            let mut v = Vec::new();
            v.push(Span::new(base.saturating_add(range.start), base.saturating_add(range.end)));
            return v;
        }
        let map = &self.data.chunk_map;
        let mut spans: Vec<Span> = Vec::new();
        let mut i: usize = 0;
        while i < map.len()
            invariant
                0 <= i <= map@.len(),
                mapped_spans(map@, 0, range.start, range.end) == spans@ + mapped_spans(
                    map@,
                    i as int,
                    range.start,
                    range.end,
                ),
            ensures
                mapped_spans(map@, 0, range.start, range.end) == spans@,
            decreases map@.len() - i,
        {
            let entry = map[i];
            if entry.body_offset >= range.end {
                assert(spans@ + mapped_spans(map@, i as int, range.start, range.end) =~= spans@);
                break ;
            }
            let chunk_end = entry.body_offset.saturating_add(entry.len);
            let overlap_start = if range.start > entry.body_offset {
                range.start
            } else {
                entry.body_offset
            };
            let overlap_end = if range.end < chunk_end {
                range.end
            } else {
                chunk_end
            };
            let ghost before = spans@;
            if overlap_start < overlap_end {
                spans.push(
                    Span::new(
                        entry.src_start.saturating_add(overlap_start - entry.body_offset),
                        entry.src_start.saturating_add(overlap_end - entry.body_offset),
                    ),
                );
                proof {
                    let x = spans@.last();
                    assert(spans@ + mapped_spans(map@, i + 1, range.start, range.end) =~= before + (
                    seq![x] + mapped_spans(map@, i + 1, range.start, range.end)));
                }
            }
            i += 1;
        }
        proof {
            assert(i >= map@.len() ==> spans@ + mapped_spans(map@, i as int, range.start, range.end) =~= spans@);
        }
        spans
    }
}

/// A verified JSON value inside a decoded body (decoded-body coordinates).
#[derive(Debug, Clone, Copy)]
pub struct JsonValue<'t> {
    content: &'t [u8],
    nodes: &'t [JsonNode],
    idx: usize,
}

impl<'t> JsonValue<'t> {
    /// The decoded body content.
    pub closed spec fn content_view(&self) -> Seq<u8> {
        self.content@
    }

    /// The full pre-order node table.
    pub closed spec fn nodes_view(&self) -> Seq<JsonNode> {
        self.nodes@
    }

    /// Index of this value's node.
    pub closed spec fn idx_view(&self) -> int {
        self.idx as int
    }

    /// This value's node, if its index is in range.
    pub open spec fn node_view(&self) -> Option<JsonNode> {
        if 0 <= self.idx_view() < self.nodes_view().len() {
            Some(self.nodes_view()[self.idx_view()])
        } else {
            None
        }
    }

    /// This value's kind (`Null` for an out-of-range index).
    pub open spec fn kind_view(&self) -> JsonKind {
        match self.node_view() {
            Some(n) => n.kind,
            None => JsonKind::Null,
        }
    }

    /// This value's span (empty at 0 for an out-of-range index).
    pub open spec fn span_spec(&self) -> Span {
        match self.node_view() {
            Some(n) => Span { start: n.start, end: n.end },
            None => Span { start: 0, end: 0 },
        }
    }

    /// Returns this value's node.
    pub fn node(&self) -> (r: Option<JsonNode>)
        ensures
            r == self.node_view(),
    {
        if self.idx < self.nodes.len() {
            Some(self.nodes[self.idx])
        } else {
            None
        }
    }

    /// Returns the bytes of this value's span in the decoded body.
    pub fn content_bytes(&self) -> (r: &'t [u8])
        ensures
            r@ == span_view(self.content_view(), self.span_spec()),
    {
        slice_span(self.content, self.span())
    }

    /// Returns the value's kind; never `Key` for a validated table.
    pub fn kind(&self) -> (r: JsonKind)
        ensures
            r == self.kind_view(),
    {
        match self.node() {
            Some(n) => n.kind,
            None => JsonKind::Null,
        }
    }

    /// Returns the string content between the quotes (escapes left raw), or
    /// `None` if this is not a string.
    pub fn as_str(&self) -> (r: Option<&'t str>)
        ensures
            r is Some <==> (self.kind_view() == JsonKind::String && vstd::utf8::valid_utf8(
                span_view(self.content_view(), self.span_spec()),
            )),
            r matches Some(s) ==> s.spec_bytes() == span_view(self.content_view(), self.span_spec()),
    {
        if self.kind() != JsonKind::String {
            return None;
        }
        str_from_utf8(self.content_bytes())
    }

    /// Returns the exact number lexeme, or `None` if this is not a number.
    pub fn as_number_str(&self) -> (r: Option<&'t str>)
        ensures
            r is Some <==> (self.kind_view() == JsonKind::Number && vstd::utf8::valid_utf8(
                span_view(self.content_view(), self.span_spec()),
            )),
            r matches Some(s) ==> s.spec_bytes() == span_view(self.content_view(), self.span_spec()),
    {
        if self.kind() != JsonKind::Number {
            return None;
        }
        str_from_utf8(self.content_bytes())
    }

    /// Returns the boolean value, or `None` if this is not a boolean.
    pub fn as_bool(&self) -> (r: Option<bool>)
        ensures
            ({
                let bytes = span_view(self.content_view(), self.span_spec());
                r == (if self.kind_view() != JsonKind::Bool || bytes.len() == 0 {
                    None::<bool>
                } else {
                    Some(bytes[0] == 0x74)
                })
            }),
    {
        if self.kind() != JsonKind::Bool {
            return None;
        }
        let bytes = self.content_bytes();
        if bytes.len() == 0 {
            return None;
        }
        Some(bytes[0] == 0x74)
    }

    /// Returns `true` iff this value is `null`.
    pub fn is_null(&self) -> (r: bool)
        ensures
            r == (self.node_view() matches Some(n) && n.kind == JsonKind::Null),
    {
        match self.node() {
            Some(n) => n.kind == JsonKind::Null,
            None => false,
        }
    }

    /// Returns this value's span in decoded-body coordinates.
    pub fn span(&self) -> (r: Span)
        ensures
            r == self.span_spec(),
    {
        match self.node() {
            Some(n) => Span::new(n.start, n.end),
            None => Span::new(0, 0),
        }
    }

    /// One past the last node index of this value's subtree (clamped).
    pub open spec fn subtree_end(&self) -> int {
        let e = self.idx_view() + self.node_view()->0.size;
        let e2 = if e > usize::MAX {
            usize::MAX as int
        } else {
            e
        };
        if e2 < self.nodes_view().len() {
            e2
        } else {
            self.nodes_view().len() as int
        }
    }

    /// Returns an iterator over the array's elements, or `None` if this is
    /// not an array.
    pub fn iter_array(&self) -> (r: Option<JsonArrayIter<'t>>)
        ensures
            r is Some <==> (self.node_view() matches Some(n) && n.kind == JsonKind::Array),
            r matches Some(it) ==> it.content_view() == self.content_view() && it.nodes_view()
                == self.nodes_view() && it.next_view() == (if self.idx_view() + 1 > usize::MAX {
                usize::MAX as int
            } else {
                self.idx_view() + 1
            }) && it.end_view() == self.subtree_end(),
    {
        let node = match self.node() {
            Some(n) => n,
            None => {
                return None;
            },
        };
        if node.kind != JsonKind::Array {
            return None;
        }
        let e = self.idx.saturating_add(node.size as usize);
        let end = if e < self.nodes.len() {
            e
        } else {
            self.nodes.len()
        };
        Some(
            JsonArrayIter {
                content: self.content,
                nodes: self.nodes,
                next: self.idx.saturating_add(1),
                end,
            },
        )
    }

    /// Returns an iterator over the object's members in document order, or
    /// `None` if this is not an object.
    pub fn iter_object(&self) -> (r: Option<JsonObjectIter<'t>>)
        ensures
            r is Some <==> (self.node_view() matches Some(n) && n.kind == JsonKind::Object),
            r matches Some(it) ==> it.content_view() == self.content_view() && it.nodes_view()
                == self.nodes_view() && it.next_view() == (if self.idx_view() + 1 > usize::MAX {
                usize::MAX as int
            } else {
                self.idx_view() + 1
            }) && it.end_view() == self.subtree_end(),
    {
        let node = match self.node() {
            Some(n) => n,
            None => {
                return None;
            },
        };
        if node.kind != JsonKind::Object {
            return None;
        }
        let e = self.idx.saturating_add(node.size as usize);
        let end = if e < self.nodes.len() {
            e
        } else {
            self.nodes.len()
        };
        Some(
            JsonObjectIter {
                content: self.content,
                nodes: self.nodes,
                next: self.idx.saturating_add(1),
                end,
            },
        )
    }

    /// Returns the number of elements, or `None` if this is not an array.
    pub fn array_len(&self) -> (r: Option<u32>)
        ensures
            r is Some <==> (self.node_view() matches Some(n) && n.kind == JsonKind::Array),
            r matches Some(m) ==> m == cap(
                array_elems(self.nodes_view(), sat_add_usize(self.idx_view(), 1), self.subtree_end()).len() as int,
                u32::MAX as int,
            ),
    {
        let mut it = match self.iter_array() {
            Some(it) => it,
            None => {
                return None;
            },
        };
        let ghost all = array_elems(self.nodes_view(), it.next_view(), it.end_view());
        proof {
            lemma_array_elems_len(self.nodes_view(), it.next_view(), it.end_view());
        }
        let mut count: usize = 0;
        loop
            invariant
                it.nodes_view() == self.nodes_view(),
                0 <= it.next_view(),
                count + array_elems(self.nodes_view(), it.next_view(), it.end_view()).len() == all.len(),
                all.len() <= usize::MAX,
            ensures
                count == all.len(),
            decreases usize::MAX - it.next_view(),
        {
            let ghost old_next = it.next_view();
            match it.next() {
                Some(_) => {
                    proof {
                        lemma_array_elems_step(self.nodes_view(), old_next, it.end_view());
                    }
                    count += 1;
                },
                None => {
                    break ;
                },
            }
        }
        Some(
            if count <= u32::MAX as usize {
                count as u32
            } else {
                u32::MAX
            },
        )
    }

    /// Resolves one path segment: an object key by raw bytes, or a decimal
    /// array index.
    pub fn step(&self, segment: &[u8]) -> (r: Option<JsonValue<'t>>)
        ensures
            match step_target(self.content_view(), self.nodes_view(), self.idx_view(), segment@) {
                None => r is None,
                Some(j) => r matches Some(v) && v.content_view() == self.content_view()
                    && v.nodes_view() == self.nodes_view() && v.idx_view() == j,
            },
            self.kind_view() == JsonKind::Object && 0 <= self.idx_view() < self.nodes_view().len() ==> (
            r matches Some(v) ==> key_bytes(self.content_view(), self.nodes_view()[v.idx_view() - 1])
                == segment@),
    {
        proof {
            if self.kind_view() == JsonKind::Object && 0 <= self.idx_view() < self.nodes_view().len() {
                crate::json_path::law_step_object_by_raw_key(
                    self.content_view(),
                    self.nodes_view(),
                    self.idx_view(),
                    segment@,
                );
            }
        }
        match self.kind() {
            JsonKind::Object => {
                let mut it = match self.iter_object() {
                    Some(it) => it,
                    None => {
                        return None;
                    },
                };
                let ghost target = first_key(
                    self.content_view(),
                    self.nodes_view(),
                    object_keys(self.nodes_view(), it.next_view(), it.end_view()),
                    segment@,
                );
                loop
                    invariant
                        it.content_view() == self.content_view(),
                        it.nodes_view() == self.nodes_view(),
                        it.end_view() <= self.nodes_view().len(),
                        0 <= it.next_view(),
                        first_key(
                            self.content_view(),
                            self.nodes_view(),
                            object_keys(self.nodes_view(), it.next_view(), it.end_view()),
                            segment@,
                        ) == target,
                        target == (match step_target(self.content_view(), self.nodes_view(), self.idx_view(), segment@) {
                            Some(j) => Some(j - 1),
                            None => None::<int>,
                        }),
                    decreases usize::MAX - it.next_view(),
                {
                    let ghost old_next = it.next_view();
                    match it.next() {
                        Some((key, value)) => {
                            let ghost keys = object_keys(self.nodes_view(), old_next, it.end_view());
                            proof {
                                lemma_object_keys_step(self.nodes_view(), old_next, it.end_view());
                                assert(keys[0] == old_next);
                                assert(keys.drop_first() =~= object_keys(
                                    self.nodes_view(),
                                    it.next_view(),
                                    it.end_view(),
                                ));
                            }
                            if bytes_eq(key.raw(), segment) {
                                proof {
                                    assert(key_bytes(self.content_view(), self.nodes_view()[old_next]) == segment@);
                                }
                                return Some(value);
                            }
                            proof {
                                assert(key_bytes(self.content_view(), self.nodes_view()[old_next]) != segment@);
                            }
                        },
                        None => {
                            return None;
                        },
                    }
                }
            },
            JsonKind::Array => {
                let n = match parse_usize(segment) {
                    Some(n) => n,
                    None => {
                        return None;
                    },
                };
                let mut it = match self.iter_array() {
                    Some(it) => it,
                    None => {
                        return None;
                    },
                };
                let ghost all = array_elems(self.nodes_view(), it.next_view(), it.end_view());
                let mut i: usize = 0;
                loop
                    invariant
                        it.content_view() == self.content_view(),
                        it.nodes_view() == self.nodes_view(),
                        it.end_view() <= self.nodes_view().len(),
                        0 <= it.next_view(),
                        i <= n,
                        i <= all.len(),
                        0 <= self.idx_view() < self.nodes_view().len(),
                        self.nodes_view()[self.idx_view()].kind == JsonKind::Array,
                        spec_parse_usize(segment@) == Some(n),
                        all.subrange(i as int, all.len() as int) == array_elems(
                            self.nodes_view(),
                            it.next_view(),
                            it.end_view(),
                        ),
                        all == array_elems(
                            self.nodes_view(),
                            sat_add_usize(self.idx_view(), 1),
                            crate::json_path::subtree_end_of(self.nodes_view(), self.idx_view()),
                        ),
                    decreases usize::MAX - it.next_view(),
                {
                    let ghost old_next = it.next_view();
                    let ghost rest = all.subrange(i as int, all.len() as int);
                    match it.next() {
                        Some(v) => {
                            proof {
                                lemma_array_elems_step(self.nodes_view(), old_next, it.end_view());
                                assert(rest.len() > 0);
                                assert(rest[0] == old_next);
                                assert(rest[0] == all[i as int]);
                            }
                            if i == n {
                                return Some(v);
                            }
                            proof {
                                assert(all.subrange(i + 1, all.len() as int) =~= rest.drop_first());
                            }
                            i += 1;
                        },
                        None => {
                            proof {
                                assert(rest.len() == 0);
                            }
                            return None;
                        },
                    }
                }
            },
            _ => None,
        }
    }

    /// Looks up a descendant value by dot path (e.g. `"a.b.1"`): segments
    /// name object keys (by raw key bytes) or decimal array indices; `None`
    /// for any missing segment or kind mismatch.
    pub fn get(&self, path: &str) -> (r: Option<JsonValue<'t>>)
        ensures
            match walk_path(self.content_view(), self.nodes_view(), self.idx_view(), split_dots(path.spec_bytes())) {
                None => r is None,
                Some(j) => r matches Some(v) && v.content_view() == self.content_view()
                    && v.nodes_view() == self.nodes_view() && v.idx_view() == j,
            },
    {
        let bytes = path.as_bytes();
        let ghost c = self.content_view();
        let ghost nd = self.nodes_view();
        let ghost goal = walk_path(c, nd, self.idx_view(), split_dots(bytes@));
        let mut value = *self;
        let mut seg_start: usize = 0;
        let mut i: usize = 0;
        proof {
            assert(bytes@.subrange(0, bytes@.len() as int) =~= bytes@);
        }
        loop
            invariant
                seg_start <= i <= bytes@.len(),
                bytes@ == path.spec_bytes(),
                goal == walk_path(c, nd, self.idx_view(), split_dots(bytes@)),
                c == self.content_view(),
                nd == self.nodes_view(),
                value.content_view() == c,
                value.nodes_view() == nd,
                forall|j: int| seg_start <= j < i ==> bytes@[j] != 0x2E,
                goal == walk_path(c, nd, value.idx_view(), split_dots(bytes@.subrange(seg_start as int, bytes@.len() as int))),
            decreases bytes@.len() - i,
        {
            if i == bytes.len() || bytes[i] == 0x2E {
                let segment = &bytes[seg_start..i];
                let ghost sfx = bytes@.subrange(seg_start as int, bytes@.len() as int);
                let ghost k = i - seg_start;
                proof {
                    assert forall|j: int| 0 <= j < k implies sfx[j] != 0x2E by {
                        assert(sfx[j] == bytes@[seg_start + j]);
                    }
                    lemma_first_dot(sfx, k);
                    assert(segment@ =~= sfx.subrange(0, k));
                    if i < bytes.len() {
                        assert(sfx.subrange(k + 1, sfx.len() as int) =~= bytes@.subrange(i + 1, bytes@.len() as int));
                        assert(split_dots(sfx)[0] == segment@);
                        assert(split_dots(sfx).drop_first() == split_dots(bytes@.subrange(i + 1, bytes@.len() as int)));
                    } else {
                        assert(sfx.subrange(0, k) =~= sfx);
                        assert(split_dots(sfx) == seq![segment@]);
                        assert(split_dots(sfx).drop_first() =~= Seq::<Seq<u8>>::empty());
                    }
                }
                value = match value.step(segment) {
                    Some(v) => v,
                    None => {
                        return None;
                    },
                };
                proof {
                    assert(walk_path(c, nd, value.idx_view(), Seq::empty()) == Some(value.idx_view()));
                }
                if i == bytes.len() {
                    return Some(value);
                }
                seg_start = i + 1;
            }
            i += 1;
        }
    }
}

/// Byte-string equality.
pub fn bytes_eq(a: &[u8], b: &[u8]) -> (r: bool)
    ensures
        r == (a@ == b@),
{
    if a.len() != b.len() {
        return false;
    }
    let mut i: usize = 0;
    while i < a.len()
        invariant
            a@.len() == b@.len(),
            0 <= i <= a@.len(),
            forall|j: int| 0 <= j < i ==> a@[j] == b@[j],
        decreases a@.len() - i,
    {
        if a[i] != b[i] {
            return false;
        }
        i += 1;
    }
    assert(a@ =~= b@);
    true
}

/// Every byte is a decimal digit.
pub open spec fn all_digits(d: Seq<u8>) -> bool {
    forall|i: int| 0 <= i < d.len() ==> #[trigger] crate::validate::http::spec_digit(d[i])
}

/// The value of `usize`'s decimal parsing of `s`: an optional `+`, then one
/// or more digits, with no overflow.
pub open spec fn spec_parse_usize(s: Seq<u8>) -> Option<usize> {
    let d = if s.len() > 0 && s[0] == 0x2B {
        s.drop_first()
    } else {
        s
    };
    if d.len() >= 1 && all_digits(d) && crate::validate::http::dec_value(d) <= usize::MAX {
        Some(crate::validate::http::dec_value(d) as usize)
    } else {
        None
    }
}

/// Parses a decimal `usize` as `str::parse::<usize>` does: an optional `+`,
/// then one or more digits; `None` on anything else or on overflow.
pub fn parse_usize(s: &[u8]) -> (r: Option<usize>)
    ensures
        r == spec_parse_usize(s@),
{
    let start: usize = if s.len() > 0 && s[0] == 0x2B {
        1
    } else {
        0
    };
    let ghost d = if s@.len() > 0 && s@[0] == 0x2B {
        s@.drop_first()
    } else {
        s@
    };
    assert(d =~= s@.subrange(start as int, s@.len() as int));
    if start >= s.len() {
        return None;
    }
    let mut n: usize = 0;
    let mut i: usize = start;
    while i < s.len()
        invariant
            start <= i <= s@.len(),
            d =~= s@.subrange(start as int, s@.len() as int),
            d == (if s@.len() > 0 && s@[0] == 0x2B {
                s@.drop_first()
            } else {
                s@
            }),
            n == crate::validate::http::dec_value(s@.subrange(start as int, i as int)),
            forall|j: int| start <= j < i ==> #[trigger] crate::validate::http::spec_digit(s@[j]),
        decreases s@.len() - i,
    {
        let b = s[i];
        if !(0x30 <= b && b <= 0x39) {
            assert(d[i - start] == s@[i as int]);
            assert(!crate::validate::http::spec_digit(d[i - start]));
            assert(!all_digits(d));
            return None;
        }
        let ghost t = s@.subrange(start as int, i + 1);
        assert(t.drop_last() =~= s@.subrange(start as int, i as int));
        if n > (usize::MAX - (b - 0x30) as usize) / 10 {
            proof {
                assert(t.last() == b);
                let g: int = (b - 0x30) as int;
                let nn: int = n as int;
                let m: int = usize::MAX as int;
                assert(nn * 10 + g > m) by (nonlinear_arith)
                    requires
                        nn > (m - g) / 10,
                        0 <= g <= 9,
                        m > 9,
                ;
                assert(crate::validate::http::dec_value(t) == nn * 10 + g);
                if all_digits(d) {
                    lemma_dec_value_monotone(d, (i + 1 - start) as int);
                    assert(d.subrange(0, (i + 1 - start) as int) =~= t);
                }
            }
            return None;
        }
        n = n * 10 + (b - 0x30) as usize;
        i += 1;
    }
    proof {
        assert forall|j: int| 0 <= j < d.len() implies #[trigger] crate::validate::http::spec_digit(d[j]) by {
            assert(d[j] == s@[start + j]);
        }
        assert(all_digits(d));
        assert(s@.subrange(start as int, s@.len() as int) =~= d);
    }
    Some(n)
}

/// A decimal number is at least the value of any of its prefixes.
pub proof fn lemma_dec_value_monotone(d: Seq<u8>, k: int)
    requires
        0 <= k <= d.len(),
        forall|i: int| 0 <= i < d.len() ==> #[trigger] crate::validate::http::spec_digit(d[i]),
    ensures
        crate::validate::http::dec_value(d.subrange(0, k)) <= crate::validate::http::dec_value(d),
    decreases d.len() - k,
{
    if k < d.len() {
        lemma_dec_value_monotone(d, k + 1);
        let t = d.subrange(0, k + 1);
        assert(t.drop_last() =~= d.subrange(0, k));
        assert(t.last() == d[k]);
        assert(crate::validate::http::spec_digit(d[k]));
    } else {
        assert(d.subrange(0, k) =~= d);
    }
}

/// A verified object-member key.
#[derive(Debug, Clone, Copy)]
pub struct JsonKey<'t> {
    content: &'t [u8],
    node: JsonNode,
}

impl<'t> JsonKey<'t> {
    /// The decoded body content.
    pub closed spec fn content_view(&self) -> Seq<u8> {
        self.content@
    }

    /// The key's node.
    pub closed spec fn node_view(&self) -> JsonNode {
        self.node
    }

    /// Returns the raw content bytes between the quotes.
    pub fn raw(&self) -> (r: &'t [u8])
        ensures
            r@ == span_view(self.content_view(), Span { start: self.node_view().start, end: self.node_view().end }),
    {
        slice_span(self.content, Span::new(self.node.start, self.node.end))
    }

    /// Returns the key content between the quotes (escapes left raw), or
    /// `""` if it is not UTF-8.
    pub fn as_str(&self) -> (r: &'t str)
        ensures
            str_reading(r, span_view(self.content_view(), Span { start: self.node_view().start, end: self.node_view().end })),
    {
        str_span(self.content, Span::new(self.node.start, self.node.end))
    }

    /// Returns the key's content span (quotes excluded).
    pub fn span(&self) -> (r: Span)
        ensures
            r == (Span { start: self.node_view().start, end: self.node_view().end }),
    {
        Span::new(self.node.start, self.node.end)
    }
}

/// Iterator over a JSON array's elements.
#[derive(Debug, Clone)]
pub struct JsonArrayIter<'t> {
    content: &'t [u8],
    nodes: &'t [JsonNode],
    next: usize,
    end: usize,
}

impl<'t> JsonArrayIter<'t> {
    /// The decoded body content.
    pub closed spec fn content_view(&self) -> Seq<u8> {
        self.content@
    }

    /// The node table.
    pub closed spec fn nodes_view(&self) -> Seq<JsonNode> {
        self.nodes@
    }

    /// Node index of the next element's subtree root.
    pub closed spec fn next_view(&self) -> int {
        self.next as int
    }

    /// One past the array's subtree.
    pub closed spec fn end_view(&self) -> int {
        self.end as int
    }

    /// Returns the next element, jumping over its whole subtree.
    pub fn next(&mut self) -> (r: Option<JsonValue<'t>>)
        ensures
            final(self).content_view() == old(self).content_view(),
            final(self).nodes_view() == old(self).nodes_view(),
            final(self).end_view() == old(self).end_view(),
            old(self).next_view() >= old(self).end_view() ==> r is None && final(self).next_view()
                == old(self).next_view(),
            old(self).next_view() < old(self).end_view() ==> {
                &&& r matches Some(v) && v.content_view() == old(self).content_view()
                    && v.nodes_view() == old(self).nodes_view() && v.idx_view() == old(self).next_view()
                &&& final(self).next_view() > old(self).next_view()
                &&& final(self).next_view() == sat_add_usize(
                    old(self).next_view(),
                    jump(old(self).nodes_view(), old(self).next_view()),
                )
            },
    {
        if self.next >= self.end {
            return None;
        }
        let idx = self.next;
        let size: usize = if idx < self.nodes.len() {
            let s = self.nodes[idx].size;
            if s >= 1 {
                s as usize
            } else {
                1
            }
        } else {
            1
        };
        self.next = idx.saturating_add(size);
        Some(JsonValue { content: self.content, nodes: self.nodes, idx })
    }
}

/// Iterator over a JSON object's members in document order.
#[derive(Debug, Clone)]
pub struct JsonObjectIter<'t> {
    content: &'t [u8],
    nodes: &'t [JsonNode],
    next: usize,
    end: usize,
}

impl<'t> JsonObjectIter<'t> {
    /// The decoded body content.
    pub closed spec fn content_view(&self) -> Seq<u8> {
        self.content@
    }

    /// The node table.
    pub closed spec fn nodes_view(&self) -> Seq<JsonNode> {
        self.nodes@
    }

    /// Node index of the next member's key.
    pub closed spec fn next_view(&self) -> int {
        self.next as int
    }

    /// One past the object's subtree.
    pub closed spec fn end_view(&self) -> int {
        self.end as int
    }

    /// Returns the next (key, value) member, jumping over the value's whole
    /// subtree; stops at a key without a value.
    pub fn next(&mut self) -> (r: Option<(JsonKey<'t>, JsonValue<'t>)>)
        ensures
            final(self).content_view() == old(self).content_view(),
            final(self).nodes_view() == old(self).nodes_view(),
            final(self).end_view() == old(self).end_view(),
            final(self).next_view() >= old(self).next_view(),
            r is Some ==> final(self).next_view() > old(self).next_view(),
            r is Some ==> final(self).next_view() == sat_add_usize(
                old(self).next_view() + 1,
                jump(old(self).nodes_view(), old(self).next_view() + 1),
            ),
            r matches Some((k, v)) ==> {
                &&& old(self).next_view() + 1 < old(self).end_view()
                &&& old(self).next_view() + 1 < old(self).nodes_view().len()
                &&& k.content_view() == old(self).content_view()
                &&& k.node_view() == old(self).nodes_view()[old(self).next_view()]
                &&& v.content_view() == old(self).content_view()
                &&& v.nodes_view() == old(self).nodes_view()
                &&& v.idx_view() == old(self).next_view() + 1
            },
            (old(self).next_view() < old(self).end_view() && old(self).next_view() + 1 < old(self).end_view()
                && old(self).next_view() + 1 < old(self).nodes_view().len()) <==> r is Some,
    {
        if self.next >= self.end {
            return None;
        }
        let key_idx = self.next;
        let value_idx = key_idx.saturating_add(1);
        if !(key_idx < self.nodes.len() && value_idx < self.end && value_idx < self.nodes.len()) {
            self.next = self.end;
            return None;
        }
        let key_node = self.nodes[key_idx];
        let value_node = self.nodes[value_idx];
        let size: usize = if value_node.size >= 1 {
            value_node.size as usize
        } else {
            1
        };
        self.next = value_idx.saturating_add(size);
        Some(
            (
                JsonKey { content: self.content, node: key_node },
                JsonValue { content: self.content, nodes: self.nodes, idx: value_idx },
            ),
        )
    }
}

} // verus!
