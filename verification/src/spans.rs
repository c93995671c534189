//! The span-table wire format.
//!
//! The table never steers parsing: the validator derives every field from the
//! transcript bytes and equality-checks it against the table, so for fixed
//! bytes at most one table (up to the JSON-vs-opaque body claim) validates.
use vstd::prelude::*;

verus! {

/// The current span-table format version.
pub const FORMAT_VERSION: u16 = 1;

/// A byte range, end-exclusive.
///
/// Depending on context a span is in source coordinates (offsets into `sent`
/// or `recv`) or decoded-body coordinates (offsets into a de-chunked body).
#[derive(Debug, Clone, Copy, PartialEq, Eq, Hash, Structural)]
pub struct Span {
    /// Offset of the first byte.
    pub start: u32,
    /// Offset one past the last byte.
    pub end: u32,
}

impl Span {
    /// Creates a new span.
    pub fn new(start: u32, end: u32) -> (s: Self)
        ensures
            s.start == start,
            s.end == end,
    {
        Span { start, end }
    }

    /// Returns the length in bytes (`end - start`), saturating to 0 for an
    /// inverted span.
    pub fn len(&self) -> (n: u32)
        ensures
            n == (if self.start <= self.end { self.end - self.start } else { 0 }),
    {
        self.end.saturating_sub(self.start)
    }

    /// Returns `true` if the span covers zero bytes.
    pub fn is_empty(&self) -> (b: bool)
        ensures
            b == (self.start >= self.end),
    {
        self.start >= self.end
    }

    /// Returns the span as a `usize` range, for slicing the buffer it indexes.
    pub fn as_range(&self) -> (r: std::ops::Range<usize>)
        ensures
            r.start == self.start,
            r.end == self.end,
    {
        (self.start as usize)..(self.end as usize)
    }
}

/// The parse witness for one transcript: a request in `sent`, a response in
/// `recv`.
#[derive(Debug, Clone, PartialEq, Eq)]
pub struct SpanTable {
    /// Format version; must equal [`FORMAT_VERSION`].
    pub version: u16,
    /// Spans into the `sent` buffer.
    pub request: RequestSpans,
    /// Spans into the `recv` buffer.
    pub response: ResponseSpans,
}

/// Spans describing the request in the `sent` buffer.
#[derive(Debug, Clone, PartialEq, Eq)]
pub struct RequestSpans {
    /// The request method: `tchar+` at byte 0, followed by one SP.
    pub method: Span,
    /// The request target: printable ASCII, followed by ` HTTP/1.1\r\n`.
    pub target: Span,
    /// Offset one past the CRLFCRLF terminating the head.
    pub head_end: u32,
    /// Every header line, in order of appearance.
    pub headers: Vec<HeaderSpan>,
    /// The body record; present iff the derived framing yields body bytes.
    pub body: Option<BodySpans>,
}

/// Spans describing the response in the `recv` buffer.
#[derive(Debug, Clone, PartialEq, Eq)]
pub struct ResponseSpans {
    /// The 3-digit status code, pinned to bytes `[9, 12)`.
    pub code: Span,
    /// The reason phrase: possibly empty, untrimmed, charset-checked.
    pub reason: Span,
    /// Offset one past the CRLFCRLF terminating the head.
    pub head_end: u32,
    /// Every header line, in order of appearance.
    pub headers: Vec<HeaderSpan>,
    /// The body record (HEAD responses and 1xx/204/304 never have one).
    pub body: Option<BodySpans>,
}

/// Spans for one header (or chunked-trailer) line, in source coordinates.
#[derive(Debug, Clone, Copy, PartialEq, Eq, Hash, Structural)]
pub struct HeaderSpan {
    /// The field name: the token before the `:`.
    pub name: Span,
    /// The field value, OWS-trimmed on both sides; an empty value is a
    /// zero-length span pinned at the terminating CR.
    pub value: Span,
}

/// How a message body is delimited.
#[derive(Debug, Clone, Copy, PartialEq, Eq, Hash, Structural)]
pub enum Framing {
    /// Body length given by a verified `Content-Length` header.
    ContentLength,
    /// `Transfer-Encoding: chunked`.
    Chunked,
    /// Close-delimited: the body extends to the end of the buffer
    /// (responses only).
    Close,
}

/// Spans describing one message body.
#[derive(Debug, Clone, PartialEq, Eq)]
pub struct BodySpans {
    /// The claimed framing; must equal the framing derived from the head.
    pub framing: Framing,
    /// The full source extent of the body section: `head_end..message_end`.
    pub raw: Span,
    /// The decoded body length.
    pub content_len: u32,
    /// Chunked-trailer lines, in order (chunked framing only).
    pub trailers: Vec<HeaderSpan>,
    /// The claim that the decoded body is JSON, with its node tree.
    pub json: Option<JsonSpans>,
}

/// The verified JSON parse tree of a decoded body, flattened pre-order.
#[derive(Debug, Clone, PartialEq, Eq)]
pub struct JsonSpans {
    /// Nodes in pre-order; `nodes[0]` is the root value.
    pub nodes: Vec<JsonNode>,
}

/// One node of the pre-order JSON tree, in decoded-body coordinates.
#[derive(Debug, Clone, Copy, PartialEq, Eq, Hash, Structural)]
pub struct JsonNode {
    /// The node's kind.
    pub kind: JsonKind,
    /// Span start (string/key content start; container `{`/`[`; lexeme
    /// start otherwise).
    pub start: u32,
    /// Span end, exclusive (string/key content end; one past `}`/`]`; one
    /// past the lexeme otherwise).
    pub end: u32,
    /// The number of nodes in this node's subtree, including itself.
    pub size: u32,
}

/// The kind of a JSON node.
#[derive(Debug, Clone, Copy, PartialEq, Eq, Hash, Structural)]
pub enum JsonKind {
    /// The literal `null`.
    Null,
    /// The literal `true` or `false`.
    Bool,
    /// A number.
    Number,
    /// A string value.
    String,
    /// An object-member key.
    Key,
    /// An object.
    Object,
    /// An array.
    Array,
}

} // verus!
