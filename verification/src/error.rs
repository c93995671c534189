//! Error types.
use vstd::prelude::*;

verus! {

/// The reason validation of a span table failed.
///
/// Every variant carries only `Copy` data (offsets and `&'static str`
/// reasons); the reasons are stable rule descriptions.
#[derive(Debug, Clone, Copy, PartialEq, Eq, Hash)]
pub enum Error {
    /// The table's format version is not supported.
    Version {
        /// The supported version.
        expected: u16,
        /// The version found in the table.
        found: u16,
    },
    /// An input buffer exceeds the 2^30-byte coordinate limit.
    TooLarge {
        /// The offending buffer's length.
        len: usize,
    },
    /// The table is structurally malformed in a way not tied to a position.
    Table {
        /// Which rule was violated.
        reason: &'static str,
    },
    /// A span in the table is inverted or outside its coordinate space.
    SpanOutOfBounds {
        /// The span's start offset.
        start: u32,
        /// The span's end offset.
        end: u32,
        /// The length of the coordinate space.
        len: u32,
        /// Which table field held the span.
        what: &'static str,
    },
    /// An HTTP grammar rule was violated during the byte walk.
    Http {
        /// Cursor position where the rule failed.
        at: u32,
        /// Which rule was violated.
        reason: &'static str,
    },
    /// The body record disagrees with the framing derived from the head, or
    /// the head facts themselves are framing-toxic.
    Framing {
        /// Which rule was violated.
        reason: &'static str,
    },
    /// A JSON rule was violated while checking a claimed JSON body.
    Json {
        /// Position in decoded-body coordinates.
        at: u32,
        /// Which rule was violated.
        reason: &'static str,
    },
}

/// The reason host-side span-table production failed.
#[derive(Debug)]
pub enum HostError {
    /// The transcript is outside this crate's scope or violates a rule the
    /// validator enforces (e.g. a non-canonical `Content-Length` value,
    /// `Content-Length` together with `Transfer-Encoding`).
    Unsupported {
        /// Which feature or limitation was hit.
        feature: &'static str,
        /// Details: the rule that was violated.
        detail: String,
    },
    /// An internal invariant failed: the emitted table failed the host's
    /// own self-check run of the validator.
    Internal {
        /// Which invariant failed.
        reason: &'static str,
        /// The validator error from the self-check, if that is what failed.
        source: Option<Error>,
    },
}

/// The rule description an error carries, as characters.
pub open spec fn reason_view(e: Error) -> Seq<char> {
    match e {
        Error::Version { .. } => "unsupported span-table format version"@,
        Error::TooLarge { .. } => "input buffer exceeds the 2^30-byte limit"@,
        Error::Table { reason } => reason@,
        Error::SpanOutOfBounds { what, .. } => what@,
        Error::Http { reason, .. } => reason@,
        Error::Framing { reason } => reason@,
        Error::Json { reason, .. } => reason@,
    }
}

/// The rule description an error carries.
pub fn error_reason(e: &Error) -> (r: &'static str)
    ensures
        r@ == reason_view(*e),
{
    match e {
        Error::Version { .. } => "unsupported span-table format version",
        Error::TooLarge { .. } => "input buffer exceeds the 2^30-byte limit",
        Error::Table { reason } => reason,
        Error::SpanOutOfBounds { what, .. } => what,
        Error::Http { reason, .. } => reason,
        Error::Framing { reason } => reason,
        Error::Json { reason, .. } => reason,
    }
}

/// An `Unsupported` host error for `feature`, detailed by `detail`.
pub fn unsupported(feature: &'static str, detail: &'static str) -> (e: HostError)
    ensures
        e matches HostError::Unsupported { feature: f, detail: d } && f == feature && d@ == detail@,
{
    HostError::Unsupported { feature, detail: detail.to_owned() }
}

} // verus!
