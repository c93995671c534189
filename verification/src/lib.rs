//! Validation of pre-parsed HTTP/JSON transcript span tables, and range-set
//! utilities.
use vstd::prelude::*;

pub mod error;
pub mod filter_drain;
pub mod framed;
pub mod host;
pub mod invert_range;
pub mod json_path;
pub mod mux;
pub mod range;
pub mod small_set;
pub mod source_map;
pub mod spans;
pub mod thread_builder;
pub mod transcript;
pub mod utf8;
pub mod validate;

pub use error::{Error, HostError};
pub use framed::FramedMux;
pub use host::parse_transcript;
pub use invert_range::{RangeError, invert_range};
pub use transcript::{
    Body, Header, Headers, HeadersWithName, JsonArrayIter, JsonKey, JsonObjectIter, JsonValue,
    Request, Response, Transcript,
};
pub use validate::validate;
pub use spans::{
    BodySpans, FORMAT_VERSION, Framing, HeaderSpan, JsonKind, JsonNode, JsonSpans, RequestSpans,
    ResponseSpans, Span, SpanTable,
};

verus! {

} // verus!
