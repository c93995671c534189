# transcript-verify

Verified validation of pre-parsed HTTP/1.1 + JSON transcript span tables,
with verified range-set utilities, written in Verus.

- `src/validate/` — the in-VM validator: re-derives every span of a
  `SpanTable` from the `sent`/`recv` bytes and equality-checks it
  (`validate`), including de-chunking and the lockstep JSON node check;
  `validate` accepts exactly the tables that are the parse of the bytes.
  `laws.rs` proves that for fixed bytes the HTTP part of a validating table
  is unique; `json_read.rs` holds the facts about the JSON read that show
  any other node table is rejected; `message_laws.rs` states what a
  validated transcript guarantees of its header, trailer and body records;
  `json_laws.rs` states that every node of a JSON parse spans its lexeme
  and the root spans the trimmed text.
- `src/host/` — the host-side producer of span tables (`parse_transcript`),
  which succeeds exactly on transcripts some table describes, and the JSON
  node-table emitter.
- `src/transcript.rs`, `src/json_path.rs` — zero-copy accessors over a
  validated transcript, and the navigation of JSON values by dot path.
- `src/range/` — `RangeSet`, a set of `usize` values kept as sorted,
  non-adjacent, non-empty ranges; union, difference, intersection,
  symmetric difference, subset tests, minimum set cover, iteration and
  indexing, each stated over the set of values held.
- `src/invert_range.rs`, `src/filter_drain.rs`, `src/small_set.rs` —
  range complement, lazy filtered removal from a vector, fuzzing helpers.
- `src/mux.rs` — the decisions of the id-multiplexer: stream/caller
  matching by id, id reading and writing, connection state.
- `app/` — what runs around the library: the serde wire form of the span
  table, the async yamux driver, framed streams over it, and async stream
  adapters.
