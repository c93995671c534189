//! What the parse of a JSON text guarantees of every node of its table:
//! each node's span holds exactly its lexeme.
use vstd::prelude::*;

use crate::spans::{JsonKind, JsonNode};
use crate::validate::http::lit_at;
use crate::validate::json::{
    json_parse, jws_end, lemma_scan_number, lemma_string_rest_end, read_close, read_from,
    read_member, read_step, scalar_end, spec_scan_number, spec_scan_string, value_kind, ReadState,
    ReadStep,
};
use crate::validate::json_read::{
    holds_open, kept_at, keeps, lemma_close_keeps_read, lemma_jws_end, lemma_member_keeps_read,
    lemma_step_keeps, read_wf,
};
use crate::utf8::utf8_valid;

verus! {

/// The span of node `n` in `c` holds exactly its lexeme: a string's or a
/// key's content between its quotes, a whole number lexeme, `null`,
/// `true` or `false`, or a container from its opening bracket through its
/// closing one.
pub open spec fn node_lexeme_ok(c: Seq<u8>, n: JsonNode) -> bool {
    let (s, e) = (n.start as int, n.end as int);
    match n.kind {
        JsonKind::String => s >= 1 && spec_scan_string(c, s - 1) == Some(e + 1),
        JsonKind::Key => s >= 1 && spec_scan_string(c, s - 1) == Some(e + 1),
        JsonKind::Number => spec_scan_number(c, s) == Some(e),
        JsonKind::Null => e == s + 4 && lit_at(c, s, seq![0x6eu8, 0x75u8, 0x6cu8, 0x6cu8]),
        JsonKind::Bool => (e == s + 4 && lit_at(c, s, seq![0x74u8, 0x72u8, 0x75u8, 0x65u8])) || (e == s
            + 5 && lit_at(c, s, seq![0x66u8, 0x61u8, 0x6cu8, 0x73u8, 0x65u8])),
        JsonKind::Object => 0 <= s < e <= c.len() && c[s] == 0x7B && c[e - 1] == 0x7D,
        JsonKind::Array => 0 <= s < e <= c.len() && c[s] == 0x5B && c[e - 1] == 0x5D,
    }
}

/// The node opens a container at its start: an object with `{`, an array
/// with `[`.
pub open spec fn node_opens(c: Seq<u8>, n: JsonNode, is_object: bool) -> bool {
    &&& 0 <= n.start < c.len()
    &&& n.kind == (if is_object {
        JsonKind::Object
    } else {
        JsonKind::Array
    })
    &&& c[n.start as int] == (if is_object {
        0x7Bu8
    } else {
        0x5Bu8
    })
}

/// Every node read so far starts before the cursor; an open container's
/// node opens it, and every other node holds its lexeme.
pub open spec fn lexemes_so_far(c: Seq<u8>, s: ReadState) -> bool {
    &&& forall|j: int| 0 <= j < s.out.len() ==> (#[trigger] s.out[j]).start < s.p
    &&& forall|i: int|
        0 <= i < s.stack.len() ==> node_opens(c, s.out[(#[trigger] s.stack[i]).node], s.stack[i].is_object)
    &&& forall|j: int|
        0 <= j < s.out.len() && !holds_open(s.stack, j) ==> node_lexeme_ok(c, #[trigger] s.out[j])
}

/// Closing the innermost container at `s.p` keeps every lexeme.
proof fn lemma_close_lexemes(c: Seq<u8>, s: ReadState)
    requires
        read_wf(s),
        lexemes_so_far(c, s),
        s.stack.len() > 0,
        1 <= s.p <= c.len() <= u32::MAX,
        c[s.p - 1] == (if s.stack.last().is_object {
            0x7Du8
        } else {
            0x5Du8
        }),
        read_close(s) is Next,
    ensures
        lexemes_so_far(c, read_close(s)->0),
{
    let s2 = read_close(s)->0;
    let t = s.stack.len() - 1;
    let top = s.stack[t];
    assert(s.stack.last() == top);
    lemma_close_keeps_read(s);
    assert(node_opens(c, s.out[top.node], top.is_object));
    assert forall|j: int| 0 <= j < s2.out.len() implies (#[trigger] s2.out[j]).start < s2.p by {
        assert(s.out[j].start < s.p);
    }
    assert forall|i: int| 0 <= i < s2.stack.len() implies node_opens(
        c,
        s2.out[(#[trigger] s2.stack[i]).node],
        s2.stack[i].is_object,
    ) by {
        assert(s2.stack[i] == s.stack[i]);
        assert(s.stack[i].node < top.node);
        assert(node_opens(c, s.out[s.stack[i].node], s.stack[i].is_object));
    }
    assert forall|j: int| 0 <= j < s2.out.len() && !holds_open(s2.stack, j) implies node_lexeme_ok(
        c,
        #[trigger] s2.out[j],
    ) by {
        if j != top.node {
            assert(kept_at(s, s2.out, s2.stack, j));
            if holds_open(s.stack, j) {
                let i = choose|i: int| 0 <= i < s.stack.len() && #[trigger] s.stack[i].node == j;
                if i < t {
                    assert(s2.stack[i] == s.stack[i]);
                }
            }
        }
    }
}

/// Reading a member key keeps every lexeme and adds the key's.
proof fn lemma_member_lexemes(c: Seq<u8>, s: ReadState)
    requires
        read_wf(s),
        lexemes_so_far(c, s),
        c.len() <= u32::MAX,
        read_member(c, s) is Next,
    ensures
        lexemes_so_far(c, read_member(c, s)->0),
{
    let s2 = read_member(c, s)->0;
    let p = s.p;
    let end = spec_scan_string(c, p)->0;
    lemma_string_rest_end(c, p + 1);
    lemma_jws_end(c, end);
    lemma_jws_end(c, jws_end(c, end) + 1);
    lemma_member_keeps_read(c, s);
    let k = s.out.len() as int;
    assert forall|j: int| 0 <= j < s2.out.len() implies (#[trigger] s2.out[j]).start < s2.p by {
        if j < k {
            assert(s2.out[j] == s.out[j]);
        }
    }
    assert forall|i: int| 0 <= i < s2.stack.len() implies node_opens(
        c,
        s2.out[(#[trigger] s2.stack[i]).node],
        s2.stack[i].is_object,
    ) by {
        assert(s2.stack[i].node == s.stack[i].node);
        assert(s2.stack[i].is_object == s.stack[i].is_object);
        assert(s2.out[s.stack[i].node] == s.out[s.stack[i].node]);
        assert(node_opens(c, s.out[s.stack[i].node], s.stack[i].is_object));
    }
    assert forall|j: int| 0 <= j < s2.out.len() && !holds_open(s2.stack, j) implies node_lexeme_ok(
        c,
        #[trigger] s2.out[j],
    ) by {
        if j < k {
            assert(s2.out[j] == s.out[j]);
            if holds_open(s.stack, j) {
                let i = choose|i: int| 0 <= i < s.stack.len() && #[trigger] s.stack[i].node == j;
                assert(s2.stack[i].node == j);
            }
        }
    }
}

/// One step of the read keeps every lexeme.
proof fn lemma_step_lexemes(c: Seq<u8>, s: ReadState)
    requires
        read_wf(s),
        lexemes_so_far(c, s),
        c.len() <= u32::MAX,
        0 <= s.p,
        read_step(c, s) is Next,
    ensures
        lexemes_so_far(c, read_step(c, s)->0),
{
    lemma_step_keeps(c, s);
    let p = s.p;
    let k = s.out.len() as int;
    let s_end = read_step(c, s)->0;
    if s.expect_value {
        let kind = value_kind(c[p])->0;
        let start = if kind == JsonKind::String {
            p + 1
        } else {
            p
        };
        if kind == JsonKind::Object || kind == JsonKind::Array {
            let is_object = kind == JsonKind::Object;
            let s1 = ReadState {
                p: jws_end(c, p + 1),
                stack: s.stack.push(
                    crate::validate::json::OpenContainer { node: k, is_object, keys: Seq::empty() },
                ),
                expect_value: true,
                out: s.out.push(JsonNode { kind, start: start as u32, end: 0, size: 0 }),
            };
            lemma_jws_end(c, p + 1);
            crate::validate::json_read::lemma_open_keeps_read(s, s1, kind, start, is_object);
            let n = s.stack.len() as int;
            assert(s1.stack[n].node == k);
            assert forall|j: int| 0 <= j < s1.out.len() implies (#[trigger] s1.out[j]).start < s1.p by {
                if j < k {
                    assert(s1.out[j] == s.out[j]);
                }
            }
            assert forall|i: int| 0 <= i < s1.stack.len() implies node_opens(
                c,
                s1.out[(#[trigger] s1.stack[i]).node],
                s1.stack[i].is_object,
            ) by {
                if i < n {
                    assert(s1.stack[i] == s.stack[i]);
                    assert(s1.out[s.stack[i].node] == s.out[s.stack[i].node]);
                    assert(node_opens(c, s.out[s.stack[i].node], s.stack[i].is_object));
                }
            }
            assert forall|j: int| 0 <= j < s1.out.len() && !holds_open(s1.stack, j) implies node_lexeme_ok(
                c,
                #[trigger] s1.out[j],
            ) by {
                if j < k {
                    assert(s1.out[j] == s.out[j]);
                    if holds_open(s.stack, j) {
                        let i = choose|i: int| 0 <= i < s.stack.len() && #[trigger] s.stack[i].node == j;
                        assert(s1.stack[i] == s.stack[i]);
                    }
                } else {
                    assert(s1.stack[n].node == j);
                }
            }
            assert(lexemes_so_far(c, s1));
            let q = s1.p;
            let closer: u8 = if is_object {
                0x7D
            } else {
                0x5D
            };
            if q < c.len() && c[q] == closer {
                let s2 = ReadState { p: q + 1, expect_value: false, ..s1 };
                assert(s2.stack.last() == s1.stack[n]);
                assert forall|j: int| 0 <= j < s2.out.len() implies (#[trigger] s2.out[j]).start < s2.p by {
                    assert(s1.out[j].start < s1.p);
                }
                lemma_close_lexemes(c, s2);
            } else if is_object {
                lemma_member_lexemes(c, s1);
            }
        } else {
            let e = scalar_end(c, p, kind)->0;
            if kind == JsonKind::String {
                lemma_string_rest_end(c, p + 1);
            } else if kind == JsonKind::Number {
                lemma_scan_number(c, p);
            }
            assert forall|j: int| 0 <= j < s_end.out.len() implies (#[trigger] s_end.out[j]).start < s_end.p by {
                if j < k {
                    assert(s_end.out[j] == s.out[j]);
                }
            }
            assert forall|i: int| 0 <= i < s_end.stack.len() implies node_opens(
                c,
                s_end.out[(#[trigger] s_end.stack[i]).node],
                s_end.stack[i].is_object,
            ) by {
                assert(s_end.out[s.stack[i].node] == s.out[s.stack[i].node]);
            }
            assert forall|j: int| 0 <= j < s_end.out.len() && !holds_open(s_end.stack, j) implies node_lexeme_ok(
                c,
                #[trigger] s_end.out[j],
            ) by {
                if j < k {
                    assert(s_end.out[j] == s.out[j]);
                }
            }
        }
    } else {
        let top = s.stack.last();
        let q = jws_end(c, p);
        lemma_jws_end(c, p);
        if c[q] == 0x2C {
            let s1 = ReadState { p: jws_end(c, q + 1), expect_value: true, ..s };
            lemma_jws_end(c, q + 1);
            assert forall|j: int| 0 <= j < s1.out.len() implies (#[trigger] s1.out[j]).start < s1.p by {
                assert(s.out[j].start < s.p);
            }
            if top.is_object {
                lemma_member_lexemes(c, s1);
            }
        } else {
            let s2 = ReadState { p: q + 1, expect_value: false, ..s };
            assert forall|j: int| 0 <= j < s2.out.len() implies (#[trigger] s2.out[j]).start < s2.p by {
                assert(s.out[j].start < s.p);
            }
            lemma_close_lexemes(c, s2);
        }
    }
}

/// A successful read from a state whose lexemes hold gives a table whose
/// every node holds its lexeme.
proof fn lemma_read_lexemes(c: Seq<u8>, s: ReadState)
    requires
        read_wf(s),
        lexemes_so_far(c, s),
        c.len() <= u32::MAX,
        0 <= s.p,
        read_from(c, s) is Some,
    ensures
        forall|j: int|
            0 <= j < (read_from(c, s)->0).len() ==> node_lexeme_ok(c, #[trigger] (read_from(c, s)->0)[j]),
    decreases c.len() - s.p,
{
    match read_step(c, s) {
        ReadStep::Fail => {},
        ReadStep::Done => {
            assert forall|j: int| 0 <= j < s.out.len() implies node_lexeme_ok(c, #[trigger] s.out[j]) by {
                assert(!holds_open(s.stack, j));
            }
        },
        ReadStep::Next(s2) => {
            lemma_step_keeps(c, s);
            lemma_step_lexemes(c, s);
            lemma_read_lexemes(c, s2);
        },
    }
}

/// In the parse of a JSON text, every node's span holds exactly its
/// lexeme: a string's or a key's content lies between two quotes that
/// delimit a well-formed string; a number's span is a whole number lexeme;
/// a `null` spans `null`, a boolean `true` or `false`; and a container
/// spans its brackets.
pub proof fn law_parse_lexemes(c: Seq<u8>)
    requires
        c.len() <= u32::MAX,
        json_parse(c) is Some,
    ensures
        forall|j: int|
            0 <= j < (json_parse(c)->0).len() ==> node_lexeme_ok(c, #[trigger] (json_parse(c)->0)[j]),
{
    let s0 = ReadState { p: jws_end(c, 0), stack: Seq::empty(), expect_value: true, out: Seq::empty() };
    lemma_jws_end(c, 0);
    assert(utf8_valid(c));
    lemma_read_lexemes(c, s0);
}

/// One past the lexeme of a value node: past the closing quote for a
/// string.
pub open spec fn lexeme_past(n: JsonNode) -> int {
    if n.kind == JsonKind::String {
        n.end + 1
    } else {
        n.end as int
    }
}

/// The root node spans the text with the surrounding whitespace trimmed:
/// its lexeme starts at the first byte that is not whitespace and only
/// whitespace follows it.
pub open spec fn root_spans_trimmed(c: Seq<u8>, n: JsonNode) -> bool {
    let first = jws_end(c, 0);
    &&& n.start == (if n.kind == JsonKind::String {
        first + 1
    } else {
        first
    })
    &&& jws_end(c, lexeme_past(n)) == c.len()
}

/// Where the root stands during the read: it starts at the first byte that
/// is not whitespace; it is the outermost open container; and once it is
/// complete the cursor is just past it.
pub open spec fn root_so_far(c: Seq<u8>, s: ReadState) -> bool {
    let first = jws_end(c, 0);
    &&& s.out.len() > 0 ==> s.out[0].start == (if s.out[0].kind == JsonKind::String {
        first + 1
    } else {
        first
    })
    &&& s.stack.len() > 0 ==> s.stack[0].node == 0 && s.out[0].kind != JsonKind::String
    &&& s.expect_value && s.stack.len() == 0 ==> s.out.len() == 0 && s.p == first
    &&& !s.expect_value && s.stack.len() == 0 ==> s.out.len() > 0 && s.p == lexeme_past(s.out[0])
}

/// One step of the read keeps where the root stands.
proof fn lemma_step_root(c: Seq<u8>, s: ReadState)
    requires
        read_wf(s),
        root_so_far(c, s),
        c.len() <= u32::MAX,
        0 <= s.p,
        read_step(c, s) is Next,
    ensures
        root_so_far(c, read_step(c, s)->0),
{
    lemma_step_keeps(c, s);
    let s2 = read_step(c, s)->0;
    let p = s.p;
    let k = s.out.len() as int;
    if k > 0 {
        assert(kept_at(s, s2.out, s2.stack, 0));
    }
    if s.expect_value {
        let kind = value_kind(c[p])->0;
        if kind == JsonKind::Object || kind == JsonKind::Array {
            let is_object = kind == JsonKind::Object;
            let start = p;
            let s1 = ReadState {
                p: jws_end(c, p + 1),
                stack: s.stack.push(
                    crate::validate::json::OpenContainer { node: k, is_object, keys: Seq::empty() },
                ),
                expect_value: true,
                out: s.out.push(JsonNode { kind, start: start as u32, end: 0, size: 0 }),
            };
            assert(s1.stack[0].node == (if s.stack.len() > 0 {
                s.stack[0].node
            } else {
                k
            }));
            let q = s1.p;
            let closer: u8 = if is_object {
                0x7D
            } else {
                0x5D
            };
            if q < c.len() && c[q] == closer {
                let s3 = ReadState { p: q + 1, expect_value: false, ..s1 };
                assert(s3.stack.last() == s1.stack[s.stack.len() as int]);
                if s.stack.len() > 0 {
                    assert(s2.stack[0] == s1.stack[0]);
                }
                assert(root_so_far(c, s2));
            } else if is_object {
                let s3 = read_member(c, s1)->0;
                assert(s3.stack.len() == s1.stack.len());
                assert(s3.stack[0].node == s1.stack[0].node);
                assert(root_so_far(c, s2));
            } else {
                assert(root_so_far(c, s2));
            }
        } else {
            let e = scalar_end(c, p, kind)->0;
            if kind == JsonKind::String {
                lemma_string_rest_end(c, p + 1);
            } else if kind == JsonKind::Number {
                lemma_scan_number(c, p);
            }
            assert(root_so_far(c, s2));
        }
    } else {
        let top = s.stack.last();
        let q = jws_end(c, p);
        lemma_jws_end(c, p);
        if c[q] == 0x2C {
            let s1 = ReadState { p: jws_end(c, q + 1), expect_value: true, ..s };
            if top.is_object {
                let s3 = read_member(c, s1)->0;
                assert(s3.stack[0].node == s1.stack[0].node);
            }
            assert(root_so_far(c, s2));
        } else {
            let s3 = ReadState { p: q + 1, expect_value: false, ..s };
            assert(s3.stack.last() == s.stack[s.stack.len() - 1]);
            if s.stack.len() > 1 {
                assert(s2.stack[0] == s.stack[0]);
            } else {
                assert(s3.stack.last().node == 0);
                assert(s2.out[0].end == (q + 1) as u32);
            }
            assert(root_so_far(c, s2));
        }
    }
}

/// A successful read from a state where the root stands as it should gives
/// a root that spans the trimmed text.
proof fn lemma_read_root(c: Seq<u8>, s: ReadState)
    requires
        read_wf(s),
        root_so_far(c, s),
        c.len() <= u32::MAX,
        0 <= s.p,
        read_from(c, s) is Some,
    ensures
        (read_from(c, s)->0).len() > 0,
        root_spans_trimmed(c, (read_from(c, s)->0)[0]),
    decreases c.len() - s.p,
{
    match read_step(c, s) {
        ReadStep::Fail => {},
        ReadStep::Done => {},
        ReadStep::Next(s2) => {
            lemma_step_keeps(c, s);
            lemma_step_root(c, s);
            lemma_read_root(c, s2);
        },
    }
}

/// The root node of the parse of a JSON text spans the text with the
/// surrounding whitespace trimmed.
pub proof fn law_parse_root_trimmed(c: Seq<u8>)
    requires
        c.len() <= u32::MAX,
        json_parse(c) is Some,
    ensures
        root_spans_trimmed(c, (json_parse(c)->0)[0]),
{
    let s0 = ReadState { p: jws_end(c, 0), stack: Seq::empty(), expect_value: true, out: Seq::empty() };
    lemma_jws_end(c, 0);
    assert(utf8_valid(c));
    lemma_read_root(c, s0);
}

} // verus!
