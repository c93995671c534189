//! What a read of JSON keeps from step to step: the nodes of closed
//! containers and leaves never change again, and every node keeps its
//! kind and start. From this, a table that disagrees with the read at any
//! point is not the parse.
use vstd::prelude::*;

use crate::spans::{JsonKind, JsonNode};
use crate::error::Error;
use crate::validate::json::{
    dup_report, json_error, jws_end, keys_dup, lemma_scan_number, lemma_string_rest_end, read_close,
    read_from, read_member, read_step, scalar_end, spec_jws, value_kind, json_parse, OpenContainer,
    ReadState, ReadStep, MAX_JSON_DEPTH,
};
use crate::utf8::utf8_valid;

verus! {

/// Node `j` is held by one of the open containers `st`.
pub open spec fn holds_open(st: Seq<OpenContainer>, j: int) -> bool {
    exists|i: int| 0 <= i < st.len() && #[trigger] st[i].node == j
}

/// A coherent read state: no more nodes than bytes passed, and the open
/// containers hold ascending nodes already read.
pub open spec fn read_wf(s: ReadState) -> bool {
    &&& s.out.len() <= s.p
    &&& forall|i: int| 0 <= i < s.stack.len() ==> 0 <= #[trigger] s.stack[i].node < s.out.len()
    &&& forall|i: int, i2: int|
        0 <= i < i2 < s.stack.len() ==> #[trigger] s.stack[i].node < #[trigger] s.stack[i2].node
}

/// Node `j` of `s` is kept in `out` (with open containers `st`): same kind
/// and start, and if it was not open it is unchanged and stays closed.
pub open spec fn kept_at(s: ReadState, out: Seq<JsonNode>, st: Seq<OpenContainer>, j: int) -> bool {
    &&& out[j].kind == s.out[j].kind
    &&& out[j].start == s.out[j].start
    &&& (!holds_open(s.stack, j) ==> out[j] == s.out[j] && !holds_open(st, j))
}

/// `out` (with open containers `st`) keeps every node read by `s`.
pub open spec fn keeps(s: ReadState, out: Seq<JsonNode>, st: Seq<OpenContainer>) -> bool {
    &&& s.out.len() <= out.len()
    &&& forall|j: int| 0 <= j < s.out.len() ==> #[trigger] kept_at(s, out, st, j)
}

/// Node `j` of the read state `s` rules out `nodes` as its final table.
pub open spec fn node_conflict(s: ReadState, nodes: Seq<JsonNode>, j: int) -> bool {
    ||| j >= nodes.len()
    ||| nodes[j].kind != s.out[j].kind
    ||| nodes[j].start != s.out[j].start
    ||| (!holds_open(s.stack, j) && nodes[j] != s.out[j])
}

/// Skipping whitespace moves forward and stays within the bytes.
pub proof fn lemma_jws_end(c: Seq<u8>, p: int)
    ensures
        p <= jws_end(c, p),
        0 <= p <= c.len() ==> jws_end(c, p) <= c.len(),
    decreases c.len() - p,
{
    if 0 <= p < c.len() && spec_jws(c[p]) {
        lemma_jws_end(c, p + 1);
    }
}

/// No open container of a coherent state holds a node not yet read.
pub proof fn lemma_not_open_past(s: ReadState, j: int)
    requires
        read_wf(s),
        j >= s.out.len(),
    ensures
        !holds_open(s.stack, j),
{
    if holds_open(s.stack, j) {
        let i = choose|i: int| 0 <= i < s.stack.len() && #[trigger] s.stack[i].node == j;
    }
}

/// Keeping is transitive.
pub proof fn lemma_keeps_trans(
    s: ReadState,
    s1: ReadState,
    out: Seq<JsonNode>,
    st: Seq<OpenContainer>,
)
    requires
        keeps(s, s1.out, s1.stack),
        keeps(s1, out, st),
    ensures
        keeps(s, out, st),
{
    assert forall|j: int| 0 <= j < s.out.len() implies #[trigger] kept_at(s, out, st, j) by {
        assert(kept_at(s, s1.out, s1.stack, j));
        assert(kept_at(s1, out, st, j));
    }
}

/// A state keeps itself.
pub proof fn lemma_keeps_refl(s: ReadState, s1: ReadState)
    requires
        s1.out == s.out,
        s1.stack == s.stack,
    ensures
        keeps(s, s1.out, s1.stack),
{
    assert forall|j: int| 0 <= j < s.out.len() implies #[trigger] kept_at(s, s1.out, s1.stack, j) by {}
}

/// Closing the innermost container keeps the read coherent; that
/// container's node stays closed from then on.
pub proof fn lemma_close_keeps_read(s: ReadState)
    requires
        read_wf(s),
        s.stack.len() > 0,
        read_close(s) is Next,
    ensures
        read_wf(read_close(s)->0),
        keeps(s, (read_close(s)->0).out, (read_close(s)->0).stack),
        (read_close(s)->0).p == s.p,
        !holds_open((read_close(s)->0).stack, s.stack.last().node),
{
    let s2 = read_close(s)->0;
    let t = s.stack.len() - 1;
    let ni = s.stack[t].node;
    assert(s.stack.last() == s.stack[t]);
    assert forall|i: int| 0 <= i < s2.stack.len() implies 0 <= #[trigger] s2.stack[i].node
        < s2.out.len() by {
        assert(s2.stack[i] == s.stack[i]);
    }
    assert forall|i: int, i2: int| 0 <= i < i2 < s2.stack.len() implies #[trigger] s2.stack[i].node
        < #[trigger] s2.stack[i2].node by {
        assert(s2.stack[i] == s.stack[i]);
        assert(s2.stack[i2] == s.stack[i2]);
    }
    assert forall|j: int| 0 <= j < s.out.len() implies #[trigger] kept_at(s, s2.out, s2.stack, j) by {
        if holds_open(s2.stack, j) {
            let i = choose|i: int| 0 <= i < s2.stack.len() && #[trigger] s2.stack[i].node == j;
            assert(s2.stack[i] == s.stack[i]);
            assert(s.stack[i].node == j);
        }
        if j == ni {
            assert(s.stack[t].node == j);
        }
    }
    if holds_open(s2.stack, ni) {
        let i = choose|i: int| 0 <= i < s2.stack.len() && #[trigger] s2.stack[i].node == ni;
        assert(s2.stack[i] == s.stack[i]);
        assert(s.stack[i].node < s.stack[t].node);
    }
}

/// Reading a member key keeps the read coherent; the key's node is a leaf.
pub proof fn lemma_member_keeps_read(c: Seq<u8>, s: ReadState)
    requires
        read_wf(s),
        read_member(c, s) is Next,
    ensures
        read_wf(read_member(c, s)->0),
        keeps(s, (read_member(c, s)->0).out, (read_member(c, s)->0).stack),
        s.p < (read_member(c, s)->0).p,
        (read_member(c, s)->0).out.len() == s.out.len() + 1,
        !holds_open((read_member(c, s)->0).stack, s.out.len() as int),
{
    let s2 = read_member(c, s)->0;
    let p = s.p;
    let end = crate::validate::json::spec_scan_string(c, p)->0;
    lemma_string_rest_end(c, p + 1);
    let q = jws_end(c, end);
    lemma_jws_end(c, end);
    lemma_jws_end(c, q + 1);
    let t = s.stack.len() - 1;
    assert(s.stack.last() == s.stack[t]);
    assert forall|i: int| 0 <= i < s.stack.len() implies #[trigger] s2.stack[i].node == s.stack[i].node by {}
    assert forall|i: int| 0 <= i < s2.stack.len() implies 0 <= #[trigger] s2.stack[i].node
        < s2.out.len() by {
        assert(s2.stack[i].node == s.stack[i].node);
    }
    assert forall|i: int, i2: int| 0 <= i < i2 < s2.stack.len() implies #[trigger] s2.stack[i].node
        < #[trigger] s2.stack[i2].node by {
        assert(s2.stack[i].node == s.stack[i].node);
        assert(s2.stack[i2].node == s.stack[i2].node);
    }
    assert forall|j: int| 0 <= j < s.out.len() implies #[trigger] kept_at(s, s2.out, s2.stack, j) by {
        assert(s2.out[j] == s.out[j]);
        if holds_open(s2.stack, j) {
            let i = choose|i: int| 0 <= i < s2.stack.len() && #[trigger] s2.stack[i].node == j;
            assert(s.stack[i].node == j);
        }
    }
    if holds_open(s2.stack, s.out.len() as int) {
        let i = choose|i: int| 0 <= i < s2.stack.len() && #[trigger] s2.stack[i].node == s.out.len();
        assert(s.stack[i].node == s2.stack[i].node);
    }
}

/// Opening a container keeps the read coherent.
pub proof fn lemma_open_keeps_read(s: ReadState, s1: ReadState, kind: JsonKind, start: int, is_object: bool)
    requires
        read_wf(s),
        s.p + 1 <= s1.p,
        s1.stack == s.stack.push(
            OpenContainer { node: s.out.len() as int, is_object, keys: Seq::empty() },
        ),
        s1.out == s.out.push(JsonNode { kind, start: start as u32, end: 0, size: 0 }),
    ensures
        read_wf(s1),
        keeps(s, s1.out, s1.stack),
{
    let n = s.stack.len() as int;
    assert forall|i: int| 0 <= i < s1.stack.len() implies 0 <= #[trigger] s1.stack[i].node
        < s1.out.len() by {
        if i < n {
            assert(s1.stack[i] == s.stack[i]);
        }
    }
    assert forall|i: int, i2: int| 0 <= i < i2 < s1.stack.len() implies #[trigger] s1.stack[i].node
        < #[trigger] s1.stack[i2].node by {
        assert(s1.stack[i] == s.stack[i]);
        if i2 < n {
            assert(s1.stack[i2] == s.stack[i2]);
        }
    }
    assert forall|j: int| 0 <= j < s.out.len() implies #[trigger] kept_at(s, s1.out, s1.stack, j) by {
        assert(s1.out[j] == s.out[j]);
        if holds_open(s1.stack, j) {
            let i = choose|i: int| 0 <= i < s1.stack.len() && #[trigger] s1.stack[i].node == j;
            if i < n {
                assert(s1.stack[i] == s.stack[i]);
                assert(s.stack[i].node == j);
            }
        }
    }
}

/// One step of the read keeps what was read, stays coherent and moves
/// forward; a value step reads its node at the old end of the table.
pub proof fn lemma_step_keeps(c: Seq<u8>, s: ReadState)
    requires
        read_wf(s),
        read_step(c, s) is Next,
    ensures
        ({
            let s2 = read_step(c, s)->0;
            let k = s.out.len() as int;
            &&& read_wf(s2)
            &&& keeps(s, s2.out, s2.stack)
            &&& s.p < s2.p
            &&& s.expect_value ==> {
                &&& 0 <= s.p < c.len()
                &&& k < s2.out.len()
                &&& value_kind(c[s.p]) == Some(s2.out[k].kind)
                &&& s2.out[k].start == (if c[s.p] == 0x22 {
                    s.p + 1
                } else {
                    s.p
                }) as u32
            }
        }),
{
    let p = s.p;
    let k = s.out.len() as int;
    let s_end = read_step(c, s)->0;
    if s.expect_value {
        let kind = value_kind(c[p])->0;
        let start = if kind == JsonKind::String {
            p + 1
        } else {
            p
        };
        if kind == JsonKind::Object || kind == JsonKind::Array {
            let is_object = kind == JsonKind::Object;
            let s1 = ReadState {
                p: jws_end(c, p + 1),
                stack: s.stack.push(OpenContainer { node: k, is_object, keys: Seq::empty() }),
                expect_value: true,
                out: s.out.push(JsonNode { kind, start: start as u32, end: 0, size: 0 }),
            };
            lemma_jws_end(c, p + 1);
            lemma_open_keeps_read(s, s1, kind, start, is_object);
            let q = s1.p;
            let closer: u8 = if is_object {
                0x7D
            } else {
                0x5D
            };
            if q < c.len() && c[q] == closer {
                let s2 = ReadState { p: q + 1, expect_value: false, ..s1 };
                lemma_keeps_refl(s1, s2);
                assert(s2.stack.last() == s2.stack[s2.stack.len() - 1]);
                lemma_close_keeps_read(s2);
                lemma_keeps_trans(s1, s2, s_end.out, s_end.stack);
            } else if is_object {
                lemma_member_keeps_read(c, s1);
            } else {
                lemma_keeps_refl(s1, s_end);
            }
            assert(kept_at(s1, s_end.out, s_end.stack, k));
            lemma_keeps_trans(s, s1, s_end.out, s_end.stack);
        } else {
            let e = scalar_end(c, p, kind)->0;
            if kind == JsonKind::String {
                lemma_string_rest_end(c, p + 1);
            } else if kind == JsonKind::Number {
                lemma_scan_number(c, p);
            }
            assert forall|j: int| 0 <= j < s.out.len() implies #[trigger] kept_at(
                s,
                s_end.out,
                s_end.stack,
                j,
            ) by {
                assert(s_end.out[j] == s.out[j]);
            }
        }
    } else {
        let top = s.stack.last();
        let q = jws_end(c, p);
        lemma_jws_end(c, p);
        if c[q] == 0x2C {
            let s1 = ReadState { p: jws_end(c, q + 1), expect_value: true, ..s };
            lemma_jws_end(c, q + 1);
            lemma_keeps_refl(s, s1);
            if top.is_object {
                lemma_member_keeps_read(c, s1);
                lemma_keeps_trans(s, s1, s_end.out, s_end.stack);
            }
        } else {
            let s2 = ReadState { p: q + 1, expect_value: false, ..s };
            lemma_keeps_refl(s, s2);
            lemma_close_keeps_read(s2);
            lemma_keeps_trans(s, s2, s_end.out, s_end.stack);
        }
    }
}

/// A successful read from a coherent state keeps every node read so far,
/// and gives no more nodes than bytes.
pub proof fn lemma_read_keeps(c: Seq<u8>, s: ReadState)
    requires
        read_wf(s),
        read_from(c, s) is Some,
    ensures
        keeps(s, read_from(c, s)->0, Seq::empty()),
        (read_from(c, s)->0).len() <= c.len(),
    decreases c.len() - s.p,
{
    match read_step(c, s) {
        ReadStep::Fail => {},
        ReadStep::Done => {
            lemma_jws_end(c, s.p);
            assert forall|j: int| 0 <= j < s.out.len() implies #[trigger] kept_at(
                s,
                s.out,
                Seq::empty(),
                j,
            ) by {}
        },
        ReadStep::Next(s2) => {
            lemma_step_keeps(c, s);
            lemma_read_keeps(c, s2);
            lemma_keeps_trans(s, s2, read_from(c, s)->0, Seq::empty());
        },
    }
}

/// A coherent state that disagrees with `nodes` at node `j` does not read
/// to `nodes`.
pub proof fn lemma_state_conflict(c: Seq<u8>, s: ReadState, nodes: Seq<JsonNode>, j: int)
    requires
        read_wf(s),
        0 <= j < s.out.len(),
        node_conflict(s, nodes, j),
    ensures
        read_from(c, s) != Some(nodes),
{
    if read_from(c, s) == Some(nodes) {
        lemma_read_keeps(c, s);
        assert(kept_at(s, nodes, Seq::empty(), j));
    }
}

/// A step into a state that disagrees with `nodes` at node `j` does not
/// read to `nodes`.
pub proof fn lemma_next_conflict(c: Seq<u8>, s: ReadState, nodes: Seq<JsonNode>, j: int)
    requires
        read_wf(s),
        read_step(c, s) is Next,
        0 <= j < (read_step(c, s)->0).out.len(),
        node_conflict(read_step(c, s)->0, nodes, j),
    ensures
        read_from(c, s) != Some(nodes),
{
    let s2 = read_step(c, s)->0;
    lemma_step_keeps(c, s);
    lemma_state_conflict(c, s2, nodes, j);
}

/// A value step that would read past the end of `nodes`, or read a node of
/// another kind or start than node `s.out.len()`, does not read to `nodes`.
pub proof fn lemma_value_conflict(c: Seq<u8>, s: ReadState, nodes: Seq<JsonNode>)
    requires
        read_wf(s),
        s.expect_value,
        0 <= s.p < c.len(),
        value_kind(c[s.p]) is Some,
        ({
            let k = s.out.len() as int;
            let kind = value_kind(c[s.p])->0;
            ||| k >= nodes.len()
            ||| nodes[k].kind != kind
            ||| nodes[k].start != (if c[s.p] == 0x22 {
                s.p + 1
            } else {
                s.p
            }) as u32
        }),
    ensures
        read_from(c, s) != Some(nodes),
{
    if read_step(c, s) is Next {
        lemma_step_keeps(c, s);
        lemma_next_conflict(c, s, nodes, s.out.len() as int);
    }
}

/// The state at which the read from `s` stops on bytes that are not JSON
/// (or on a container too deep, or a repeated key), if it does.
pub open spec fn fail_from(c: Seq<u8>, s: ReadState) -> Option<ReadState>
    decreases c.len() - s.p,
{
    match read_step(c, s) {
        ReadStep::Fail => Some(s),
        ReadStep::Done => None,
        ReadStep::Next(s2) => {
            if s.p < s2.p <= c.len() {
                fail_from(c, s2)
            } else {
                None
            }
        },
    }
}

/// The state at which the read of `c` fails, if `c` is UTF-8 and the read
/// fails.
pub open spec fn json_fail(c: Seq<u8>) -> Option<ReadState> {
    if !utf8_valid(c) {
        None
    } else {
        fail_from(
            c,
            ReadState { p: jws_end(c, 0), stack: Seq::empty(), expect_value: true, out: Seq::empty() },
        )
    }
}

/// The table holds every node read up to `s` (an open container's by kind
/// and start).
pub open spec fn table_agrees(nodes: Seq<JsonNode>, s: ReadState) -> bool {
    &&& s.out.len() <= nodes.len()
    &&& forall|j: int| 0 <= j < s.out.len() ==> !#[trigger] node_conflict(s, nodes, j)
}

/// At `s` the read opens a container with the maximum number already open.
pub open spec fn too_deep_at(c: Seq<u8>, s: ReadState) -> bool {
    &&& s.expect_value
    &&& 0 <= s.p < c.len()
    &&& (value_kind(c[s.p]) == Some(JsonKind::Object) || value_kind(c[s.p]) == Some(JsonKind::Array))
    &&& s.stack.len() >= MAX_JSON_DEPTH
}

/// The table's next node records the value that starts at `s.p`, by kind
/// and start.
pub open spec fn table_next_value(c: Seq<u8>, nodes: Seq<JsonNode>, s: ReadState) -> bool {
    let k = s.out.len() as int;
    &&& k < nodes.len()
    &&& value_kind(c[s.p]) == Some(nodes[k].kind)
    &&& nodes[k].start == (if c[s.p] == 0x22 {
        s.p + 1
    } else {
        s.p
    }) as u32
}

/// At `s` the read closes an object in which two member keys decode alike.
pub open spec fn dup_close_at(c: Seq<u8>, s: ReadState) -> bool {
    let q = jws_end(c, s.p);
    let top = s.stack.last();
    &&& !s.expect_value
    &&& s.stack.len() > 0
    &&& 0 <= q < c.len()
    &&& c[q] == (if top.is_object {
        0x7Du8
    } else {
        0x5Du8
    })
    &&& top.keys.len() > 1
    &&& keys_dup(top.keys)
}

/// The table records the end and subtree size of the container that
/// closes at `s`.
pub open spec fn table_closes(c: Seq<u8>, nodes: Seq<JsonNode>, s: ReadState) -> bool {
    let ni = s.stack.last().node;
    &&& 0 <= ni < nodes.len()
    &&& nodes[ni].end == jws_end(c, s.p) + 1
    &&& nodes[ni].size == s.out.len() - ni
}

/// The error owed for `c` against a table that holds everything read up to
/// where the read fails, when it fails on nesting or on a repeated key: a
/// container too deep is a table error; a repeated key is reported at the
/// second occurrence of the least repeated key.
pub open spec fn json_reject(c: Seq<u8>, nodes: Seq<JsonNode>) -> Option<Error> {
    match json_fail(c) {
        None => None,
        Some(f) => {
            if !table_agrees(nodes, f) {
                None
            } else if too_deep_at(c, f) && table_next_value(c, nodes, f) {
                Some(Error::Table { reason: "JSON nesting depth exceeds 127" })
            } else if dup_close_at(c, f) && table_closes(c, nodes, f) {
                Some(json_error(dup_report(f.stack.last().keys), "duplicate object key"))
            } else {
                None
            }
        },
    }
}

/// The state where a read from a coherent state fails keeps every node
/// read so far.
pub proof fn lemma_fail_keeps(c: Seq<u8>, s: ReadState)
    requires
        read_wf(s),
        fail_from(c, s) is Some,
    ensures
        keeps(s, (fail_from(c, s)->0).out, (fail_from(c, s)->0).stack),
    decreases c.len() - s.p,
{
    match read_step(c, s) {
        ReadStep::Fail => {
            lemma_keeps_refl(s, s);
        },
        ReadStep::Done => {},
        ReadStep::Next(s2) => {
            lemma_step_keeps(c, s);
            lemma_fail_keeps(c, s2);
            let f = fail_from(c, s)->0;
            lemma_keeps_trans(s, s2, f.out, f.stack);
        },
    }
}

/// A coherent state that disagrees with `nodes` at node `j` fails, if at
/// all, where the table does not hold what was read.
pub proof fn lemma_fail_conflict(c: Seq<u8>, s: ReadState, nodes: Seq<JsonNode>, j: int)
    requires
        read_wf(s),
        0 <= j < s.out.len(),
        node_conflict(s, nodes, j),
    ensures
        fail_from(c, s) matches Some(f) ==> !table_agrees(nodes, f),
{
    if let Some(f) = fail_from(c, s) {
        lemma_fail_keeps(c, s);
        assert(kept_at(s, f.out, f.stack, j));
        if table_agrees(nodes, f) {
            assert(!node_conflict(f, nodes, j));
        }
    }
}

/// A step into a state that disagrees with `nodes` at node `j` fails, if at
/// all, where the table does not hold what was read.
pub proof fn lemma_fail_next_conflict(c: Seq<u8>, s: ReadState, nodes: Seq<JsonNode>, j: int)
    requires
        read_wf(s),
        read_step(c, s) is Next,
        0 <= j < (read_step(c, s)->0).out.len(),
        node_conflict(read_step(c, s)->0, nodes, j),
    ensures
        fail_from(c, s) matches Some(f) ==> !table_agrees(nodes, f),
{
    let s2 = read_step(c, s)->0;
    lemma_step_keeps(c, s);
    lemma_fail_conflict(c, s2, nodes, j);
}

/// A value step whose node the table does not hold fails right there, or
/// later where the table does not hold what was read.
pub proof fn lemma_fail_value_conflict(c: Seq<u8>, s: ReadState, nodes: Seq<JsonNode>)
    requires
        read_wf(s),
        s.expect_value,
        0 <= s.p < c.len(),
        value_kind(c[s.p]) is Some,
        !table_next_value(c, nodes, s),
    ensures
        fail_from(c, s) matches Some(f) ==> f == s || !table_agrees(nodes, f),
{
    if read_step(c, s) is Next {
        lemma_step_keeps(c, s);
        lemma_fail_next_conflict(c, s, nodes, s.out.len() as int);
    }
}

/// The parse of any text has at least one node and no more nodes than
/// bytes.
pub proof fn lemma_parse_bounds(c: Seq<u8>)
    requires
        json_parse(c) is Some,
    ensures
        1 <= (json_parse(c)->0).len() <= c.len(),
{
    let s0 = ReadState { p: jws_end(c, 0), stack: Seq::empty(), expect_value: true, out: Seq::empty() };
    lemma_jws_end(c, 0);
    assert(utf8_valid(c));
    lemma_read_keeps(c, s0);
    if read_step(c, s0) is Next {
        lemma_step_keeps(c, s0);
        let s2 = read_step(c, s0)->0;
        lemma_read_keeps(c, s2);
    }
}

} // verus!
