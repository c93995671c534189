//! Navigation over a pre-order JSON node table: which nodes the array and
//! object iterators visit, what one path segment resolves to, and how a
//! dot path splits into segments.
use vstd::prelude::*;

use crate::spans::{JsonKind, JsonNode, Span};
use crate::transcript::{span_view, spec_parse_usize};

verus! {

/// How far the iterators jump over the subtree rooted at node `i`: its
/// size, but at least one node.
pub open spec fn jump(nodes: Seq<JsonNode>, i: int) -> int {
    if 0 <= i < nodes.len() && nodes[i].size >= 1 {
        nodes[i].size as int
    } else {
        1
    }
}

/// `a + b`, saturated at `usize::MAX`.
pub open spec fn sat_add_usize(a: int, b: int) -> int {
    if a + b > usize::MAX {
        usize::MAX as int
    } else {
        a + b
    }
}

/// `a`, capped at `b`.
pub open spec fn cap(a: int, b: int) -> int {
    if a > b {
        b
    } else {
        a
    }
}

/// The node indices of the elements that an array iterator standing at
/// `next`, with its subtree ending at `end`, yields in order.
pub open spec fn array_elems(nodes: Seq<JsonNode>, next: int, end: int) -> Seq<int>
    decreases end - next,
{
    if next < 0 || next >= end || end > usize::MAX {
        Seq::empty()
    } else {
        seq![next] + array_elems(nodes, cap(sat_add_usize(next, jump(nodes, next)), end), end)
    }
}

/// The key node indices of the members that an object iterator standing
/// at `next`, with its subtree ending at `end`, yields in order (it stops
/// at a key without a value).
pub open spec fn object_keys(nodes: Seq<JsonNode>, next: int, end: int) -> Seq<int>
    decreases end - next,
{
    if next < 0 || next >= end || end > usize::MAX {
        Seq::empty()
    } else if !(next < nodes.len() && next + 1 < end && next + 1 < nodes.len()) {
        Seq::empty()
    } else {
        seq![next] + object_keys(nodes, cap(sat_add_usize(next + 1, jump(nodes, next + 1)), end), end)
    }
}

/// The raw bytes of a key node (between its quotes).
pub open spec fn key_bytes(content: Seq<u8>, node: JsonNode) -> Seq<u8> {
    span_view(content, Span { start: node.start, end: node.end })
}

/// The first of `keys` whose raw bytes are `seg`.
pub open spec fn first_key(content: Seq<u8>, nodes: Seq<JsonNode>, keys: Seq<int>, seg: Seq<u8>) -> Option<
    int,
>
    decreases keys.len(),
{
    if keys.len() == 0 {
        None
    } else if key_bytes(content, nodes[keys[0]]) == seg {
        Some(keys[0])
    } else {
        first_key(content, nodes, keys.drop_first(), seg)
    }
}

/// One past the subtree of node `idx` (clamped to the table).
pub open spec fn subtree_end_of(nodes: Seq<JsonNode>, idx: int) -> int {
    cap(sat_add_usize(idx, nodes[idx].size as int), nodes.len() as int)
}

/// The node that segment `seg` leads to from node `idx`: in an object, the
/// value of the first member whose raw key bytes are `seg`; in an array,
/// the element numbered by `seg` as a decimal `usize`; nothing otherwise.
pub open spec fn step_target(content: Seq<u8>, nodes: Seq<JsonNode>, idx: int, seg: Seq<u8>) -> Option<
    int,
> {
    if !(0 <= idx < nodes.len()) {
        None
    } else if nodes[idx].kind == JsonKind::Object {
        let keys = object_keys(nodes, sat_add_usize(idx, 1), subtree_end_of(nodes, idx));
        match first_key(content, nodes, keys, seg) {
            Some(k) => Some(k + 1),
            None => None,
        }
    } else if nodes[idx].kind == JsonKind::Array {
        match spec_parse_usize(seg) {
            None => None,
            Some(m) => {
                let elems = array_elems(nodes, sat_add_usize(idx, 1), subtree_end_of(nodes, idx));
                if m < elems.len() {
                    Some(elems[m as int])
                } else {
                    None
                }
            },
        }
    } else {
        None
    }
}

/// The position of the first `.` in `s`.
pub open spec fn first_dot(s: Seq<u8>) -> Option<int>
    decreases s.len(),
{
    if s.len() == 0 {
        None
    } else if s[0] == 0x2E {
        Some(0)
    } else {
        match first_dot(s.drop_first()) {
            Some(d) => Some(d + 1),
            None => None,
        }
    }
}

/// The segments of a dot path: the runs of bytes between dots, empty ones
/// included (`"a..b"` has three).
pub open spec fn split_dots(s: Seq<u8>) -> Seq<Seq<u8>>
    decreases s.len(),
{
    match first_dot(s) {
        None => seq![s],
        Some(d) => {
            if 0 <= d < s.len() {
                seq![s.subrange(0, d)] + split_dots(s.subrange(d + 1, s.len() as int))
            } else {
                seq![s]
            }
        },
    }
}

/// The node that the segments `segs` lead to from node `idx`, one step at
/// a time.
pub open spec fn walk_path(content: Seq<u8>, nodes: Seq<JsonNode>, idx: int, segs: Seq<Seq<u8>>) -> Option<
    int,
>
    decreases segs.len(),
{
    if segs.len() == 0 {
        Some(idx)
    } else {
        match step_target(content, nodes, idx, segs[0]) {
            None => None,
            Some(j) => walk_path(content, nodes, j, segs.drop_first()),
        }
    }
}

/// An array iterator at `next` yields `next` first, then continues from
/// one jump further.
pub proof fn lemma_array_elems_step(nodes: Seq<JsonNode>, next: int, end: int)
    requires
        0 <= next < end <= usize::MAX,
    ensures
        array_elems(nodes, next, end) == seq![next] + array_elems(nodes, sat_add_usize(next, jump(nodes, next)), end),
{
    let n2 = sat_add_usize(next, jump(nodes, next));
    if n2 > end {
        assert(array_elems(nodes, n2, end) =~= Seq::<int>::empty());
        assert(array_elems(nodes, end, end) =~= Seq::<int>::empty());
    }
}

/// An array iterator yields at most one element per node of its range.
pub proof fn lemma_array_elems_len(nodes: Seq<JsonNode>, next: int, end: int)
    ensures
        array_elems(nodes, next, end).len() <= (if next < end {
            end - next
        } else {
            0
        }),
    decreases end - next,
{
    if !(next < 0 || next >= end || end > usize::MAX) {
        lemma_array_elems_len(nodes, cap(sat_add_usize(next, jump(nodes, next)), end), end);
    }
}

/// An object iterator at a complete member yields its key first, then
/// continues after the member's value.
pub proof fn lemma_object_keys_step(nodes: Seq<JsonNode>, next: int, end: int)
    requires
        0 <= next < end <= usize::MAX,
        next < nodes.len(),
        next + 1 < end,
        next + 1 < nodes.len(),
    ensures
        object_keys(nodes, next, end) == seq![next] + object_keys(
            nodes,
            sat_add_usize(next + 1, jump(nodes, next + 1)),
            end,
        ),
{
    let n2 = sat_add_usize(next + 1, jump(nodes, next + 1));
    if n2 > end {
        assert(object_keys(nodes, n2, end) =~= Seq::<int>::empty());
        assert(object_keys(nodes, end, end) =~= Seq::<int>::empty());
    }
}

/// Where a run without dots ends in a dot, the path splits there.
pub proof fn lemma_first_dot(s: Seq<u8>, k: int)
    requires
        0 <= k <= s.len(),
        forall|j: int| 0 <= j < k ==> s[j] != 0x2E,
    ensures
        k < s.len() && s[k] == 0x2E ==> first_dot(s) == Some(k),
        k == s.len() ==> first_dot(s) is None,
    decreases k,
{
    if k > 0 {
        assert forall|j: int| 0 <= j < k - 1 implies s.drop_first()[j] != 0x2E by {
            assert(s.drop_first()[j] == s[j + 1]);
        }
        lemma_first_dot(s.drop_first(), k - 1);
        assert(s[0] != 0x2E);
    }
}

/// The member `first_key` finds among `keys` is the first whose raw key
/// bytes equal `seg` byte for byte; when it finds none, no key's bytes do.
proof fn lemma_first_key_exact(content: Seq<u8>, nodes: Seq<JsonNode>, keys: Seq<int>, seg: Seq<u8>)
    ensures
        first_key(content, nodes, keys, seg) matches Some(k) ==> exists|i: int|
            0 <= i < keys.len() && keys[i] == k && key_bytes(content, nodes[keys[i]]) =~= seg && forall|i2: int|
                0 <= i2 < i ==> key_bytes(content, nodes[#[trigger] keys[i2]]) != seg,
        first_key(content, nodes, keys, seg) is None ==> forall|i: int|
            0 <= i < keys.len() ==> key_bytes(content, nodes[#[trigger] keys[i]]) != seg,
    decreases keys.len(),
{
    if keys.len() > 0 {
        let rest = keys.drop_first();
        lemma_first_key_exact(content, nodes, rest, seg);
        assert forall|i: int| 0 < i < keys.len() implies #[trigger] keys[i] == rest[i - 1] by {}
        if key_bytes(content, nodes[keys[0]]) != seg {
            if let Some(k) = first_key(content, nodes, rest, seg) {
                let i = choose|i: int|
                    0 <= i < rest.len() && rest[i] == k && key_bytes(content, nodes[rest[i]]) =~= seg
                        && forall|i2: int| 0 <= i2 < i ==> key_bytes(content, nodes[#[trigger] rest[i2]]) != seg;
                assert(keys[i + 1] == k);
                assert forall|i2: int| 0 <= i2 < i + 1 implies key_bytes(content, nodes[#[trigger] keys[i2]])
                    != seg by {
                    if i2 > 0 {
                        assert(keys[i2] == rest[i2 - 1]);
                    }
                }
            } else {
                assert forall|i: int| 0 <= i < keys.len() implies key_bytes(content, nodes[#[trigger] keys[i]])
                    != seg by {
                    if i > 0 {
                        assert(keys[i] == rest[i - 1]);
                    }
                }
            }
        }
    }
}

/// A path segment steps through an object to the value of the first
/// member whose raw key bytes equal the segment exactly (no case folding,
/// no unescaping): the member's key node comes just before the value, its
/// bytes are the segment, and no member before it has those bytes. When
/// no member's key bytes equal the segment, the step finds nothing.
pub proof fn law_step_object_by_raw_key(content: Seq<u8>, nodes: Seq<JsonNode>, idx: int, seg: Seq<u8>)
    requires
        0 <= idx < nodes.len(),
        nodes[idx].kind == JsonKind::Object,
    ensures
        ({
            let keys = object_keys(nodes, sat_add_usize(idx, 1), subtree_end_of(nodes, idx));
            &&& step_target(content, nodes, idx, seg) matches Some(j) ==> exists|i: int|
                0 <= i < keys.len() && keys[i] + 1 == j && key_bytes(content, nodes[keys[i]]) == seg
                    && forall|i2: int|
                    0 <= i2 < i ==> key_bytes(content, nodes[#[trigger] keys[i2]]) != seg
            &&& step_target(content, nodes, idx, seg) is None <==> forall|i: int|
                0 <= i < keys.len() ==> key_bytes(content, nodes[#[trigger] keys[i]]) != seg
        }),
{
    let keys = object_keys(nodes, sat_add_usize(idx, 1), subtree_end_of(nodes, idx));
    lemma_first_key_exact(content, nodes, keys, seg);
    if let Some(k) = first_key(content, nodes, keys, seg) {
        let i = choose|i: int|
            0 <= i < keys.len() && keys[i] == k && key_bytes(content, nodes[keys[i]]) =~= seg && forall|i2: int|
                0 <= i2 < i ==> key_bytes(content, nodes[#[trigger] keys[i2]]) != seg;
        assert(key_bytes(content, nodes[keys[i]]) == seg);
    }
}

} // verus!
