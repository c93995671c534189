//! Host-side span-emitting JSON pass over a decoded body.
use vstd::prelude::*;

use crate::error::Error;
use crate::spans::{JsonKind, JsonNode};
use crate::validate::json::{
    json_err, json_parse, json_table_sane, lemma_string_error_json, jws_end, lemma_scan_number, lemma_string_rest_end, read_close,
    read_from, read_member, read_step, scalar_end, scan_number, scan_string, skip_jws, spec_scan_string,
    validate_json, value_kind, OpenContainer, ReadState, ReadStep, MAX_JSON_DEPTH,
};

verus! {

/// Maximum content length, mirroring the validator's 2^30-byte coordinate
/// limit.
pub const MAX_CONTENT_LEN: usize = 0x4000_0000;

/// One open container during the emit walk.
pub struct EmitFrame {
    /// Index of the container's node in the table under construction.
    pub node_idx: usize,
    /// `true` for an object frame, `false` for an array frame.
    pub is_object: bool,
}

/// The emit walk stands where the read of `c` stands: the same nodes, the
/// same open containers, cursor and expectation.
pub open spec fn emit_matches(
    nodes: Seq<JsonNode>,
    stack: Seq<EmitFrame>,
    p: int,
    expect_value: bool,
    st: ReadState,
) -> bool {
    &&& nodes == st.out
    &&& stack.len() == st.stack.len()
    &&& forall|i: int|
        0 <= i < stack.len() ==> (#[trigger] st.stack[i]).node == stack[i].node_idx
            && st.stack[i].is_object == stack[i].is_object
    &&& p == st.p
    &&& expect_value == st.expect_value
}

/// Emits the pre-order JSON node table for `content` (a decoded body), in
/// decoded-body coordinates.
///
/// An explicit-stack walk sharing the validator's scanners; container
/// `end` and `size` are patched when the container closes. Before returning,
/// the table is run through [`validate_json`], so an `Ok` table is always
/// one the validator accepts; an `Err` is the validator's own error (or
/// `TooLarge` for bodies over 2^30 bytes).
#[verifier::rlimit(40)]
pub fn emit(content: &[u8]) -> (r: Result<Vec<JsonNode>, Error>)
    ensures
        r matches Ok(nodes) ==> json_table_sane(content@, nodes@) && json_parse(content@) == Some(
            nodes@,
        ),
        content@.len() <= MAX_CONTENT_LEN && json_parse(content@) is Some ==> r is Ok,
        content@.len() > MAX_CONTENT_LEN ==> (r matches Err(e) && e is TooLarge),
        r matches Err(e) ==> e is Json || e is Table || (e is TooLarge && content@.len() > MAX_CONTENT_LEN),
{
    if content.len() > MAX_CONTENT_LEN {
        return Err(Error::TooLarge { len: content.len() });
    }
    let lit_true: [u8; 4] = [0x74, 0x72, 0x75, 0x65];
    let lit_false: [u8; 5] = [0x66, 0x61, 0x6c, 0x73, 0x65];
    let lit_null: [u8; 4] = [0x6e, 0x75, 0x6c, 0x6c];
    let mut nodes: Vec<JsonNode> = Vec::new();
    let mut stack: Vec<EmitFrame> = Vec::new();
    let mut p = skip_jws(content, 0);
    let mut expect_value = true;
    let ghost c = content@;
    let ghost parsed = json_parse(c) is Some;
    let ghost mut st = ReadState { p: p as int, stack: Seq::empty(), expect_value: true, out: Seq::empty() };
    proof {
        assert(lit_true@ =~= seq![0x74u8, 0x72u8, 0x75u8, 0x65u8]);
        assert(lit_false@ =~= seq![0x66u8, 0x61u8, 0x6cu8, 0x73u8, 0x65u8]);
        assert(lit_null@ =~= seq![0x6eu8, 0x75u8, 0x6cu8, 0x6cu8]);
        assert(nodes@ =~= st.out);
    }
    loop
        invariant_except_break
            parsed ==> emit_matches(nodes@, stack@, p as int, expect_value, st),
            parsed ==> json_parse(c) == read_from(c, st),
        invariant
            c == content@,
            parsed == (json_parse(c) is Some),
            lit_true@ == seq![0x74u8, 0x72u8, 0x75u8, 0x65u8],
            lit_false@ == seq![0x66u8, 0x61u8, 0x6cu8, 0x73u8, 0x65u8],
            lit_null@ == seq![0x6eu8, 0x75u8, 0x6cu8, 0x6cu8],
            p <= content@.len() <= MAX_CONTENT_LEN,
            forall|i: int| 0 <= i < stack@.len() ==> (#[trigger] stack@[i]).node_idx < nodes@.len(),
        ensures
            parsed ==> json_parse(c) == Some(nodes@),
        decreases content@.len() - p,
    {
        let ghost st0 = st;
        let ghost p0 = p;
        let ghost nodes0 = nodes@;
        let ghost stack0 = stack@;
        if expect_value {
            if p >= content.len() {
                proof {
                    if parsed {
                        assert(read_step(c, st0) == ReadStep::Fail);
                    }
                }
                return Err(json_err(p, "expected a JSON value"));
            }
            let b = content[p];
            if b == 0x7B || b == 0x5B {
                let is_object = b == 0x7B;
                let kind = if is_object {
                    JsonKind::Object
                } else {
                    JsonKind::Array
                };
                proof {
                    assert(value_kind(b) == Some(kind));
                }
                if stack.len() >= MAX_JSON_DEPTH {
                    proof {
                        if parsed {
                            assert(read_step(c, st0) == ReadStep::Fail);
                        }
                    }
                    return Err(Error::Table { reason: "JSON nesting depth exceeds 127" });
                }
                stack.push(EmitFrame { node_idx: nodes.len(), is_object });
                nodes.push(JsonNode { kind, start: p as u32, end: 0, size: 0 });
                p = skip_jws(content, p + 1);
                let ghost s1 = ReadState {
                    p: p as int,
                    stack: st0.stack.push(
                        OpenContainer { node: st0.out.len() as int, is_object, keys: Seq::empty() },
                    ),
                    expect_value: true,
                    out: st0.out.push(JsonNode { kind, start: p0 as u32, end: 0, size: 0 }),
                };
                proof {
                    if parsed {
                        assert forall|i: int| 0 <= i < stack@.len() implies (#[trigger] s1.stack[i]).node
                            == stack@[i].node_idx && s1.stack[i].is_object == stack@[i].is_object by {
                            if i < stack0.len() {
                                assert(s1.stack[i] == st0.stack[i]);
                                assert(stack@[i] == stack0[i]);
                            }
                        }
                        assert(emit_matches(nodes@, stack@, p as int, true, s1));
                    }
                }
                let closer: u8 = if is_object {
                    0x7D
                } else {
                    0x5D
                };
                if p < content.len() && content[p] == closer {
                    p += 1;
                    let ghost nodes1 = nodes@;
                    let ghost stack1 = stack@;
                    close_top(&mut nodes, &mut stack, p);
                    expect_value = false;
                    proof {
                        if parsed {
                            let s2 = ReadState { p: p as int, expect_value: false, ..s1 };
                            assert(read_step(c, st0) == read_close(s2));
                            assert(s2.stack.last().keys.len() == 0);
                            st = read_close(s2)->0;
                            assert(s2.stack.last() == s2.stack[s2.stack.len() - 1]);
                            assert(nodes@ =~= st.out);
                            assert forall|i: int| 0 <= i < stack@.len() implies (#[trigger] st.stack[i]).node
                                == stack@[i].node_idx && st.stack[i].is_object == stack@[i].is_object by {
                                assert(st.stack[i] == s1.stack[i]);
                                assert(stack@[i] == stack1[i]);
                            }
                        }
                    }
                } else if is_object {
                    p = match emit_member_key(content, &mut nodes, p) {
                        Ok(q) => q,
                        Err(e) => {
                            proof {
                                if parsed {
                                    assert(read_step(c, st0) == read_member(c, s1));
                                }
                            }
                            return Err(e);
                        },
                    };
                    proof {
                        if parsed {
                            assert(read_step(c, st0) == read_member(c, s1));
                            st = read_member(c, s1)->0;
                            assert(s1.stack.last() == s1.stack[s1.stack.len() - 1]);
                            assert(nodes@ =~= st.out);
                            assert forall|i: int| 0 <= i < stack@.len() implies (#[trigger] st.stack[i]).node
                                == stack@[i].node_idx && st.stack[i].is_object == stack@[i].is_object by {
                                if i < stack@.len() - 1 {
                                    assert(st.stack[i] == s1.stack[i]);
                                }
                            }
                        }
                    }
                } else {
                    proof {
                        if parsed {
                            assert(read_step(c, st0) == ReadStep::Next(s1));
                            st = s1;
                        }
                    }
                }
            } else {
                let kind = if b == 0x22 {
                    JsonKind::String
                } else if b == 0x2D || (0x30 <= b && b <= 0x39) {
                    JsonKind::Number
                } else if b == 0x74 || b == 0x66 {
                    JsonKind::Bool
                } else if b == 0x6E {
                    JsonKind::Null
                } else {
                    proof {
                        if parsed {
                            assert(value_kind(b) is None);
                            assert(read_step(c, st0) == ReadStep::Fail);
                        }
                    }
                    return Err(json_err(p, "unexpected byte at value position"));
                };
                proof {
                    assert(value_kind(b) == Some(kind));
                }
                let end = if b == 0x22 {
                    let e = match scan_string(content, p) {
                        Ok(e) => e,
                        Err(err) => {
                            proof {
                                if parsed {
                                    assert(scalar_end(c, p as int, kind) is None);
                                    assert(read_step(c, st0) == ReadStep::Fail);
                                }
                                lemma_string_error_json(content@, p + 1);
                            }
                            return Err(err);
                        },
                    };
                    proof {
                        lemma_string_rest_end(content@, p + 1);
                    }
                    e
                } else if b == 0x2D || (0x30 <= b && b <= 0x39) {
                    let e = match scan_number(content, p) {
                        Ok(e) => e,
                        Err(err) => {
                            proof {
                                if parsed {
                                    assert(scalar_end(c, p as int, kind) is None);
                                    assert(read_step(c, st0) == ReadStep::Fail);
                                }
                            }
                            return Err(err);
                        },
                    };
                    proof {
                        lemma_scan_number(content@, p as int);
                    }
                    e
                } else {
                    let ok = if b == 0x74 {
                        crate::validate::json::lit_matches_json(content, p, lit_true.as_slice())
                    } else if b == 0x66 {
                        crate::validate::json::lit_matches_json(content, p, lit_false.as_slice())
                    } else {
                        crate::validate::json::lit_matches_json(content, p, lit_null.as_slice())
                    };
                    if !ok {
                        proof {
                            if parsed {
                                assert(scalar_end(c, p as int, kind) is None);
                                assert(read_step(c, st0) == ReadStep::Fail);
                            }
                        }
                        return Err(json_err(p, "invalid literal"));
                    }
                    if b == 0x66 {
                        p + 5
                    } else {
                        p + 4
                    }
                };
                proof {
                    assert(scalar_end(c, p as int, kind) == Some(end as int));
                }
                let start = if b == 0x22 {
                    p + 1
                } else {
                    p
                };
                let stop = if b == 0x22 {
                    end - 1
                } else {
                    end
                };
                nodes.push(JsonNode { kind, start: start as u32, end: stop as u32, size: 1 });
                p = end;
                expect_value = false;
                proof {
                    if parsed {
                        let s1 = ReadState {
                            p: end as int,
                            stack: st0.stack,
                            expect_value: false,
                            out: st0.out.push(JsonNode { kind, start: start as u32, end: stop as u32, size: 1 }),
                        };
                        assert(read_step(c, st0) == ReadStep::Next(s1));
                        st = s1;
                    }
                }
            }
        } else {
            if stack.len() == 0 {
                p = skip_jws(content, p);
                if p != content.len() {
                    proof {
                        if parsed {
                            assert(read_step(c, st0) == ReadStep::Fail);
                        }
                    }
                    return Err(json_err(p, "data after root value"));
                }
                proof {
                    if parsed {
                        assert(read_step(c, st0) == ReadStep::Done);
                        assert(json_parse(c) == Some(nodes@));
                    }
                }
                break ;
            }
            let is_object = stack[stack.len() - 1].is_object;
            p = skip_jws(content, p);
            proof {
                if parsed {
                    assert(st0.stack.last() == st0.stack[st0.stack.len() - 1]);
                }
            }
            if p >= content.len() {
                proof {
                    if parsed {
                        assert(read_step(c, st0) == ReadStep::Fail);
                    }
                }
                return Err(json_err(p, "unterminated container"));
            }
            let b = content[p];
            if b == 0x2C {
                p = skip_jws(content, p + 1);
                let ghost s1 = ReadState { p: p as int, expect_value: true, ..st0 };
                if is_object {
                    p = match emit_member_key(content, &mut nodes, p) {
                        Ok(q) => q,
                        Err(e) => {
                            proof {
                                if parsed {
                                    assert(read_step(c, st0) == read_member(c, s1));
                                }
                            }
                            return Err(e);
                        },
                    };
                    proof {
                        if parsed {
                            assert(read_step(c, st0) == read_member(c, s1));
                            st = read_member(c, s1)->0;
                            assert(s1.stack.last() == s1.stack[s1.stack.len() - 1]);
                            assert(nodes@ =~= st.out);
                            assert forall|i: int| 0 <= i < stack@.len() implies (#[trigger] st.stack[i]).node
                                == stack@[i].node_idx && st.stack[i].is_object == stack@[i].is_object by {
                                if i < stack@.len() - 1 {
                                    assert(st.stack[i] == s1.stack[i]);
                                }
                            }
                        }
                    }
                } else {
                    proof {
                        if parsed {
                            assert(read_step(c, st0) == ReadStep::Next(s1));
                            st = s1;
                        }
                    }
                }
                expect_value = true;
            } else {
                let closer: u8 = if is_object {
                    0x7D
                } else {
                    0x5D
                };
                if b == closer {
                    p += 1;
                    let ghost stack1 = stack@;
                    close_top(&mut nodes, &mut stack, p);
                    proof {
                        if parsed {
                            let s2 = ReadState { p: p as int, expect_value: false, ..st0 };
                            assert(read_step(c, st0) == read_close(s2));
                            assert(read_close(s2) is Next);
                            st = read_close(s2)->0;
                            assert(s2.stack.last() == s2.stack[s2.stack.len() - 1]);
                            assert(nodes@ =~= st.out);
                            assert forall|i: int| 0 <= i < stack@.len() implies (#[trigger] st.stack[i]).node
                                == stack@[i].node_idx && st.stack[i].is_object == stack@[i].is_object by {
                                assert(st.stack[i] == st0.stack[i]);
                                assert(stack@[i] == stack1[i]);
                            }
                        }
                    }
                } else {
                    proof {
                        if parsed {
                            assert(read_step(c, st0) == ReadStep::Fail);
                        }
                    }
                    return Err(json_err(p, "expected comma or closing bracket"));
                }
            }
        }
        proof {
            if parsed {
                assert(read_step(c, st0) == ReadStep::Next(st));
                assert(st0.p < st.p <= c.len());
                assert(read_from(c, st0) == read_from(c, st));
            }
        }
    }
    match validate_json(content, nodes.as_slice()) {
        Ok(()) => Ok(nodes),
        Err(e) => Err(e),
    }
}

/// Emits the `Key` node for one object-member key at `p` (the opening
/// quote) and consumes the following colon; returns the cursor at the
/// member value's first byte.
pub fn emit_member_key(content: &[u8], nodes: &mut Vec<JsonNode>, p: usize) -> (r: Result<
    usize,
    Error,
>)
    requires
        p <= content@.len(),
    ensures
        final(nodes)@.len() >= old(nodes)@.len(),
        ({
            let c = content@;
            let end = spec_scan_string(c, p as int)->0;
            let colon = jws_end(c, end);
            let ok = p < c.len() && c[p as int] == 0x22 && spec_scan_string(c, p as int) is Some
                && colon < c.len() && c[colon] == 0x3A;
            &&& r is Ok <==> ok
            &&& r matches Ok(q) ==> {
                &&& p < q <= c.len()
                &&& q == jws_end(c, colon + 1)
                &&& final(nodes)@ == old(nodes)@.push(
                    JsonNode { kind: JsonKind::Key, start: (p + 1) as u32, end: (end - 1) as u32, size: 1 },
                )
            }
        }),
        r matches Err(e) ==> e is Json,
{
    if p >= content.len() || content[p] != 0x22 {
        return Err(json_err(p, "expected object key"));
    }
    proof {
        lemma_string_error_json(content@, p + 1);
    }
    let end = match scan_string(content, p) {
        Ok(e) => e,
        Err(e) => {
            return Err(e);
        },
    };
    proof {
        lemma_string_rest_end(content@, p + 1);
    }
    nodes.push(JsonNode { kind: JsonKind::Key, start: (p + 1) as u32, end: (end - 1) as u32, size: 1 });
    let mut q = skip_jws(content, end);
    if q >= content.len() || content[q] != 0x3A {
        return Err(json_err(q, "expected colon"));
    }
    q = skip_jws(content, q + 1);
    Ok(q)
}

/// Pops the top frame at a container close and patches its node: `end`
/// becomes `p` and `size` the number of nodes emitted since (and including)
/// the container's own.
pub fn close_top(nodes: &mut Vec<JsonNode>, stack: &mut Vec<EmitFrame>, p: usize)
    requires
        forall|i: int| 0 <= i < old(stack)@.len() ==> (#[trigger] old(stack)@[i]).node_idx < old(
            nodes,
        )@.len(),
    ensures
        final(nodes)@.len() == old(nodes)@.len(),
        old(stack)@.len() > 0 ==> final(stack)@ == old(stack)@.drop_last(),
        old(stack)@.len() == 0 ==> final(stack)@ == old(stack)@,
        old(stack)@.len() > 0 ==> ({
            let ni = old(stack)@.last().node_idx as int;
            &&& final(nodes)@[ni].end == p as u32
            &&& final(nodes)@[ni].size == (old(nodes)@.len() - ni) as u32
            &&& final(nodes)@[ni].kind == old(nodes)@[ni].kind
            &&& final(nodes)@[ni].start == old(nodes)@[ni].start
            &&& forall|j: int| 0 <= j < old(nodes)@.len() && j != ni ==> final(nodes)@[j] == old(nodes)@[j]
        }),
{
    let count = nodes.len();
    if stack.len() == 0 {
        return ;
    }
    let frame = stack.pop().unwrap();
    let idx = frame.node_idx;
    let old_node = nodes[idx];
    let n = JsonNode { kind: old_node.kind, start: old_node.start, end: p as u32, size: (count - idx) as u32 };
    nodes.set(idx, n);
}

} // verus!
