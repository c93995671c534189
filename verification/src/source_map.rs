//! How decoded body bytes map back to the wire: the source spans that
//! `Body::content_to_source` gives for a range cover exactly the bytes of
//! that range as they appear in the message.
use vstd::prelude::*;

use crate::spans::{BodySpans, Framing, Span};
use crate::transcript::{mapped_spans, sat_add, source_spans, span_view, ChunkMapEntry};
use crate::validate::http::chunk_walk;
use crate::validate::{spec_body, DerivedFraming, MAX_BUF_LEN};

verus! {

/// The bytes of `spans` in `buf`, one after another.
pub open spec fn source_bytes(buf: Seq<u8>, spans: Seq<Span>) -> Seq<u8>
    decreases spans.len(),
{
    if spans.len() == 0 {
        Seq::empty()
    } else {
        span_view(buf, spans[0]) + source_bytes(buf, spans.drop_first())
    }
}

/// `x` clamped to `[0, n]`.
pub open spec fn clamp(x: int, n: int) -> int {
    if x < 0 {
        0
    } else if x > n {
        n
    } else {
        x
    }
}

/// Mapping through a map with one more entry in front, from one position
/// further, is mapping through the rest.
proof fn lemma_mapped_shift(e: ChunkMapEntry, m: Seq<ChunkMapEntry>, i: int, rs: u32, re: u32)
    requires
        0 <= i,
    ensures
        mapped_spans(seq![e] + m, i + 1, rs, re) == mapped_spans(m, i, rs, re),
    decreases m.len() - i,
{
    let m1 = seq![e] + m;
    if i < m.len() {
        assert(m1[i + 1] == m[i]);
        lemma_mapped_shift(e, m, i + 1, rs, re);
    }
}

/// Bytes of a span pair: the spans of `a + b` read `a`'s bytes then `b`'s.
proof fn lemma_source_bytes_prepend(buf: Seq<u8>, s: Span, rest: Seq<Span>)
    ensures
        source_bytes(buf, seq![s] + rest) == span_view(buf, s) + source_bytes(buf, rest),
{
    assert((seq![s] + rest).drop_first() =~= rest);
    assert((seq![s] + rest)[0] == s);
}

/// One non-empty chunk in front of the rest: the spans of `[rs, re)` read
/// the covered part of the chunk's data, then the covered part of the rest.
#[verifier::spinoff_prover]
proof fn lemma_one_chunk(
    buf: Seq<u8>,
    ds: int,
    size: int,
    total: int,
    d2: Seq<u8>,
    m2: Seq<ChunkMapEntry>,
    rs: u32,
    re: u32,
)
    requires
        buf.len() <= MAX_BUF_LEN,
        0 <= ds,
        1 <= size,
        ds + size <= buf.len(),
        0 <= total,
        total + size + d2.len() <= MAX_BUF_LEN,
        rs <= re,
        source_bytes(buf, mapped_spans(m2, 0, rs, re)) == d2.subrange(
            clamp(rs - total - size, d2.len() as int),
            clamp(re - total - size, d2.len() as int),
        ),
        mapped_spans(
            seq![ChunkMapEntry { src_start: ds as u32, body_offset: total as u32, len: size as u32 }] + m2,
            1,
            rs,
            re,
        ) == mapped_spans(m2, 0, rs, re),
    ensures
        ({
            let e = ChunkMapEntry { src_start: ds as u32, body_offset: total as u32, len: size as u32 };
            let d = buf.subrange(ds, ds + size) + d2;
            source_bytes(buf, mapped_spans(seq![e] + m2, 0, rs, re)) == d.subrange(
                clamp(rs - total, d.len() as int),
                clamp(re - total, d.len() as int),
            )
        }),
{
    let e = ChunkMapEntry { src_start: ds as u32, body_offset: total as u32, len: size as u32 };
    let m = seq![e] + m2;
    let data = buf.subrange(ds, ds + size);
    let d = data + d2;
    let rest = mapped_spans(m2, 0, rs, re);
    assert(m[0] == e);
    if total >= re {
        assert(mapped_spans(m, 0, rs, re) == Seq::<Span>::empty());
        assert(d.subrange(0, 0) =~= Seq::<u8>::empty());
    } else {
        let chunk_end = sat_add(e.body_offset, e.len);
        assert(chunk_end == total + size);
        let os: u32 = if rs > e.body_offset {
            rs
        } else {
            e.body_offset
        };
        let oe: u32 = if re < chunk_end {
            re
        } else {
            chunk_end
        };
        if os < oe {
            let s = Span {
                start: sat_add(e.src_start, (os - e.body_offset) as u32),
                end: sat_add(e.src_start, (oe - e.body_offset) as u32),
            };
            assert(mapped_spans(m, 0, rs, re) == seq![s] + rest);
            lemma_source_bytes_prepend(buf, s, rest);
            assert(span_view(buf, s) =~= data.subrange(os - total, oe - total));
            if re <= total + size {
                assert(rest.len() >= 0);
                assert(d2.subrange(0, 0) =~= Seq::<u8>::empty());
                assert(d.subrange(os - total, re - total) =~= data.subrange(os - total, re - total));
                assert(data.subrange(os - total, oe - total) + Seq::<u8>::empty() =~= data.subrange(
                    os - total,
                    oe - total,
                ));
            } else {
                let b2 = clamp(re - total - size, d2.len() as int);
                assert(d.subrange(os - total, size + b2) =~= data.subrange(os - total, size) + d2.subrange(
                    0,
                    b2,
                ));
            }
        } else {
            assert(mapped_spans(m, 0, rs, re) == rest);
            assert(d.subrange(clamp(rs - total, d.len() as int), clamp(re - total, d.len() as int))
                =~= d2.subrange(
                clamp(rs - total - size, d2.len() as int),
                clamp(re - total - size, d2.len() as int),
            ));
        }
    }
}

/// Through the chunk map of a chunk walk that starts with `total` bytes
/// decoded, the spans of decoded range `[rs, re)` read exactly the part of
/// the walk's decoded bytes that the range covers.
proof fn lemma_walk_bytes(buf: Seq<u8>, p: int, total: nat, rs: u32, re: u32)
    requires
        buf.len() <= MAX_BUF_LEN,
        0 <= p,
        chunk_walk(buf, p, total) is Some,
        rs <= re,
    ensures
        ({
            let (d, m, t) = chunk_walk(buf, p, total)->0;
            &&& total + d.len() <= MAX_BUF_LEN
            &&& source_bytes(buf, mapped_spans(m, 0, rs, re)) == d.subrange(
                clamp(rs - total, d.len() as int),
                clamp(re - total, d.len() as int),
            )
        }),
    decreases buf.len() - p,
{
    let (d, m, t) = chunk_walk(buf, p, total)->0;
    let (size, ds) = crate::validate::http::chunk_header(buf, p)->0;
    let de = ds + size;
    if size == 0 {
        assert(d.subrange(0, 0) =~= Seq::<u8>::empty());
    } else {
        let (d2, m2, t2) = chunk_walk(buf, de + 2, total + size)->0;
        lemma_walk_bytes(buf, de + 2, (total + size) as nat, rs, re);
        let e = ChunkMapEntry { src_start: ds as u32, body_offset: total as u32, len: size as u32 };
        assert(d == buf.subrange(ds, de) + d2);
        assert(m == seq![e] + m2);
        lemma_mapped_shift(e, m2, 0, rs, re);
        lemma_one_chunk(buf, ds, size as int, total as int, d2, m2, rs, re);
    }
}

/// The spans lie within `[lo, hi)`, none is empty, and each ends at or
/// before the next one starts.
pub open spec fn spans_in_order(spans: Seq<Span>, lo: int, hi: int) -> bool {
    &&& forall|i: int| 0 <= i < spans.len() ==> lo <= #[trigger] spans[i].start < spans[i].end <= hi
    &&& forall|i: int, j: int|
        0 <= i < j < spans.len() ==> #[trigger] spans[i].end <= #[trigger] spans[j].start
}

/// A span before spans in order, all within bounds, is in order.
proof fn lemma_order_prepend(s: Span, rest: Seq<Span>, lo: int, mid: int, hi: int)
    requires
        lo <= s.start < s.end <= mid <= hi,
        spans_in_order(rest, mid, hi),
    ensures
        spans_in_order(seq![s] + rest, lo, hi),
{
    let all = seq![s] + rest;
    assert forall|i: int| 0 < i < all.len() implies #[trigger] all[i] == rest[i - 1] by {}
    assert forall|i: int| 0 <= i < all.len() implies lo <= #[trigger] all[i].start < all[i].end <= hi by {
        if i > 0 {
            assert(all[i] == rest[i - 1]);
        }
    }
    assert forall|i: int, j: int| 0 <= i < j < all.len() implies #[trigger] all[i].end
        <= #[trigger] all[j].start by {
        assert(all[j] == rest[j - 1]);
        if i > 0 {
            assert(all[i] == rest[i - 1]);
        }
    }
}

/// Through the chunk map of a chunk walk from `p`, the spans of any decoded
/// range are non-empty, ascending and disjoint, and lie between `p` and the
/// trailer section.
proof fn lemma_walk_order(buf: Seq<u8>, p: int, total: nat, rs: u32, re: u32)
    requires
        buf.len() <= MAX_BUF_LEN,
        0 <= p,
        chunk_walk(buf, p, total) is Some,
        rs <= re,
    ensures
        ({
            let (d, m, t) = chunk_walk(buf, p, total)->0;
            &&& p < t <= buf.len()
            &&& total + d.len() <= MAX_BUF_LEN
            &&& spans_in_order(mapped_spans(m, 0, rs, re), p, t)
        }),
    decreases buf.len() - p,
{
    let (d, m, t) = chunk_walk(buf, p, total)->0;
    let (size, ds) = crate::validate::http::chunk_header(buf, p)->0;
    let de = ds + size;
    if p <= buf.len() {
        crate::validate::http::lemma_hexdig_end(buf, p);
        crate::validate::http::lemma_value_end(buf, crate::validate::http::hexdig_end(buf, p));
    }
    if size == 0 {
        assert(m.len() == 0);
    } else {
        let (d2, m2, t2) = chunk_walk(buf, de + 2, total + size)->0;
        lemma_walk_order(buf, de + 2, (total + size) as nat, rs, re);
        let e = ChunkMapEntry { src_start: ds as u32, body_offset: total as u32, len: size as u32 };
        assert(m == seq![e] + m2);
        assert(d == buf.subrange(ds, de) + d2);
        lemma_mapped_shift(e, m2, 0, rs, re);
        let rest = mapped_spans(m2, 0, rs, re);
        assert(m[0] == e);
        if total < re {
            let chunk_end = sat_add(e.body_offset, e.len);
            assert(chunk_end == total + size);
            let os: u32 = if rs > e.body_offset {
                rs
            } else {
                e.body_offset
            };
            let oe: u32 = if re < chunk_end {
                re
            } else {
                chunk_end
            };
            if os < oe {
                let s = Span {
                    start: sat_add(e.src_start, (os - e.body_offset) as u32),
                    end: sat_add(e.src_start, (oe - e.body_offset) as u32),
                };
                assert(mapped_spans(m, 0, rs, re) == seq![s] + rest);
                lemma_order_prepend(s, rest, p, de + 2, t);
            } else {
                assert(mapped_spans(m, 0, rs, re) == rest);
            }
        } else {
            assert(mapped_spans(m, 0, rs, re) == Seq::<Span>::empty());
        }
    }
}

/// The spans that `content_to_source` gives for a request on a validated
/// body are non-empty, ascending and disjoint, and lie within the body's
/// raw span.
pub proof fn law_content_to_source_in_order(
    buf: Seq<u8>,
    head_end: int,
    f: DerivedFraming,
    rec: BodySpans,
    rs: u32,
    re: u32,
)
    requires
        buf.len() <= MAX_BUF_LEN,
        spec_body(buf, head_end, f, Some(rec)) matches Some(Some(c)),
    ensures
        ({
            let c = spec_body(buf, head_end, f, Some(rec))->0->0;
            spans_in_order(
                source_spans(rec.raw.start, c.0.len() as int, c.1, rs, re),
                rec.raw.start as int,
                rec.raw.end as int,
            )
        }),
{
    let c = spec_body(buf, head_end, f, Some(rec))->0->0;
    let spans = source_spans(rec.raw.start, c.0.len() as int, c.1, rs, re);
    if rs < re && re <= c.0.len() {
        if rec.framing == Framing::Chunked {
            lemma_walk_order(buf, head_end, 0, rs, re);
            if c.1.len() == 0 {
                assert(c.0.len() == 0);
            }
        } else {
            let s = Span { start: sat_add(rec.raw.start, rs), end: sat_add(rec.raw.start, re) };
            assert(spans == seq![s]);
        }
    } else {
        assert(spans.len() == 0);
    }
}

/// The spans that `content_to_source` gives for an in-range request on a
/// validated body cover exactly the requested decoded bytes as they appear
/// on the wire: reading the source bytes of the spans, in order, gives
/// `content[rs..re]`.
pub proof fn law_content_to_source_covers(
    buf: Seq<u8>,
    head_end: int,
    f: DerivedFraming,
    rec: BodySpans,
    rs: u32,
    re: u32,
)
    requires
        buf.len() <= MAX_BUF_LEN,
        spec_body(buf, head_end, f, Some(rec)) matches Some(Some(c)) && rs < re <= c.0.len(),
    ensures
        ({
            let c = spec_body(buf, head_end, f, Some(rec))->0->0;
            source_bytes(buf, source_spans(rec.raw.start, c.0.len() as int, c.1, rs, re)) == c.0.subrange(
                rs as int,
                re as int,
            )
        }),
{
    let c = spec_body(buf, head_end, f, Some(rec))->0->0;
    if rec.framing == Framing::Chunked {
        lemma_walk_bytes(buf, head_end, 0, rs, re);
        if c.1.len() == 0 {
            assert(c.0.len() == 0);
        }
    } else {
        let s = Span { start: sat_add(rec.raw.start, rs), end: sat_add(rec.raw.start, re) };
        assert(source_spans(rec.raw.start, c.0.len() as int, c.1, rs, re) == seq![s]);
        lemma_source_bytes_prepend(buf, s, Seq::empty());
        assert(source_bytes(buf, Seq::<Span>::empty()) == Seq::<u8>::empty());
        assert(span_view(buf, s) =~= c.0.subrange(rs as int, re as int));
    }
}

} // verus!
