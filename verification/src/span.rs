//! Block spans and the range splitter: a requested span is cut into an
//! ordered, gap-free, non-overlapping run of sub-spans of bounded width.

use vstd::prelude::*;

verus! {

/// An inclusive-start, exclusive-end range of block heights.
#[derive(Clone, Copy, Debug, PartialEq, Eq, Structural)]
pub struct BlockSpan {
    pub start: u64,
    pub end: u64,
}

impl BlockSpan {
    /// A span is well formed when it does not run backwards.
    pub open spec fn wf(self) -> bool {
        self.start <= self.end
    }

    /// The number of blocks the span covers.
    pub open spec fn width(self) -> int {
        self.end - self.start
    }
}

/// A malformed range input: the span runs backwards or the width is zero.
#[derive(Clone, Copy, Debug, PartialEq, Eq, Structural)]
pub enum SpanError {
    InvalidSpan,
}

/// The spans form a gap-free, non-overlapping chain that covers `[s, e]`
/// exactly: the first starts at `s`, the last ends at `e`, and each one
/// begins where its predecessor ended.
pub open spec fn contiguous_cover(spans: Seq<BlockSpan>, s: int, e: int) -> bool {
    &&& spans.len() >= 1
    &&& spans[0].start == s
    &&& spans[spans.len() - 1].end == e
    &&& forall|i: int| 0 <= i < spans.len() ==> (#[trigger] spans[i]).wf()
    &&& forall|i: int| 0 <= i < spans.len() - 1 ==> (#[trigger] spans[i]).end == spans[i + 1].start
}

/// Every span has width exactly `w`, except possibly the last, which may be
/// narrower.
pub open spec fn widths_bounded(spans: Seq<BlockSpan>, w: int) -> bool {
    &&& forall|i: int| 0 <= i < spans.len() - 1 ==> (#[trigger] spans[i]).width() == w
    &&& spans.len() >= 1 ==> spans[spans.len() - 1].width() <= w
}

/// The widths of a run of spans, added up.
pub open spec fn sum_widths(spans: Seq<BlockSpan>) -> int
    decreases spans.len(),
{
    if spans.len() == 0 {
        0
    } else {
        spans[0].width() + sum_widths(spans.drop_first())
    }
}

/// A contiguous cover only exists for a forwards range.
pub proof fn lemma_cover_bounds(spans: Seq<BlockSpan>, s: int, e: int)
    requires
        contiguous_cover(spans, s, e),
    ensures
        s <= e,
    decreases spans.len(),
{
    if spans.len() == 1 {
        assert(spans[0].wf());
    } else {
        lemma_cover_tail(spans, s, e);
        lemma_cover_bounds(spans.drop_first(), spans[0].end as int, e);
        assert(spans[0].wf());
    }
}

/// Behind its first span, a contiguous cover of `[s, e]` is a contiguous
/// cover of what remains.
pub proof fn lemma_cover_tail(spans: Seq<BlockSpan>, s: int, e: int)
    requires
        contiguous_cover(spans, s, e),
        spans.len() > 1,
    ensures
        contiguous_cover(spans.drop_first(), spans[0].end as int, e),
{
    let rest = spans.drop_first();
    assert(rest[0] == spans[1]);
    assert(spans[0].end == spans[1].start);
    assert(rest[rest.len() - 1] == spans[spans.len() - 1]);
    assert forall|i: int| 0 <= i < rest.len() implies (#[trigger] rest[i]).wf() by {
        assert(rest[i] == spans[i + 1]);
    }
    assert forall|i: int| 0 <= i < rest.len() - 1 implies (#[trigger] rest[i]).end == rest[i
        + 1].start by {
        assert(rest[i] == spans[i + 1]);
        assert(rest[i + 1] == spans[i + 2]);
    }
}

/// The widths of a contiguous cover of `[s, e]` add up to its width.
pub proof fn lemma_cover_sum_widths(spans: Seq<BlockSpan>, s: int, e: int)
    requires
        contiguous_cover(spans, s, e),
    ensures
        sum_widths(spans) == e - s,
    decreases spans.len(),
{
    if spans.len() == 1 {
        assert(spans.drop_first() =~= Seq::<BlockSpan>::empty());
        assert(sum_widths(Seq::<BlockSpan>::empty()) == 0);
        assert(spans[0].width() == e - s);
    } else {
        lemma_cover_tail(spans, s, e);
        lemma_cover_sum_widths(spans.drop_first(), spans[0].end as int, e);
        assert(sum_widths(spans) == spans[0].width() + sum_widths(spans.drop_first()));
    }
}

/// With every span but the last of width exactly `w`, a run of spans can
/// have at most one span per `w` blocks of its total width, and one more.
pub proof fn lemma_widths_len_bound(spans: Seq<BlockSpan>, w: int)
    requires
        widths_bounded(spans, w),
        forall|i: int| 0 <= i < spans.len() ==> (#[trigger] spans[i]).wf(),
        w >= 1,
    ensures
        (spans.len() - 1) * w <= sum_widths(spans),
    decreases spans.len(),
{
    let n = spans.len() as int;
    if spans.len() == 0 {
        assert(sum_widths(spans) == 0);
        assert((n - 1) * w <= 0) by (nonlinear_arith)
            requires
                n == 0 && w >= 1,
        ;
    } else if spans.len() == 1 {
        assert(spans[0].wf());
        assert(spans.drop_first() =~= Seq::<BlockSpan>::empty());
        assert(sum_widths(Seq::<BlockSpan>::empty()) == 0);
        assert(sum_widths(spans) == spans[0].width());
        assert((n - 1) * w == 0) by (nonlinear_arith)
            requires
                n == 1,
        ;
    } else {
        let rest = spans.drop_first();
        assert(spans[0].width() == w);
        assert forall|i: int| 0 <= i < rest.len() implies (#[trigger] rest[i]).wf() by {
            assert(rest[i] == spans[i + 1]);
        }
        assert forall|i: int| 0 <= i < rest.len() - 1 implies (#[trigger] rest[i]).width()
            == w by {
            assert(rest[i] == spans[i + 1]);
        }
        assert(rest[rest.len() - 1] == spans[spans.len() - 1]);
        lemma_widths_len_bound(rest, w);
        assert(rest.len() == n - 1);
        assert((n - 2) * w <= sum_widths(rest));
        assert((n - 1) * w == (n - 2) * w + w) by (nonlinear_arith);
        assert(sum_widths(spans) == w + sum_widths(rest));
    }
}

proof fn lemma_part_bound(w: int, i: int, c: int)
    requires
        0 <= w,
        0 <= i <= c,
        0 < c,
    ensures
        0 <= w * i / c <= w,
{
    assert(w * i >= 0) by (nonlinear_arith)
        requires
            0 <= w && 0 <= i,
    ;
    assert(w * i <= c * w) by (nonlinear_arith)
        requires
            0 <= w && 0 <= i <= c,
    ;
    vstd::arithmetic::div_mod::lemma_div_multiples_vanish(0, c);
    vstd::arithmetic::div_mod::lemma_div_is_ordered(c * 0, w * i, c);
    vstd::arithmetic::div_mod::lemma_div_is_ordered(w * i, c * w, c);
    vstd::arithmetic::div_mod::lemma_div_multiples_vanish(w, c);
}

proof fn lemma_part_mono(w: int, i: int, j: int, c: int)
    requires
        0 <= w,
        0 <= i <= j,
        0 < c,
    ensures
        w * i / c <= w * j / c,
{
    assert(w * i <= w * j) by (nonlinear_arith)
        requires
            0 <= w && 0 <= i <= j,
    ;
    vstd::arithmetic::div_mod::lemma_div_is_ordered(w * i, w * j, c);
}

/// Partition a span evenly among `clients` parallel clients: the i-th
/// sub-span runs from `start + width*i/clients` to
/// `start + width*(i+1)/clients`, so together they cover the span exactly.
/// Rejects a backwards span and a zero client count.
pub fn client_spans(span: BlockSpan, clients: u64) -> (r: Result<Vec<BlockSpan>, SpanError>)
    ensures
        match r {
            Ok(v) => {
                &&& span.wf() && clients > 0
                &&& v@.len() == clients
                &&& forall|i: int|
                    0 <= i < v@.len() ==> (#[trigger] v@[i]).start == span.start + span.width() * i
                        / (clients as int)
                &&& forall|i: int|
                    0 <= i < v@.len() ==> (#[trigger] v@[i]).end == span.start + span.width() * (i
                        + 1) / (clients as int)
                &&& contiguous_cover(v@, span.start as int, span.end as int)
            },
            Err(e) => (!span.wf() || clients == 0) && e == SpanError::InvalidSpan,
        },
{
    if span.start > span.end || clients == 0 {
        return Err(SpanError::InvalidSpan);
    }
    let width: u64 = span.end - span.start;
    let mut out: Vec<BlockSpan> = Vec::new();
    let mut i: u64 = 0;
    while i < clients
        invariant
            span.wf(),
            clients >= 1,
            width == span.width(),
            i <= clients,
            out@.len() == i,
            forall|j: int|
                0 <= j < out@.len() ==> (#[trigger] out@[j]).start == span.start + span.width() * j
                    / (clients as int),
            forall|j: int|
                0 <= j < out@.len() ==> (#[trigger] out@[j]).end == span.start + span.width() * (j
                    + 1) / (clients as int),
        decreases clients - i,
    {
        proof {
            let w = width as int;
            let ii = i as int;
            assert(w * ii < 0x10000000000000000 * 0x10000000000000000 && w * (ii + 1)
                < 0x10000000000000000 * 0x10000000000000000) by (nonlinear_arith)
                requires
                    0 <= w < 0x10000000000000000 && 0 <= ii && ii + 1 < 0x10000000000000000,
            ;
            lemma_part_bound(w, ii, clients as int);
            lemma_part_bound(w, ii + 1, clients as int);
        }
        let q_lo: u128 = (width as u128 * i as u128) / (clients as u128);
        let q_hi: u128 = (width as u128 * (i as u128 + 1)) / (clients as u128);
        let lo: u64 = span.start + (q_lo as u64);
        let hi: u64 = span.start + (q_hi as u64);
        out.push(BlockSpan { start: lo, end: hi });
        i = i + 1;
    }
    proof {
        let w = width as int;
        let c = clients as int;
        vstd::arithmetic::div_mod::lemma_div_multiples_vanish(0, c);
        assert(out@[0].start == span.start);
        vstd::arithmetic::div_mod::lemma_div_multiples_vanish(w, c);
        assert(w * c == c * w) by (nonlinear_arith);
        assert(out@[out@.len() - 1].end == span.end);
        assert forall|j: int| 0 <= j < out@.len() implies (#[trigger] out@[j]).wf() by {
            lemma_part_mono(w, j, j + 1, c);
        }
        assert forall|j: int| 0 <= j < out@.len() - 1 implies (#[trigger] out@[j]).end == out@[j
            + 1].start by {
            assert(out@[j + 1].start == span.start + span.width() * (j + 1) / c);
        }
    }
    Ok(out)
}

/// Cut `span` into consecutive sub-spans of width `max_width`, the final one
/// clipped to `span.end`. A degenerate span yields one span of width zero;
/// otherwise every sub-span is non-empty, and their count is exactly the
/// span's width divided by `max_width`, rounded up. Rejects a backwards
/// span and a zero width.
pub fn split(span: BlockSpan, max_width: u64) -> (r: Result<Vec<BlockSpan>, SpanError>)
    ensures
        match r {
            Ok(v) => {
                &&& span.wf() && max_width > 0
                &&& contiguous_cover(v@, span.start as int, span.end as int)
                &&& widths_bounded(v@, max_width as int)
                &&& span.start < span.end ==> v@[v@.len() - 1].width() > 0
                &&& v@.len() == if span.start == span.end {
                    1int
                } else {
                    (span.width() + max_width - 1) / (max_width as int)
                }
            },
            Err(e) => (!span.wf() || max_width == 0) && e == SpanError::InvalidSpan,
        },
{
    if span.start > span.end || max_width == 0 {
        return Err(SpanError::InvalidSpan);
    }
    let mut out: Vec<BlockSpan> = Vec::new();
    if span.start == span.end {
        out.push(BlockSpan { start: span.start, end: span.end });
        return Ok(out);
    }
    let mut cur: u64 = span.start;
    proof {
        let m0 = out@.len() as int;
        assert(m0 * (max_width as int) == 0) by (nonlinear_arith)
            requires
                m0 == 0,
        ;
    }
    while cur < span.end
        invariant
            span.start < span.end,
            max_width >= 1,
            span.start <= cur <= span.end,
            out@.len() == 0 ==> cur == span.start,
            out@.len() >= 1 ==> out@[0].start == span.start && out@[out@.len() - 1].end == cur,
            forall|i: int| 0 <= i < out@.len() ==> (#[trigger] out@[i]).wf(),
            forall|i: int| 0 <= i < out@.len() - 1
                ==> (#[trigger] out@[i]).end == out@[i + 1].start,
            forall|i: int| 0 <= i < out@.len() ==> (#[trigger] out@[i]).width() <= max_width,
            forall|i: int| 0 <= i < out@.len() - 1 ==> (#[trigger] out@[i]).width() == max_width,
            out@.len() >= 1 && cur < span.end ==> out@[out@.len() - 1].width() == max_width,
            out@.len() >= 1 ==> out@[out@.len() - 1].width() > 0,
            cur < span.end ==> cur - span.start == out@.len() * (max_width as int),
            out@.len() >= 1 ==> (out@.len() - 1) * (max_width as int) < cur - span.start
                <= out@.len() * (max_width as int),
        decreases span.end - cur,
    {
        let next: u64 = if span.end - cur > max_width {
            cur + max_width
        } else {
            span.end
        };
        out.push(BlockSpan { start: cur, end: next });
        proof {
            let w = max_width as int;
            let m = out@.len() as int;
            assert(m * w == (m - 1) * w + w) by (nonlinear_arith);
        }
        cur = next;
    }
    proof {
        let w = max_width as int;
        let m = out@.len() as int;
        let bigw = span.width();
        assert((m - 1) * w < bigw <= m * w);
        assert((m - 1) * w == m * w - w) by (nonlinear_arith);
        assert(m * w + w - 1 == w * m + (w - 1) && m * w == w * m) by (nonlinear_arith);
        vstd::arithmetic::div_mod::lemma_div_multiples_vanish_fancy(m, w - 1, w);
        vstd::arithmetic::div_mod::lemma_div_is_ordered(bigw + w - 1, m * w + w - 1, w);
        vstd::arithmetic::div_mod::lemma_div_is_ordered(m * w, bigw + w - 1, w);
        vstd::arithmetic::div_mod::lemma_div_multiples_vanish(m, w);
        assert((bigw + w - 1) / w == m);
    }
    Ok(out)
}

} // verus!
