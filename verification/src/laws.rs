//! Run-level laws of the fetch engine. The query service is modelled by
//! the events it holds per block; what it returns for a span is the union
//! over the span's blocks. The engine's queue starts as a contiguous cover
//! of the requested span, a success removes one outstanding span and banks
//! its events, and a rejection replaces one outstanding span by a
//! contiguous cover of itself. The laws here show that either step
//! preserves the sum of the aggregation buffer and the outstanding total,
//! so a run that drains its queue has banked exactly what one unbounded
//! query over the whole span would have returned: no event dropped, none
//! duplicated.

use vstd::multiset::Multiset;
use vstd::prelude::*;

use crate::span::{contiguous_cover, lemma_cover_bounds, lemma_cover_tail, BlockSpan};

verus! {

/// The events the query service would return for the blocks of `[s, e)`,
/// given the events it holds per block.
pub open spec fn events_in<T>(per_block: spec_fn(int) -> Multiset<T>, s: int, e: int) -> Multiset<
    T,
>
    decreases e - s,
{
    if s >= e {
        Multiset::empty()
    } else {
        per_block(s).add(events_in(per_block, s + 1, e))
    }
}

/// The union of a run of result batches.
pub open spec fn multiset_sum<T>(rs: Seq<Multiset<T>>) -> Multiset<T>
    decreases rs.len(),
{
    if rs.len() == 0 {
        Multiset::empty()
    } else {
        rs[0].add(multiset_sum(rs.drop_first()))
    }
}

/// What the service holds over `[s, e)` splits at any cut point `m`.
pub proof fn lemma_events_in_additive<T>(
    per_block: spec_fn(int) -> Multiset<T>,
    s: int,
    m: int,
    e: int,
)
    requires
        s <= m <= e,
    ensures
        events_in(per_block, s, e) == events_in(per_block, s, m).add(events_in(per_block, m, e)),
    decreases m - s,
{
    if s == m {
        assert(events_in(per_block, s, m) == Multiset::<T>::empty());
        assert(Multiset::<T>::empty().add(events_in(per_block, m, e)) =~= events_in(
            per_block,
            m,
            e,
        ));
    } else {
        lemma_events_in_additive(per_block, s + 1, m, e);
        let a = per_block(s);
        let b = events_in(per_block, s + 1, m);
        let c = events_in(per_block, m, e);
        assert(a.add(b.add(c)) =~= a.add(b).add(c));
        assert(events_in(per_block, s, m) == a.add(b));
        assert(events_in(per_block, s, e) == a.add(events_in(per_block, s + 1, e)));
    }
}

/// The events the service holds over each of a run of spans, summed: the
/// outstanding total of a fetch run's queue.
pub open spec fn span_events<T>(
    per_block: spec_fn(int) -> Multiset<T>,
    spans: Seq<BlockSpan>,
) -> Multiset<T>
    decreases spans.len(),
{
    if spans.len() == 0 {
        Multiset::empty()
    } else {
        events_in(per_block, spans[0].start as int, spans[0].end as int).add(
            span_events(per_block, spans.drop_first()),
        )
    }
}

proof fn lemma_span_events_append<T>(
    per_block: spec_fn(int) -> Multiset<T>,
    x: Seq<BlockSpan>,
    y: Seq<BlockSpan>,
)
    ensures
        span_events(per_block, x + y) == span_events(per_block, x).add(span_events(per_block, y)),
    decreases x.len(),
{
    if x.len() == 0 {
        assert(x + y =~= y);
        assert(span_events(per_block, x) == Multiset::<T>::empty());
        assert(Multiset::<T>::empty().add(span_events(per_block, y)) =~= span_events(
            per_block,
            y,
        ));
    } else {
        assert((x + y)[0] == x[0]);
        assert((x + y).drop_first() =~= x.drop_first() + y);
        lemma_span_events_append(per_block, x.drop_first(), y);
        let a = events_in(per_block, x[0].start as int, x[0].end as int);
        let b = span_events(per_block, x.drop_first());
        let c = span_events(per_block, y);
        assert(a.add(b.add(c)) =~= a.add(b).add(c));
    }
}

/// The outstanding total of a contiguous cover is what one unbounded query
/// over the covered range would return.
pub proof fn lemma_span_events_of_cover<T>(
    per_block: spec_fn(int) -> Multiset<T>,
    spans: Seq<BlockSpan>,
    s: int,
    e: int,
)
    requires
        contiguous_cover(spans, s, e),
    ensures
        span_events(per_block, spans) == events_in(per_block, s, e),
    decreases spans.len(),
{
    if spans.len() == 1 {
        assert(spans.drop_first() =~= Seq::<BlockSpan>::empty());
        assert(span_events(per_block, spans.drop_first()) == Multiset::<T>::empty());
        assert(spans[0].start == s && spans[0].end == e);
        assert(events_in(per_block, s, e).add(Multiset::<T>::empty()) =~= events_in(
            per_block,
            s,
            e,
        ));
    } else {
        lemma_cover_tail(spans, s, e);
        lemma_span_events_of_cover(per_block, spans.drop_first(), spans[0].end as int, e);
        lemma_cover_bounds(spans.drop_first(), spans[0].end as int, e);
        assert(spans[0].wf());
        lemma_events_in_additive(per_block, s, spans[0].end as int, e);
    }
}

/// LAW (success step). Settling the k-th outstanding span moves exactly
/// its events from the outstanding total to the aggregation buffer: the
/// sum of the buffer and the outstanding total is unchanged by the step.
pub proof fn lemma_span_events_settle<T>(
    per_block: spec_fn(int) -> Multiset<T>,
    spans: Seq<BlockSpan>,
    k: int,
)
    requires
        0 <= k < spans.len(),
    ensures
        span_events(per_block, spans) == events_in(
            per_block,
            spans[k].start as int,
            spans[k].end as int,
        ).add(span_events(per_block, spans.take(k) + spans.skip(k + 1))),
{
    let single = seq![spans[k]];
    assert(spans =~= spans.take(k) + (single + spans.skip(k + 1)));
    lemma_span_events_append(per_block, spans.take(k), single + spans.skip(k + 1));
    lemma_span_events_append(per_block, single, spans.skip(k + 1));
    lemma_span_events_append(per_block, spans.take(k), spans.skip(k + 1));
    let t = span_events(per_block, spans.take(k));
    let ev = events_in(per_block, spans[k].start as int, spans[k].end as int);
    let sk = span_events(per_block, spans.skip(k + 1));
    assert(single[0] == spans[k]);
    assert(single.len() == 1);
    assert(single.drop_first() =~= Seq::<BlockSpan>::empty());
    assert(span_events(per_block, Seq::<BlockSpan>::empty()) == Multiset::<T>::empty());
    assert(span_events(per_block, single) =~= ev.add(Multiset::<T>::empty()));
    assert(ev.add(Multiset::<T>::empty()) =~= ev);
    assert(t.add(ev.add(sk)) =~= ev.add(t.add(sk)));
}

/// LAW (retry step). Replacing the k-th outstanding span by any contiguous
/// cover of itself — as a rejection's re-split does — leaves the
/// outstanding total unchanged. With the success step, the initial cover
/// from the engine's split, and `lemma_span_events_of_cover`, induction
/// over any run gives spec's aggregate equality end to end: once the queue
/// drains, the buffer holds exactly what one unbounded query over the full
/// span would have returned.
pub proof fn lemma_span_events_refine<T>(
    per_block: spec_fn(int) -> Multiset<T>,
    spans: Seq<BlockSpan>,
    k: int,
    sub: Seq<BlockSpan>,
)
    requires
        0 <= k < spans.len(),
        contiguous_cover(sub, spans[k].start as int, spans[k].end as int),
    ensures
        span_events(per_block, spans.take(k) + sub + spans.skip(k + 1)) == span_events(
            per_block,
            spans,
        ),
{
    lemma_span_events_settle(per_block, spans, k);
    lemma_span_events_of_cover(per_block, sub, spans[k].start as int, spans[k].end as int);
    lemma_span_events_append(per_block, spans.take(k) + sub, spans.skip(k + 1));
    lemma_span_events_append(per_block, spans.take(k), sub);
    lemma_span_events_append(per_block, spans.take(k), spans.skip(k + 1));
    let t = span_events(per_block, spans.take(k));
    let ev = events_in(per_block, spans[k].start as int, spans[k].end as int);
    let sk = span_events(per_block, spans.skip(k + 1));
    assert(t.add(ev).add(sk) =~= ev.add(t.add(sk)));
}

/// LAW. Re-splitting one span of a contiguous cover into a contiguous
/// cover of itself yields again a contiguous cover of the whole range.
/// This is the step a rejection makes: the spans still outstanding, with
/// the rejected span replaced by its narrower re-split, keep the shape
/// that `lemma_cover_fetch_complete` needs, so by induction over a run
/// the spans that ever succeed form a contiguous cover of the full span.
pub proof fn lemma_cover_refine(
    spans: Seq<BlockSpan>,
    k: int,
    sub: Seq<BlockSpan>,
    s: int,
    e: int,
)
    requires
        contiguous_cover(spans, s, e),
        0 <= k < spans.len(),
        contiguous_cover(sub, spans[k].start as int, spans[k].end as int),
    ensures
        contiguous_cover(spans.take(k) + sub + spans.skip(k + 1), s, e),
{
    let c = spans.take(k) + sub + spans.skip(k + 1);
    let n = spans.len() as int;
    let m = sub.len() as int;
    assert(c.len() == n + m - 1);
    assert forall|i: int| 0 <= i < c.len() implies #[trigger] c[i] == (if i < k {
        spans[i]
    } else if i < k + m {
        sub[i - k]
    } else {
        spans[i - m + 1]
    }) by {}
    assert(c[0].start == s);
    assert(c[c.len() - 1].end == e) by {
        if k == n - 1 {
            assert(c[n + m - 2] == sub[m - 1]);
        } else {
            assert(c[n + m - 2] == spans[n - 1]);
        }
    }
    assert forall|i: int| 0 <= i < c.len() implies (#[trigger] c[i]).wf() by {}
    assert forall|i: int| 0 <= i < c.len() - 1 implies (#[trigger] c[i]).end == c[i + 1].start by {
        if i < k - 1 {
            assert(c[i] == spans[i] && c[i + 1] == spans[i + 1]);
        } else if i == k - 1 {
            assert(c[i] == spans[k - 1] && c[i + 1] == sub[0]);
        } else if i < k + m - 1 {
            assert(c[i] == sub[i - k] && c[i + 1] == sub[i + 1 - k]);
        } else if i == k + m - 1 {
            assert(c[i] == sub[m - 1] && c[i + 1] == spans[k + 1]);
            assert(sub[m - 1].end == spans[k].end && spans[k].end == spans[k + 1].start);
        } else {
            assert(c[i] == spans[i - m + 1] && c[i + 1] == spans[i - m + 2]);
        }
    }
}

/// LAW. Fix what the query service holds per block. If a run of spans is a
/// contiguous cover of `[s, e]` — as the engine's initial split is, and as
/// every re-split of a rejected span is — and every span's fetch succeeded
/// with exactly the events the service holds over that span, then the
/// aggregated results are, order aside, exactly the events one unbounded
/// query over `[s, e]` would have returned: none is dropped, none is
/// duplicated.
pub proof fn lemma_cover_fetch_complete<T>(
    per_block: spec_fn(int) -> Multiset<T>,
    spans: Seq<BlockSpan>,
    results: Seq<Multiset<T>>,
    s: int,
    e: int,
)
    requires
        spans.len() == results.len(),
        contiguous_cover(spans, s, e),
        forall|i: int|
            0 <= i < spans.len() ==> #[trigger] results[i] == events_in(
                per_block,
                spans[i].start as int,
                spans[i].end as int,
            ),
    ensures
        multiset_sum(results) == events_in(per_block, s, e),
    decreases spans.len(),
{
    if spans.len() == 1 {
        assert(results.drop_first() =~= Seq::<Multiset<T>>::empty());
        assert(multiset_sum(results.drop_first()) == Multiset::<T>::empty());
        assert(results[0].add(Multiset::<T>::empty()) =~= results[0]);
        assert(spans[0].start == s && spans[0].end == e);
    } else {
        let m = spans[0].end as int;
        lemma_cover_tail(spans, s, e);
        let rest_spans = spans.drop_first();
        let rest_results = results.drop_first();
        assert forall|i: int| 0 <= i < rest_spans.len() implies #[trigger] rest_results[i]
            == events_in(per_block, rest_spans[i].start as int, rest_spans[i].end as int) by {
            assert(rest_spans[i] == spans[i + 1]);
            assert(rest_results[i] == results[i + 1]);
        }
        lemma_cover_fetch_complete(per_block, rest_spans, rest_results, m, e);
        lemma_cover_bounds(rest_spans, m, e);
        assert(spans[0].wf());
        lemma_events_in_additive(per_block, s, m, e);
        assert(results[0] == events_in(per_block, s, m));
        assert(multiset_sum(results) == results[0].add(multiset_sum(rest_results)));
    }
}

} // verus!
