//! The adaptive fetch engine. It owns the work queue of spans still to
//! fetch and the aggregation buffer of events fetched so far; the caller
//! performs the queries and reports each outcome back. A rejected span is
//! re-split at half its former width, so every retry narrows the queries,
//! and a span that is still rejected at width one raises an explicit error
//! instead of retrying forever.

use vstd::prelude::*;

use crate::event::RawEvent;
use crate::span::{
    contiguous_cover, lemma_cover_sum_widths, lemma_widths_len_bound, split, sum_widths,
    widths_bounded, BlockSpan, SpanError,
};

verus! {

/// An error thrown when an event query fails for a block range.
#[derive(Clone, Copy, Debug, PartialEq, Eq, Structural)]
pub enum EventError {
    ErrorBlockRange(u64, u64),
}

/// One pending unit of work: fetch `span`, which was derived with the
/// splitting width `width`.
#[derive(Clone, Copy, Debug, PartialEq, Eq, Structural)]
pub struct Task {
    pub span: BlockSpan,
    pub width: u64,
}

impl Task {
    pub open spec fn wf(self) -> bool {
        self.span.wf() && self.width >= 1
    }
}

/// The spans of a run of tasks, in order.
pub open spec fn spans_of(ts: Seq<Task>) -> Seq<BlockSpan> {
    ts.map_values(|t: Task| t.span)
}

/// The retry potential of one task. Handling a rejection replaces a task
/// by tasks of strictly smaller total potential, so any run makes only
/// finitely many retries before its queue drains or it fails.
pub open spec fn task_measure(t: Task) -> int {
    (2 * t.span.width() + 1) * t.width
}

/// The total retry potential of a run of tasks.
pub open spec fn queue_measure(ts: Seq<Task>) -> int
    decreases ts.len(),
{
    if ts.len() == 0 {
        0
    } else {
        task_measure(ts[0]) + queue_measure(ts.drop_first())
    }
}

proof fn lemma_queue_measure_snoc(ts: Seq<Task>, t: Task)
    ensures
        queue_measure(ts.push(t)) == queue_measure(ts) + task_measure(t),
    decreases ts.len(),
{
    if ts.len() == 0 {
        assert(ts.push(t)[0] == t);
        assert(ts.push(t).drop_first() =~= Seq::<Task>::empty());
        assert(queue_measure(Seq::<Task>::empty()) == 0);
    } else {
        assert(ts.push(t)[0] == ts[0]);
        assert(ts.push(t).drop_first() =~= ts.drop_first().push(t));
        lemma_queue_measure_snoc(ts.drop_first(), t);
    }
}

proof fn lemma_queue_measure_append(a: Seq<Task>, b: Seq<Task>)
    ensures
        queue_measure(a + b) == queue_measure(a) + queue_measure(b),
    decreases a.len(),
{
    if a.len() == 0 {
        assert(a + b =~= b);
        assert(queue_measure(a) == 0);
    } else {
        assert((a + b)[0] == a[0]);
        assert((a + b).drop_first() =~= a.drop_first() + b);
        lemma_queue_measure_append(a.drop_first(), b);
    }
}

proof fn lemma_uniform_queue_measure(ts: Seq<Task>, h: int)
    requires
        forall|i: int| 0 <= i < ts.len() ==> (#[trigger] ts[i]).width == h,
    ensures
        queue_measure(ts) == 2 * h * sum_widths(spans_of(ts)) + ts.len() * h,
    decreases ts.len(),
{
    let n = ts.len() as int;
    if ts.len() == 0 {
        assert(spans_of(ts) =~= Seq::<BlockSpan>::empty());
        assert(sum_widths(Seq::<BlockSpan>::empty()) == 0);
        assert(2 * h * 0 + n * h == 0) by (nonlinear_arith)
            requires
                n == 0,
        ;
    } else {
        let rest = ts.drop_first();
        assert forall|i: int| 0 <= i < rest.len() implies (#[trigger] rest[i]).width == h by {
            assert(rest[i] == ts[i + 1]);
        }
        lemma_uniform_queue_measure(rest, h);
        assert(spans_of(rest) =~= spans_of(ts).drop_first());
        assert(spans_of(ts)[0] == ts[0].span);
        let w0 = ts[0].span.width();
        let rw = sum_widths(spans_of(rest));
        assert(sum_widths(spans_of(ts)) == w0 + rw);
        assert((2 * w0 + 1) * h + (2 * h * rw + (n - 1) * h) == 2 * h * (w0 + rw) + n * h)
            by (nonlinear_arith);
        assert(ts[0].width == h);
    }
}

/// Classify the outcome of one bounded query against the query service:
/// a returned batch is a success, and any failure is collapsed into a
/// rejection of the queried span, which the engine then retries.
pub fn classify_fetch(span: BlockSpan, outcome: Option<Vec<RawEvent>>) -> (r: Result<
    Vec<RawEvent>,
    EventError,
>)
    ensures
        r is Ok <==> outcome is Some,
        r is Ok ==> r->Ok_0@ == outcome->Some_0@,
        r is Err ==> r->Err_0 == EventError::ErrorBlockRange(span.start, span.end),
{
    match outcome {
        Some(events) => Ok(events),
        None => Err(EventError::ErrorBlockRange(span.start, span.end)),
    }
}

/// The work queue and aggregation buffer of one fetch run.
pub struct FetchEngine {
    tasks: Vec<Task>,
    events: Vec<RawEvent>,
}

impl FetchEngine {
    /// The tasks still to be fetched.
    pub closed spec fn pending(self) -> Seq<Task> {
        self.tasks@
    }

    /// The events aggregated so far, in arrival order.
    pub closed spec fn collected(self) -> Seq<RawEvent> {
        self.events@
    }

    /// Every queued task is well formed.
    pub open spec fn wf(self) -> bool {
        forall|i: int| 0 <= i < self.pending().len() ==> (#[trigger] self.pending()[i]).wf()
    }

    /// Seed the queue with the split of the full span: the initial tasks
    /// cover it exactly, each at the requested width.
    pub fn new(full_span: BlockSpan, max_width: u64) -> (r: Result<FetchEngine, SpanError>)
        ensures
            match r {
                Ok(eng) => {
                    &&& full_span.wf() && max_width > 0
                    &&& eng.wf()
                    &&& eng.collected().len() == 0
                    &&& contiguous_cover(
                        spans_of(eng.pending()),
                        full_span.start as int,
                        full_span.end as int,
                    )
                    &&& widths_bounded(spans_of(eng.pending()), max_width as int)
                    &&& full_span.start < full_span.end ==> spans_of(eng.pending())[eng.pending().len() - 1].width() > 0
                    &&& eng.pending().len() == if full_span.start == full_span.end {
                        1int
                    } else {
                        (full_span.width() + max_width - 1) / (max_width as int)
                    }
                    &&& forall|i: int|
                        0 <= i < eng.pending().len() ==> (#[trigger] eng.pending()[i]).width
                            == max_width
                },
                Err(e) => (!full_span.wf() || max_width == 0) && e == SpanError::InvalidSpan,
            },
    {
        let spans = match split(full_span, max_width) {
            Ok(v) => v,
            Err(e) => {
                return Err(e);
            },
        };
        let tasks = tasks_at_width(spans, max_width);
        Ok(FetchEngine { tasks, events: Vec::new() })
    }

    /// Hand out the next pending task, or nothing when the queue is empty.
    pub fn take_task(&mut self) -> (r: Option<Task>)
        requires
            old(self).wf(),
        ensures
            final(self).wf(),
            final(self).collected() == old(self).collected(),
            match r {
                Some(t) => {
                    &&& old(self).pending() == final(self).pending().push(t) && t.wf()
                    &&& queue_measure(final(self).pending()) + task_measure(t) == queue_measure(
                        old(self).pending(),
                    )
                },
                None => final(self).pending() == old(self).pending() && old(
                    self,
                ).pending().len() == 0,
            },
    {
        let r = self.tasks.pop();
        proof {
            if r is Some {
                assert(old(self).pending() =~= final(self).pending().push(r->Some_0));
                lemma_queue_measure_snoc(final(self).pending(), r->Some_0);
            }
        }
        r
    }

    /// Append a successful fetch's events to the aggregation buffer.
    pub fn on_success(&mut self, events: Vec<RawEvent>)
        requires
            old(self).wf(),
        ensures
            final(self).wf(),
            final(self).pending() == old(self).pending(),
            final(self).collected() == old(self).collected() + events@,
    {
        let mut events = events;
        self.events.append(&mut events);
        proof {
            assert(self.pending() == old(self).pending());
        }
    }

    /// Handle a rejected task. At width two or more, the span is re-split
    /// at half the width and queued again, so each retry strictly narrows
    /// the queries; at width one nothing narrower is left to try, and the
    /// span's rejection is raised as an explicit error.
    pub fn on_rejected(&mut self, task: Task) -> (r: Result<(), EventError>)
        requires
            old(self).wf(),
            task.wf(),
        ensures
            final(self).wf(),
            final(self).collected() == old(self).collected(),
            match r {
                Ok(_) => {
                    &&& task.width >= 2
                    &&& final(self).pending().len() > old(self).pending().len()
                    &&& final(self).pending().take(old(self).pending().len() as int) == old(
                        self,
                    ).pending()
                    &&& contiguous_cover(
                        spans_of(final(self).pending().skip(old(self).pending().len() as int)),
                        task.span.start as int,
                        task.span.end as int,
                    )
                    &&& widths_bounded(
                        spans_of(final(self).pending().skip(old(self).pending().len() as int)),
                        (task.width / 2) as int,
                    )
                    &&& forall|i: int|
                        old(self).pending().len() <= i < final(self).pending().len() ==> (
                        #[trigger] final(self).pending()[i]).width == task.width / 2
                    &&& queue_measure(final(self).pending()) < queue_measure(old(self).pending())
                        + task_measure(task)
                },
                Err(e) => {
                    &&& task.width == 1
                    &&& *final(self) == *old(self)
                    &&& e == EventError::ErrorBlockRange(task.span.start, task.span.end)
                },
            },
    {
        if task.width == 1 {
            return Err(EventError::ErrorBlockRange(task.span.start, task.span.end));
        }
        let half: u64 = task.width / 2;
        let spans = match split(task.span, half) {
            Ok(v) => v,
            Err(_) => {
                return vstd::pervasive::unreached();
            },
        };
        let ghost prefix = self.tasks@;
        let mut fresh = tasks_at_width(spans, half);
        let ghost added = fresh@;
        self.tasks.append(&mut fresh);
        proof {
            assert(final(self).pending().take(prefix.len() as int) =~= prefix);
            assert(final(self).pending().skip(prefix.len() as int) =~= added);
            lemma_queue_measure_append(prefix, added);
            let h = half as int;
            let w = task.width as int;
            let bigw = task.span.width();
            vstd::arithmetic::div_mod::lemma_fundamental_div_mod(w, 2);
            lemma_uniform_queue_measure(added, h);
            lemma_cover_sum_widths(spans_of(added), task.span.start as int, task.span.end as int);
            lemma_widths_len_bound(spans_of(added), h);
            let k = added.len() as int;
            assert(sum_widths(spans_of(added)) == bigw);
            assert((k - 1) * h <= bigw);
            assert(2 * h * bigw + k * h < (2 * bigw + 1) * w) by (nonlinear_arith)
                requires
                    h >= 1 && bigw >= 0 && 2 * h <= w && (k - 1) * h <= bigw && k >= 1,
            ;
            assert(queue_measure(added) < task_measure(task));
        }
        Ok(())
    }

    /// Surrender the aggregation buffer at the end of a run.
    pub fn into_events(self) -> (r: Vec<RawEvent>)
        ensures
            r@ == self.collected(),
    {
        self.events
    }
}

/// Wrap each span as a task carrying the width it was derived with.
fn tasks_at_width(spans: Vec<BlockSpan>, width: u64) -> (r: Vec<Task>)
    requires
        width >= 1,
        forall|i: int| 0 <= i < spans@.len() ==> (#[trigger] spans@[i]).wf(),
    ensures
        r@.len() == spans@.len(),
        spans_of(r@) == spans@,
        forall|i: int|
            0 <= i < r@.len() ==> (#[trigger] r@[i]).width == width && r@[i].span == spans@[i]
                && r@[i].wf(),
{
    let mut out: Vec<Task> = Vec::new();
    let mut i: usize = 0;
    while i < spans.len()
        invariant
            width >= 1,
            i <= spans@.len(),
            out@.len() == i,
            forall|i: int| 0 <= i < spans@.len() ==> (#[trigger] spans@[i]).wf(),
            forall|j: int|
                0 <= j < out@.len() ==> (#[trigger] out@[j]).width == width && out@[j].span
                    == spans@[j] && out@[j].wf(),
        decreases spans@.len() - i,
    {
        out.push(Task { span: spans[i], width });
        i = i + 1;
    }
    proof {
        assert(spans_of(out@) =~= spans@);
    }
    out
}

} // verus!
