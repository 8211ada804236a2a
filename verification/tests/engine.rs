use event_export::engine::{classify_fetch, EventError, FetchEngine};
use event_export::event::RawEvent;
use event_export::span::{BlockSpan, SpanError};

fn sp(start: u64, end: u64) -> BlockSpan {
    BlockSpan { start, end }
}

fn one_event(block_number: u64) -> RawEvent {
    RawEvent {
        emitter: vec![0x11; 20],
        topics: vec![vec![0x22; 32]],
        data: Vec::new(),
        block_number,
        block_hash: vec![0x33; 32],
        tx_hash: vec![0x44; 32],
    }
}

#[test]
fn classify_success_returns_events() {
    let events = vec![one_event(3)];
    let r = classify_fetch(sp(0, 5), Some(events.clone()));
    assert_eq!(r, Ok(events));
}

#[test]
fn classify_failure_is_range_error() {
    let r = classify_fetch(sp(2, 9), None);
    assert_eq!(r, Err(EventError::ErrorBlockRange(2, 9)));
}

#[test]
fn engine_rejects_invalid_span() {
    assert!(matches!(FetchEngine::new(sp(9, 2), 4), Err(SpanError::InvalidSpan)));
    assert!(matches!(FetchEngine::new(sp(0, 2), 0), Err(SpanError::InvalidSpan)));
}

#[test]
fn rejected_once_then_success_no_duplicate() {
    let mut engine = FetchEngine::new(sp(0, 5), 5).unwrap();
    let mut rejected_once = false;
    let mut steps = 0;
    while let Some(task) = engine.take_task() {
        steps += 1;
        assert!(steps < 1000, "engine did not settle");
        if !rejected_once && task.span == sp(0, 5) {
            rejected_once = true;
            engine.on_rejected(task).unwrap();
        } else if task.span.start <= 3 && 3 < task.span.end {
            engine.on_success(vec![one_event(3)]);
        } else {
            engine.on_success(Vec::new());
        }
    }
    assert!(rejected_once);
    let events = engine.into_events();
    assert_eq!(events, vec![one_event(3)]);
}

#[test]
fn persistent_rejection_is_detected() {
    let mut engine = FetchEngine::new(sp(0, 4), 4).unwrap();
    let mut failure = None;
    let mut steps = 0;
    while let Some(task) = engine.take_task() {
        steps += 1;
        assert!(steps < 1000, "retries are not bounded");
        if let Err(e) = engine.on_rejected(task) {
            failure = Some(e);
            break;
        }
    }
    assert!(matches!(failure, Some(EventError::ErrorBlockRange(_, _))));
}

#[test]
fn retry_widths_halve() {
    let mut engine = FetchEngine::new(sp(0, 8), 8).unwrap();
    let first = engine.take_task().unwrap();
    assert_eq!(first.width, 8);
    engine.on_rejected(first).unwrap();
    let second = engine.take_task().unwrap();
    assert_eq!(second.width, 4);
    engine.on_rejected(second).unwrap();
    let third = engine.take_task().unwrap();
    assert_eq!(third.width, 2);
}

#[test]
fn success_appends_in_arrival_order() {
    let mut engine = FetchEngine::new(sp(0, 6), 3).unwrap();
    let a = engine.take_task().unwrap();
    let b = engine.take_task().unwrap();
    assert!(engine.take_task().is_none());
    engine.on_success(vec![one_event(a.span.start)]);
    engine.on_success(vec![one_event(b.span.start)]);
    let events = engine.into_events();
    assert_eq!(events.len(), 2);
    assert_eq!(events[0].block_number, a.span.start);
    assert_eq!(events[1].block_number, b.span.start);
}
