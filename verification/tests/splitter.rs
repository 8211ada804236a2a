use event_export::span::{client_spans, split, BlockSpan, SpanError};

fn sp(start: u64, end: u64) -> BlockSpan {
    BlockSpan { start, end }
}

#[test]
fn split_zero_to_ten_by_five() {
    let spans = split(sp(0, 10), 5).unwrap();
    assert_eq!(spans, vec![sp(0, 5), sp(5, 10)]);
}

#[test]
fn split_clips_last_span() {
    let spans = split(sp(0, 10), 4).unwrap();
    assert_eq!(spans, vec![sp(0, 4), sp(4, 8), sp(8, 10)]);
}

#[test]
fn split_wide_limit_yields_whole_span() {
    let spans = split(sp(3, 9), 100).unwrap();
    assert_eq!(spans, vec![sp(3, 9)]);
}

#[test]
fn split_degenerate_span_yields_one_empty_span() {
    let spans = split(sp(7, 7), 3).unwrap();
    assert_eq!(spans, vec![sp(7, 7)]);
}

#[test]
fn split_is_contiguous_and_bounded() {
    let spans = split(sp(11, 1000), 7).unwrap();
    assert_eq!(spans[0].start, 11);
    assert_eq!(spans[spans.len() - 1].end, 1000);
    for w in spans.windows(2) {
        assert_eq!(w[0].end, w[1].start);
    }
    for (i, s) in spans.iter().enumerate() {
        assert!(s.start <= s.end);
        if i + 1 < spans.len() {
            assert_eq!(s.end - s.start, 7);
        } else {
            assert!(s.end - s.start <= 7);
        }
    }
}

#[test]
fn split_rejects_backwards_span() {
    assert_eq!(split(sp(5, 3), 2), Err(SpanError::InvalidSpan));
}

#[test]
fn split_rejects_zero_width() {
    assert_eq!(split(sp(0, 10), 0), Err(SpanError::InvalidSpan));
}

#[test]
fn client_spans_partition_evenly() {
    let parts = client_spans(sp(0, 10), 3).unwrap();
    assert_eq!(parts, vec![sp(0, 3), sp(3, 6), sp(6, 10)]);
}

#[test]
fn client_spans_single_client_takes_all() {
    assert_eq!(client_spans(sp(5, 9), 1).unwrap(), vec![sp(5, 9)]);
}

#[test]
fn client_spans_reject_zero_clients() {
    assert_eq!(client_spans(sp(0, 10), 0), Err(SpanError::InvalidSpan));
}
