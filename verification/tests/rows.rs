use event_export::decode::{build_payload, decode_event, render_field, DecodeError, Field};
use event_export::event::RawEvent;
use event_export::row::{format_row, rows_for_events};

const PAIR_SIG: &str = "PairCreated(address,address,uint256)";

fn address_topic(byte: u8) -> Vec<u8> {
    let mut t = vec![0u8; 12];
    t.extend(std::iter::repeat(byte).take(20));
    t
}

fn uint_word(value: u64) -> Vec<u8> {
    let mut w = vec![0u8; 24];
    w.extend(value.to_be_bytes());
    w
}

fn pair_created_event() -> RawEvent {
    RawEvent {
        emitter: vec![0x11; 20],
        topics: vec![vec![0x22; 32], address_topic(0xaa), address_topic(0xbb)],
        data: uint_word(1000),
        block_number: 123,
        block_hash: vec![0x33; 32],
        tx_hash: vec![0x44; 32],
    }
}

#[test]
fn payload_has_placeholder_topics_and_data() {
    let ev = pair_created_event();
    let payload = String::from_utf8(build_payload(&ev)).unwrap();
    let expected = format!(
        "0x00000000{}{}{}{}",
        "0".repeat(24),
        "a".repeat(40),
        "0".repeat(24),
        "b".repeat(40),
    ) + &"0".repeat(60)
        + "03e8";
    assert_eq!(payload, expected);
}

#[test]
fn payload_length_follows_the_invariant() {
    let ev = pair_created_event();
    let payload = build_payload(&ev);
    let indexed = ev.topics.len() - 1;
    assert_eq!(payload.len(), 10 + 64 * indexed + 2 * ev.data.len());

    let bare = RawEvent { topics: vec![vec![0x22; 32]], data: vec![1, 2, 3], ..pair_created_event() };
    assert_eq!(build_payload(&bare).len(), 10 + 2 * 3);
}

#[test]
fn pair_created_row_with_block_number() {
    let ev = pair_created_event();
    let fields = decode_event(&ev, PAIR_SIG).expect("decode should succeed");
    let row = format_row(&fields, true, false, false, &ev);
    let expected = format!("0x{},0x{},1000,123", "a".repeat(40), "b".repeat(40));
    assert_eq!(String::from_utf8(row).unwrap(), expected);
}

#[test]
fn metadata_columns_keep_fixed_order() {
    let ev = pair_created_event();
    let fields = decode_event(&ev, PAIR_SIG).expect("decode should succeed");
    let row = format_row(&fields, true, true, true, &ev);
    let expected = format!(
        "0x{},0x{},1000,123,0x{},0x{}",
        "a".repeat(40),
        "b".repeat(40),
        "33".repeat(32),
        "44".repeat(32),
    );
    assert_eq!(String::from_utf8(row).unwrap(), expected);
}

#[test]
fn decode_rejects_mismatched_payload() {
    let mut ev = pair_created_event();
    ev.data = vec![0u8; 3];
    assert_eq!(decode_event(&ev, PAIR_SIG), Err(DecodeError::PayloadMismatch));
}

#[test]
fn decode_failure_skips_exactly_one_row() {
    let good = pair_created_event();
    let mut bad = pair_created_event();
    bad.data = vec![0u8; 3];
    let events = vec![good.clone(), bad, good];
    let rows = rows_for_events(&events, PAIR_SIG, true, false, false);
    assert_eq!(rows.len(), 2);
    let expected = format!("0x{},0x{},1000,123", "a".repeat(40), "b".repeat(40));
    for row in rows {
        assert_eq!(String::from_utf8(row).unwrap(), expected);
    }
}

#[test]
fn uint_word_renders_as_decimal() {
    let mut big = vec![0u8; 32];
    big[15] = 1;
    let text = render_field(&Field::Uint(big));
    assert_eq!(
        String::from_utf8(text).unwrap(),
        "340282366920938463463374607431768211456",
    );

    let zero = render_field(&Field::Uint(vec![0u8; 32]));
    assert_eq!(String::from_utf8(zero).unwrap(), "0");
}

#[test]
fn address_field_renders_as_prefixed_hex() {
    let text = render_field(&Field::Address(vec![0xab; 20]));
    assert_eq!(String::from_utf8(text).unwrap(), format!("0x{}", "ab".repeat(20)));
}

#[test]
fn oversized_signature_is_rejected_not_parsed() {
    let ev = pair_created_event();
    let sig = "f(uint8[18446744073709551616])";
    assert_eq!(decode_event(&ev, sig), Err(DecodeError::SignatureOverflow));

    let rows = rows_for_events(&vec![ev], sig, false, false, false);
    assert!(rows.is_empty());
}

#[test]
fn nine_digit_numbers_pass_the_signature_scan() {
    let ev = pair_created_event();
    // A bounded signature with a large but representable array size is
    // handed to the decode service, which rejects the payload instead.
    let sig = "f(uint8[999999999])";
    assert_eq!(decode_event(&ev, sig), Err(DecodeError::PayloadMismatch));
}
