//! The row formatter: a decoded event's field texts, then the requested
//! metadata columns, joined with single commas into one text row — and the
//! run-level builder that renders one row per successfully decoded event.

use vstd::prelude::*;

use crate::decode::{
    dec_of, decode_event, decoded_fields_of, field_text, hex_of, push_bytes, push_dec_u64,
    push_hex, render_field, sig_bounded, DecodeError, Field,
};
use crate::event::{lemma_topics_view_push, param_bytes, topics_view, RawEvent};

verus! {

/// The texts of a run of decoded fields, in order.
pub open spec fn field_texts(fs: Seq<Field>) -> Seq<Seq<u8>> {
    fs.map_values(|f: Field| field_text(f))
}

/// The given column texts joined with single commas. No escaping of
/// embedded commas is performed.
pub open spec fn join_texts(ts: Seq<Seq<u8>>) -> Seq<u8>
    decreases ts.len(),
{
    if ts.len() == 0 {
        Seq::empty()
    } else if ts.len() == 1 {
        ts[0]
    } else {
        ts[0] + seq![44u8] + join_texts(ts.drop_first())
    }
}

pub proof fn lemma_join_snoc(ts: Seq<Seq<u8>>, t: Seq<u8>)
    ensures
        join_texts(ts.push(t)) == if ts.len() == 0 {
            t
        } else {
            join_texts(ts) + seq![44u8] + t
        },
    decreases ts.len(),
{
    if ts.len() == 0 {
        assert(ts.push(t)[0] == t);
        assert(join_texts(ts.push(t)) == t);
    } else {
        assert(ts.push(t).drop_first() =~= ts.drop_first().push(t));
        lemma_join_snoc(ts.drop_first(), t);
        if ts.len() == 1 {
            assert(ts.drop_first().len() == 0);
            assert(join_texts(ts.push(t)) =~= join_texts(ts) + seq![44u8] + t);
        } else {
            assert(join_texts(ts.push(t)) =~= join_texts(ts) + seq![44u8] + t);
        }
    }
}

/// The column texts of one row: the decoded field texts, then the block
/// number, the block hash and the transaction hash where requested, in
/// that fixed order.
pub open spec fn column_texts(
    fs: Seq<Field>,
    with_block_number: bool,
    with_block_hash: bool,
    with_tx_hash: bool,
    ev: RawEvent,
) -> Seq<Seq<u8>> {
    let cols = field_texts(fs);
    let cols = if with_block_number {
        cols.push(dec_of(ev.block_number as nat))
    } else {
        cols
    };
    let cols = if with_block_hash {
        cols.push(seq![48u8, 120u8] + hex_of(ev.block_hash@))
    } else {
        cols
    };
    if with_tx_hash {
        cols.push(seq![48u8, 120u8] + hex_of(ev.tx_hash@))
    } else {
        cols
    }
}

/// One delimited text row for a decoded event.
pub open spec fn row_text(
    fs: Seq<Field>,
    with_block_number: bool,
    with_block_hash: bool,
    with_tx_hash: bool,
    ev: RawEvent,
) -> Seq<u8> {
    join_texts(column_texts(fs, with_block_number, with_block_hash, with_tx_hash, ev))
}

/// Join the given column texts with single commas.
fn join_with_commas(texts: &Vec<Vec<u8>>) -> (r: Vec<u8>)
    ensures
        r@ == join_texts(topics_view(texts@)),
{
    let mut out: Vec<u8> = Vec::new();
    let mut i: usize = 0;
    while i < texts.len()
        invariant
            i <= texts@.len(),
            out@ == join_texts(topics_view(texts@).take(i as int)),
        decreases texts@.len() - i,
    {
        if i > 0 {
            out.push(44);
        }
        push_bytes(&mut out, &texts[i]);
        proof {
            let tv = topics_view(texts@);
            assert(tv[i as int] == texts@[i as int]@);
            assert(tv.take((i as int) + 1) =~= tv.take(i as int).push(tv[i as int]));
            lemma_join_snoc(tv.take(i as int), tv[i as int]);
            assert(out@ =~= join_texts(tv.take((i as int) + 1)));
        }
        i = i + 1;
    }
    proof {
        assert(topics_view(texts@).take(texts@.len() as int) =~= topics_view(texts@));
    }
    out
}

/// Render one row: the field texts, then the requested metadata columns,
/// joined with single commas.
pub fn format_row(
    fields: &Vec<Field>,
    with_block_number: bool,
    with_block_hash: bool,
    with_tx_hash: bool,
    ev: &RawEvent,
) -> (r: Vec<u8>)
    requires
        ev.wf(),
        forall|i: int| 0 <= i < fields@.len() ==> (#[trigger] fields@[i]).wf(),
    ensures
        r@ == row_text(fields@, with_block_number, with_block_hash, with_tx_hash, *ev),
{
    let mut texts: Vec<Vec<u8>> = Vec::new();
    let mut i: usize = 0;
    while i < fields.len()
        invariant
            i <= fields@.len(),
            texts@.len() == i,
            forall|j: int| 0 <= j < fields@.len() ==> (#[trigger] fields@[j]).wf(),
            topics_view(texts@) == field_texts(fields@).take(i as int),
        decreases fields@.len() - i,
    {
        let t = render_field(&fields[i]);
        let ghost pre = texts@;
        texts.push(t);
        proof {
            let m = field_texts(fields@);
            lemma_topics_view_push(pre, texts@[i as int]);
            assert(m[i as int] == field_text(fields@[i as int]));
            assert(topics_view(texts@) =~= m.take((i as int) + 1));
        }
        i = i + 1;
    }
    proof {
        let m = field_texts(fields@);
        assert(m.take(fields@.len() as int) =~= m);
    }
    let ghost cols0 = field_texts(fields@);
    let ghost cols1 = if with_block_number {
        cols0.push(dec_of(ev.block_number as nat))
    } else {
        cols0
    };
    let ghost cols2 = if with_block_hash {
        cols1.push(seq![48u8, 120u8] + hex_of(ev.block_hash@))
    } else {
        cols1
    };
    if with_block_number {
        let mut t: Vec<u8> = Vec::new();
        push_dec_u64(&mut t, ev.block_number);
        let ghost pre = texts@;
        texts.push(t);
        proof {
            lemma_topics_view_push(pre, texts@[pre.len() as int]);
        }
    }
    proof {
        assert(topics_view(texts@) =~= cols1);
    }
    if with_block_hash {
        let mut t: Vec<u8> = Vec::new();
        t.push(48);
        t.push(120);
        push_hex(&mut t, &ev.block_hash);
        proof {
            assert(t@ =~= seq![48u8, 120u8] + hex_of(ev.block_hash@));
        }
        let ghost pre = texts@;
        texts.push(t);
        proof {
            lemma_topics_view_push(pre, texts@[pre.len() as int]);
        }
    }
    proof {
        assert(topics_view(texts@) =~= cols2);
    }
    if with_tx_hash {
        let mut t: Vec<u8> = Vec::new();
        t.push(48);
        t.push(120);
        push_hex(&mut t, &ev.tx_hash);
        proof {
            assert(t@ =~= seq![48u8, 120u8] + hex_of(ev.tx_hash@));
        }
        let ghost pre = texts@;
        texts.push(t);
        proof {
            lemma_topics_view_push(pre, texts@[pre.len() as int]);
        }
    }
    proof {
        assert(topics_view(texts@) =~= column_texts(
            fields@,
            with_block_number,
            with_block_hash,
            with_tx_hash,
            *ev,
        ));
    }
    join_with_commas(&texts)
}

/// Whether the decoder accepts the event against the signature: the
/// signature carries no oversized number, and the decode service accepts
/// the pair.
pub open spec fn decode_ok(sig: Seq<char>, ev: RawEvent) -> bool {
    sig_bounded(sig) && decoded_fields_of(sig, param_bytes(ev)) is Some
}

/// The rows of a run of events: one per event the service decodes, in
/// order; an event the service rejects contributes none.
pub open spec fn rows_text(
    evs: Seq<RawEvent>,
    sig: Seq<char>,
    with_block_number: bool,
    with_block_hash: bool,
    with_tx_hash: bool,
) -> Seq<Seq<u8>>
    decreases evs.len(),
{
    if evs.len() == 0 {
        Seq::empty()
    } else {
        let rest = rows_text(evs.drop_first(), sig, with_block_number, with_block_hash, with_tx_hash);
        if decode_ok(sig, evs[0]) {
            seq![
                row_text(
                    decoded_fields_of(sig, param_bytes(evs[0]))->Some_0,
                    with_block_number,
                    with_block_hash,
                    with_tx_hash,
                    evs[0],
                ),
            ] + rest
        } else {
            rest
        }
    }
}

/// How many of the events the service decodes against the signature.
pub open spec fn count_decoded(evs: Seq<RawEvent>, sig: Seq<char>) -> int
    decreases evs.len(),
{
    if evs.len() == 0 {
        0
    } else {
        (if decode_ok(sig, evs[0]) {
            1int
        } else {
            0int
        }) + count_decoded(evs.drop_first(), sig)
    }
}

pub proof fn lemma_rows_snoc(
    evs: Seq<RawEvent>,
    ev: RawEvent,
    sig: Seq<char>,
    with_block_number: bool,
    with_block_hash: bool,
    with_tx_hash: bool,
)
    ensures
        rows_text(evs.push(ev), sig, with_block_number, with_block_hash, with_tx_hash)
            == rows_text(evs, sig, with_block_number, with_block_hash, with_tx_hash) + (
        if decode_ok(sig, ev) {
            seq![
                row_text(
                    decoded_fields_of(sig, param_bytes(ev))->Some_0,
                    with_block_number,
                    with_block_hash,
                    with_tx_hash,
                    ev,
                ),
            ]
        } else {
            Seq::empty()
        }),
    decreases evs.len(),
{
    let tail = if decode_ok(sig, ev) {
        seq![
            row_text(
                decoded_fields_of(sig, param_bytes(ev))->Some_0,
                with_block_number,
                with_block_hash,
                with_tx_hash,
                ev,
            ),
        ]
    } else {
        Seq::<Seq<u8>>::empty()
    };
    if evs.len() == 0 {
        assert(evs.push(ev)[0] == ev);
        assert(evs.push(ev).drop_first() =~= Seq::<RawEvent>::empty());
        assert(rows_text(
            Seq::<RawEvent>::empty(),
            sig,
            with_block_number,
            with_block_hash,
            with_tx_hash,
        ) == Seq::<Seq<u8>>::empty());
        assert(rows_text(evs, sig, with_block_number, with_block_hash, with_tx_hash)
            == Seq::<Seq<u8>>::empty());
        if decode_ok(sig, ev) {
            assert(rows_text(evs.push(ev), sig, with_block_number, with_block_hash, with_tx_hash)
                =~= tail);
        } else {
            assert(rows_text(evs.push(ev), sig, with_block_number, with_block_hash, with_tx_hash)
                =~= tail);
        }
        assert(rows_text(evs, sig, with_block_number, with_block_hash, with_tx_hash) + tail
            =~= tail);
    } else {
        assert(evs.push(ev)[0] == evs[0]);
        assert(evs.push(ev).drop_first() =~= evs.drop_first().push(ev));
        lemma_rows_snoc(evs.drop_first(), ev, sig, with_block_number, with_block_hash, with_tx_hash);
        assert(rows_text(evs.push(ev), sig, with_block_number, with_block_hash, with_tx_hash)
            =~= rows_text(evs, sig, with_block_number, with_block_hash, with_tx_hash) + tail);
    }
}

pub proof fn lemma_count_snoc(evs: Seq<RawEvent>, ev: RawEvent, sig: Seq<char>)
    ensures
        count_decoded(evs.push(ev), sig) == count_decoded(evs, sig) + if decode_ok(sig, ev) {
            1int
        } else {
            0int
        },
    decreases evs.len(),
{
    if evs.len() == 0 {
        assert(evs.push(ev)[0] == ev);
        assert(evs.push(ev).drop_first() =~= Seq::<RawEvent>::empty());
        assert(count_decoded(Seq::<RawEvent>::empty(), sig) == 0);
        assert(count_decoded(evs, sig) == 0);
    } else {
        assert(evs.push(ev)[0] == evs[0]);
        assert(evs.push(ev).drop_first() =~= evs.drop_first().push(ev));
        lemma_count_snoc(evs.drop_first(), ev, sig);
    }
}

/// Decode every event and render one row per success. The row count is
/// exactly the number of events the service decodes; an event it rejects
/// is skipped without touching its neighbours' rows.
pub fn rows_for_events(
    events: &Vec<RawEvent>,
    sig: &str,
    with_block_number: bool,
    with_block_hash: bool,
    with_tx_hash: bool,
) -> (r: Vec<Vec<u8>>)
    requires
        forall|i: int| 0 <= i < events@.len() ==> (#[trigger] events@[i]).wf(),
    ensures
        topics_view(r@) == rows_text(events@, sig@, with_block_number, with_block_hash, with_tx_hash),
        r@.len() == count_decoded(events@, sig@),
{
    let mut out: Vec<Vec<u8>> = Vec::new();
    let mut i: usize = 0;
    while i < events.len()
        invariant
            i <= events@.len(),
            forall|j: int| 0 <= j < events@.len() ==> (#[trigger] events@[j]).wf(),
            topics_view(out@) == rows_text(
                events@.take(i as int),
                sig@,
                with_block_number,
                with_block_hash,
                with_tx_hash,
            ),
            out@.len() == count_decoded(events@.take(i as int), sig@),
        decreases events@.len() - i,
    {
        let ghost prefix = events@.take(i as int);
        match decode_event(&events[i], sig) {
            Ok(fields) => {
                proof {
                    assert(decode_ok(sig@, events@[i as int]));
                }
                let row = format_row(
                    &fields,
                    with_block_number,
                    with_block_hash,
                    with_tx_hash,
                    &events[i],
                );
                let ghost preout = out@;
                out.push(row);
                proof {
                    lemma_topics_view_push(preout, out@[preout.len() as int]);
                }
            },
            Err(e) => {
                proof {
                    if e == DecodeError::SignatureOverflow {
                        assert(!sig_bounded(sig@));
                    } else {
                        assert(e == DecodeError::PayloadMismatch);
                    }
                    assert(!decode_ok(sig@, events@[i as int]));
                }
            },
        }
        proof {
            assert(events@.take((i as int) + 1) =~= prefix.push(events@[i as int]));
            lemma_rows_snoc(
                prefix,
                events@[i as int],
                sig@,
                with_block_number,
                with_block_hash,
                with_tx_hash,
            );
            lemma_count_snoc(prefix, events@[i as int], sig@);
            assert(topics_view(out@) =~= rows_text(
                events@.take((i as int) + 1),
                sig@,
                with_block_number,
                with_block_hash,
                with_tx_hash,
            ));
        }
        i = i + 1;
    }
    proof {
        assert(events@.take(events@.len() as int) =~= events@);
    }
    out
}

} // verus!
