//! The event decoder. It rebuilds the canonical hex payload of a raw
//! event — a fixed four-byte placeholder for the selector slot, the
//! indexed topics, then the data — and has the ABI decode service turn the
//! parameter bytes into typed field values, each rendered to text for the
//! row formatter.

use vstd::prelude::*;

use crate::event::{bytes_concat, param_bytes, topics_view, RawEvent};

verus! {

/// One typed value decoded from an event's payload.
#[derive(Clone, Debug, PartialEq, Eq)]
pub enum Field {
    /// An address: its 20 bytes.
    Address(Vec<u8>),
    /// A signed integer word: its 32 bytes, big endian.
    Int(Vec<u8>),
    /// An unsigned integer word: its 32 bytes, big endian.
    Uint(Vec<u8>),
    /// Any other value, in its generic text form.
    Other(Vec<u8>),
}

impl Field {
    /// Field payload sizes as the wire format fixes them.
    pub open spec fn wf(self) -> bool {
        match self {
            Field::Address(b) => b@.len() == 20,
            Field::Int(b) => b@.len() == 32,
            Field::Uint(b) => b@.len() == 32,
            Field::Other(_) => true,
        }
    }
}

/// The lowercase hex digit of a value below sixteen.
pub open spec fn hex_digit(n: u8) -> u8 {
    if n < 10 {
        (48 + n) as u8
    } else {
        (87 + n) as u8
    }
}

/// The lowercase hex rendering of a byte sequence, two digits per byte.
pub open spec fn hex_of(s: Seq<u8>) -> Seq<u8>
    decreases s.len(),
{
    if s.len() == 0 {
        Seq::empty()
    } else {
        seq![hex_digit((s[0] / 16) as u8), hex_digit((s[0] % 16) as u8)] + hex_of(s.drop_first())
    }
}

/// The decimal rendering of a natural number: no leading zeros, a single
/// `0` digit for zero.
pub open spec fn dec_of(n: nat) -> Seq<u8>
    decreases n,
{
    if n < 10 {
        seq![(48 + n) as u8]
    } else {
        dec_of(n / 10).push((48 + n % 10) as u8)
    }
}

/// The value of a byte sequence read as one big-endian number.
pub open spec fn be_val(s: Seq<u8>) -> nat
    decreases s.len(),
{
    if s.len() == 0 {
        0
    } else {
        (be_val(s.drop_last()) * 256 + s.last()) as nat
    }
}

pub proof fn lemma_hex_of_len(s: Seq<u8>)
    ensures
        hex_of(s).len() == 2 * s.len(),
    decreases s.len(),
{
    if s.len() > 0 {
        lemma_hex_of_len(s.drop_first());
    }
}

pub proof fn lemma_hex_of_append(a: Seq<u8>, b: Seq<u8>)
    ensures
        hex_of(a + b) == hex_of(a) + hex_of(b),
    decreases a.len(),
{
    if a.len() == 0 {
        assert(a + b =~= b);
        assert(hex_of(a) + hex_of(b) =~= hex_of(b));
    } else {
        assert((a + b).drop_first() =~= a.drop_first() + b);
        lemma_hex_of_append(a.drop_first(), b);
        assert(hex_of(a + b) =~= hex_of(a) + hex_of(b));
    }
}

/// Append the bytes of `src` to `out`.
pub fn push_bytes(out: &mut Vec<u8>, src: &Vec<u8>)
    ensures
        final(out)@ == old(out)@ + src@,
{
    let ghost base = out@;
    let mut i: usize = 0;
    while i < src.len()
        invariant
            i <= src@.len(),
            out@ == base + src@.take(i as int),
        decreases src@.len() - i,
    {
        out.push(src[i]);
        proof {
            assert(src@.take((i as int) + 1) =~= src@.take(i as int).push(src@[i as int]));
            assert(out@ =~= base + src@.take((i as int) + 1));
        }
        i = i + 1;
    }
    proof {
        assert(src@.take(src@.len() as int) =~= src@);
    }
}

/// Append the hex rendering of `bytes` to `out`.
pub fn push_hex(out: &mut Vec<u8>, bytes: &Vec<u8>)
    ensures
        final(out)@ == old(out)@ + hex_of(bytes@),
{
    let ghost base = out@;
    let mut i: usize = 0;
    while i < bytes.len()
        invariant
            i <= bytes@.len(),
            out@ == base + hex_of(bytes@.take(i as int)),
        decreases bytes@.len() - i,
    {
        let b = bytes[i];
        let hi: u8 = b / 16;
        let lo: u8 = b % 16;
        out.push(if hi < 10 { hi + 48 } else { hi + 87 });
        out.push(if lo < 10 { lo + 48 } else { lo + 87 });
        proof {
            let pre = bytes@.take(i as int);
            assert(bytes@.take((i as int) + 1) =~= pre + seq![b]);
            lemma_hex_of_append(pre, seq![b]);
            assert(seq![b].drop_first() =~= Seq::<u8>::empty());
            assert(hex_of(Seq::<u8>::empty()) =~= Seq::<u8>::empty());
            assert(hex_of(seq![b]) =~= seq![hex_digit((b / 16) as u8), hex_digit((b % 16) as u8)]
                + hex_of(Seq::<u8>::empty()));
            assert(hex_of(seq![b]) =~= seq![hex_digit((b / 16) as u8), hex_digit((b % 16) as u8)]);
            assert(out@ =~= base + hex_of(bytes@.take((i as int) + 1)));
        }
        i = i + 1;
    }
    proof {
        assert(bytes@.take(bytes@.len() as int) =~= bytes@);
    }
}

/// Append the decimal rendering of `n` to `out`.
pub fn push_dec_u64(out: &mut Vec<u8>, n: u64)
    ensures
        final(out)@ == old(out)@ + dec_of(n as nat),
    decreases n,
{
    if n < 10 {
        out.push(48 + n as u8);
        proof {
            assert(final(out)@ =~= old(out)@ + dec_of(n as nat));
        }
    } else {
        push_dec_u64(out, n / 10);
        out.push(48 + (n % 10) as u8);
        proof {
            assert(final(out)@ =~= old(out)@ + dec_of(n as nat));
        }
    }
}

pub proof fn lemma_bytes_concat_snoc(ts: Seq<Seq<u8>>, t: Seq<u8>)
    ensures
        bytes_concat(ts.push(t)) == bytes_concat(ts) + t,
    decreases ts.len(),
{
    if ts.len() == 0 {
        assert(ts.push(t)[0] == t);
        assert(ts.push(t).drop_first() =~= Seq::<Seq<u8>>::empty());
        assert(bytes_concat(Seq::<Seq<u8>>::empty()) =~= Seq::<u8>::empty());
        assert(bytes_concat(ts.push(t)) =~= t + Seq::<u8>::empty());
        assert(bytes_concat(ts.push(t)) =~= bytes_concat(ts) + t);
    } else {
        assert(ts.push(t).drop_first() =~= ts.drop_first().push(t));
        lemma_bytes_concat_snoc(ts.drop_first(), t);
        assert(bytes_concat(ts.push(t)) =~= bytes_concat(ts) + t);
    }
}

pub proof fn lemma_bytes_concat_len32(ts: Seq<Seq<u8>>)
    requires
        forall|i: int| 0 <= i < ts.len() ==> (#[trigger] ts[i]).len() == 32,
    ensures
        bytes_concat(ts).len() == 32 * ts.len(),
    decreases ts.len(),
{
    if ts.len() > 0 {
        assert forall|i: int| 0 <= i < ts.drop_first().len() implies (#[trigger] ts.drop_first()[
            i
        ]).len() == 32 by {
            assert(ts.drop_first()[i] == ts[i + 1]);
        }
        lemma_bytes_concat_len32(ts.drop_first());
    }
}

/// Gather an event's decodable parameter bytes: the indexed topics laid
/// end to end, then the data payload.
pub fn collect_params(ev: &RawEvent) -> (r: Vec<u8>)
    requires
        ev.wf(),
    ensures
        r@ == param_bytes(*ev),
{
    let mut out: Vec<u8> = Vec::new();
    let ghost tv = topics_view(ev.topics@);
    let mut i: usize = 1;
    while i < ev.topics.len()
        invariant
            1 <= i <= ev.topics@.len(),
            ev.topics@.len() >= 1,
            tv == topics_view(ev.topics@),
            out@ == bytes_concat(tv.subrange(1, i as int)),
        decreases ev.topics@.len() - i,
    {
        push_bytes(&mut out, &ev.topics[i]);
        proof {
            assert(tv[i as int] == ev.topics@[i as int]@);
            assert(tv.subrange(1, (i as int) + 1) =~= tv.subrange(1, i as int).push(tv[i as int]));
            lemma_bytes_concat_snoc(tv.subrange(1, i as int), tv[i as int]);
        }
        i = i + 1;
    }
    push_bytes(&mut out, &ev.data);
    proof {
        assert(tv.subrange(1, tv.len() as int) =~= tv.drop_first());
        assert(out@ =~= param_bytes(*ev));
    }
    out
}

/// The fixed placeholder standing in the selector slot of the payload:
/// the text `0x00000000`.
pub open spec fn placeholder_text() -> Seq<u8> {
    seq![48u8, 120u8, 48u8, 48u8, 48u8, 48u8, 48u8, 48u8, 48u8, 48u8]
}

/// The canonical hex payload of an event: the placeholder, then the hex of
/// the parameter bytes as one contiguous string.
pub open spec fn payload_text(ev: RawEvent) -> Seq<u8> {
    placeholder_text() + hex_of(param_bytes(ev))
}

/// Build the canonical hex payload of an event. Its length is ten for the
/// placeholder, sixty-four per indexed topic, and two per data byte.
pub fn build_payload(ev: &RawEvent) -> (r: Vec<u8>)
    requires
        ev.wf(),
    ensures
        r@ == payload_text(*ev),
        r@.len() == 10 + 64 * (ev.topics@.len() - 1) + 2 * ev.data@.len(),
{
    let mut out: Vec<u8> = Vec::new();
    out.push(48);
    out.push(120);
    let mut k: usize = 0;
    while k < 8
        invariant
            k <= 8,
            out@ =~= placeholder_text().take(2 + k as int),
        decreases 8 - k,
    {
        out.push(48);
        k = k + 1;
    }
    proof {
        assert(out@ =~= placeholder_text());
    }
    let params = collect_params(ev);
    push_hex(&mut out, &params);
    proof {
        lemma_hex_of_len(param_bytes(*ev));
        let tv = topics_view(ev.topics@);
        assert forall|i: int| 0 <= i < tv.drop_first().len() implies (#[trigger] tv.drop_first()[
            i
        ]).len() == 32 by {
            assert(tv.drop_first()[i] == tv[i + 1]);
            assert(tv[i + 1] == ev.topics@[i + 1]@);
        }
        lemma_bytes_concat_len32(tv.drop_first());
    }
    out
}

/// An ASCII decimal digit.
pub open spec fn is_dec_digit(c: char) -> bool {
    48 <= c as u32 <= 57
}

/// Some position of the ten starting at `i` does not hold a digit.
pub open spec fn window_has_nondigit(s: Seq<char>, i: int) -> bool {
    exists|j: int| i <= j < i + 10 && !is_dec_digit(#[trigger] s[j])
}

/// No ten consecutive decimal digits anywhere in the text: every number
/// written in it then has at most nine digits, so it fits the machine
/// word that the signature parser reads an array size into.
pub open spec fn sig_bounded(s: Seq<char>) -> bool {
    forall|i: int| 0 <= i && i + 10 <= s.len() ==> #[trigger] window_has_nondigit(s, i)
}

/// Scan a signature text for a run of ten or more decimal digits.
pub fn check_sig_bounded(sig: &str) -> (r: bool)
    ensures
        r == sig_bounded(sig@),
{
    let n = sig.unicode_len();
    let mut i: usize = 0;
    let mut run: usize = 0;
    while i < n
        invariant
            n == sig@.len(),
            i <= n,
            run <= i,
            run <= 9,
            forall|k: int| i - run <= k < i ==> is_dec_digit(#[trigger] sig@[k]),
            i - run - 1 >= 0 ==> !is_dec_digit(sig@[i - run - 1]),
            forall|a: int| 0 <= a && a + 10 <= i ==> #[trigger] window_has_nondigit(sig@, a),
        decreases n - i,
    {
        let c = sig.get_char(i);
        let digit: bool = (c as u32) >= 48 && (c as u32) <= 57;
        if digit {
            if run == 9 {
                proof {
                    let a = i - 9;
                    assert forall|j: int| a <= j < a + 10 implies is_dec_digit(sig@[j]) by {
                        if j < i {
                            assert(is_dec_digit(sig@[j]));
                        } else {
                            assert(sig@[j] == c);
                        }
                    }
                    assert(!window_has_nondigit(sig@, a));
                    assert(!sig_bounded(sig@));
                }
                return false;
            }
            run = run + 1;
        } else {
            run = 0;
        }
        proof {
            let ni = (i as int) + 1;
            if 0 <= ni - 10 {
                let a = ni - 10;
                if digit {
                    let j = (i as int) - (run as int);
                    assert(a <= j < a + 10);
                    assert(!is_dec_digit(sig@[j]));
                    assert(window_has_nondigit(sig@, a));
                } else {
                    assert(a <= i < a + 10);
                    assert(!is_dec_digit(sig@[i as int]));
                    assert(window_has_nondigit(sig@, a));
                }
            }
            assert forall|a: int| 0 <= a && a + 10 <= ni implies #[trigger] window_has_nondigit(
                sig@,
                a,
            ) by {
                if a + 10 <= i {
                    assert(window_has_nondigit(sig@, a));
                }
            }
        }
        i = i + 1;
    }
    true
}

/// The typed values that the ABI decode service yields for an event
/// signature and a run of parameter bytes, or nothing where it rejects
/// the pair as mismatched.
pub uninterp spec fn decoded_fields_of(sig: Seq<char>, data: Seq<u8>) -> Option<Seq<Field>>;

/// Relies on ethers-core: `AbiParser::parse_function` reads the declared
/// signature, and ethabi's `Function::decode_input` decodes the parameter
/// bytes against its argument types; which typed values come back — or
/// that the pair is rejected — is a function of the two arguments alone.
/// An address is handed on as its 20 bytes, an integer word as its 32
/// big-endian bytes, anything else in its generic text form. The parser
/// reads a bracketed array size with an unchecked machine-word parse, so
/// the signature must not carry a number of ten or more digits.
#[verifier::external_body]
fn abi_decode_fields(sig: &str, data: &[u8]) -> (r: Option<Vec<Field>>)
    requires
        sig_bounded(sig@),
    ensures
        match r {
            Some(fs) => decoded_fields_of(sig@, data@) == Some(fs@) && forall|i: int|
                0 <= i < fs@.len() ==> (#[trigger] fs@[i]).wf(),
            None => decoded_fields_of(sig@, data@) is None,
        },
{
    let f = ethers_core::abi::AbiParser::default().parse_function(sig).ok()?;
    let tokens = f.decode_input(data).ok()?;
    Some(tokens.into_iter().map(|t| match t {
        ethers_core::abi::Token::Address(a) => Field::Address(a.0.to_vec()),
        ethers_core::abi::Token::Int(i) => { let mut b = [0u8; 32]; i.to_big_endian(&mut b); Field::Int(b.to_vec()) },
        ethers_core::abi::Token::Uint(u) => { let mut b = [0u8; 32]; u.to_big_endian(&mut b); Field::Uint(b.to_vec()) },
        t => Field::Other(format!("{t}").into_bytes()),
    }).collect())
}

/// Relies on the `Display` of ethers-core's `U256`, reached through
/// `U256::from_big_endian`: a 256-bit word prints as its plain decimal
/// digits, no leading zeros, a single `0` for zero.
#[verifier::external_body]
fn u256_to_dec(word: &Vec<u8>) -> (r: Vec<u8>)
    requires
        word@.len() == 32,
    ensures
        r@ == dec_of(be_val(word@)),
{
    format!("{}", ethers_core::types::U256::from_big_endian(word)).into_bytes()
}

/// A recoverable per-event failure: the signature carries a number too
/// large for the parser, or the decode service cannot parse the event's
/// payload against the declared signature.
#[derive(Clone, Copy, Debug, PartialEq, Eq, Structural)]
pub enum DecodeError {
    SignatureOverflow,
    PayloadMismatch,
}

/// Decode one raw event against the event signature: the service reads
/// the parameter bytes that the payload carries behind the placeholder.
/// A signature carrying a ten-digit number is rejected up front, since
/// the parser would not survive it; a payload the service rejects is a
/// recoverable per-event error.
pub fn decode_event(ev: &RawEvent, sig: &str) -> (r: Result<Vec<Field>, DecodeError>)
    requires
        ev.wf(),
    ensures
        match r {
            Ok(fs) => {
                &&& sig_bounded(sig@)
                &&& decoded_fields_of(sig@, param_bytes(*ev)) == Some(fs@)
                &&& forall|i: int| 0 <= i < fs@.len() ==> (#[trigger] fs@[i]).wf()
            },
            Err(e) => {
                &&& (e == DecodeError::SignatureOverflow <==> !sig_bounded(sig@))
                &&& e == DecodeError::PayloadMismatch ==> decoded_fields_of(
                    sig@,
                    param_bytes(*ev),
                ) is None
            },
        },
{
    if !check_sig_bounded(sig) {
        return Err(DecodeError::SignatureOverflow);
    }
    let params = collect_params(ev);
    match abi_decode_fields(sig, params.as_slice()) {
        Some(fields) => Ok(fields),
        None => Err(DecodeError::PayloadMismatch),
    }
}

/// The text of one decoded field: an address as `0x` and its hex, an
/// integer word as its decimal digits, anything else as it stands.
pub open spec fn field_text(f: Field) -> Seq<u8> {
    match f {
        Field::Address(b) => seq![48u8, 120u8] + hex_of(b@),
        Field::Int(b) => dec_of(be_val(b@)),
        Field::Uint(b) => dec_of(be_val(b@)),
        Field::Other(t) => t@,
    }
}

/// Render one decoded field to its text.
pub fn render_field(f: &Field) -> (r: Vec<u8>)
    requires
        f.wf(),
    ensures
        r@ == field_text(*f),
{
    match f {
        Field::Address(b) => {
            let mut out: Vec<u8> = Vec::new();
            out.push(48);
            out.push(120);
            push_hex(&mut out, b);
            proof {
                assert(out@ =~= field_text(*f));
            }
            out
        },
        Field::Int(b) => u256_to_dec(b),
        Field::Uint(b) => u256_to_dec(b),
        Field::Other(t) => {
            let mut out: Vec<u8> = Vec::new();
            push_bytes(&mut out, t);
            proof {
                assert(out@ =~= field_text(*f));
            }
            out
        },
    }
}

} // verus!
