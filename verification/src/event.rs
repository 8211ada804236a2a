//! The raw event record: an unparsed log entry as the ledger query service
//! hands it out, carrying the emitter, up to four 32-byte topic hashes, an
//! opaque data payload, and the block and transaction metadata.

use vstd::prelude::*;

verus! {

/// One unparsed log record. `topics[0]` is by convention the hash of the
/// event signature; `topics[1..]` carry the indexed arguments.
#[derive(Clone, Debug, PartialEq, Eq)]
pub struct RawEvent {
    /// Address of the emitting contract, 20 bytes.
    pub emitter: Vec<u8>,
    /// Topic hashes, 32 bytes each; at least the signature hash is present.
    pub topics: Vec<Vec<u8>>,
    /// The opaque data payload.
    pub data: Vec<u8>,
    /// Height of the block that holds the event.
    pub block_number: u64,
    /// Hash of that block, 32 bytes.
    pub block_hash: Vec<u8>,
    /// Hash of the carrying transaction, 32 bytes.
    pub tx_hash: Vec<u8>,
}

impl RawEvent {
    /// Field sizes as the wire format fixes them.
    pub open spec fn wf(self) -> bool {
        &&& self.emitter@.len() == 20
        &&& self.topics@.len() >= 1
        &&& forall|i: int| 0 <= i < self.topics@.len() ==> (#[trigger] self.topics@[i])@.len() == 32
        &&& self.block_hash@.len() == 32
        &&& self.tx_hash@.len() == 32
    }
}

/// The bytes of the given topic sequence, laid end to end.
pub open spec fn bytes_concat(ts: Seq<Seq<u8>>) -> Seq<u8>
    decreases ts.len(),
{
    if ts.len() == 0 {
        Seq::empty()
    } else {
        ts[0] + bytes_concat(ts.drop_first())
    }
}

/// The byte sequences of a run of byte vectors.
pub open spec fn topics_view(ts: Seq<Vec<u8>>) -> Seq<Seq<u8>> {
    ts.map_values(|t: Vec<u8>| t@)
}

/// The decodable parameter bytes of an event: the indexed topics
/// (all but the signature hash) laid end to end, then the data payload.
pub open spec fn param_bytes(ev: RawEvent) -> Seq<u8> {
    bytes_concat(topics_view(ev.topics@).drop_first()) + ev.data@
}

pub proof fn lemma_topics_view_push(s: Seq<Vec<u8>>, v: Vec<u8>)
    ensures
        topics_view(s.push(v)) == topics_view(s).push(v@),
{
    assert forall|j: int| 0 <= j < s.len() + 1 implies #[trigger] topics_view(s.push(v))[j]
        == topics_view(s).push(v@)[j] by {
        if j < s.len() {
            assert(s.push(v)[j] == s[j]);
        } else {
            assert(s.push(v)[j] == v);
        }
    }
    assert(topics_view(s.push(v)) =~= topics_view(s).push(v@));
}

} // verus!
