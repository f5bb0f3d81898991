//! The datagram envelope exchanged over the unreliable transport on the server
//! path: sequence number, acknowledged sequence number and payload, encoded
//! with bincode.
use vstd::prelude::*;

verus! {

#[verifier::external_type_specification]
#[verifier::external_body]
pub struct ExBincodeErrorKind(bincode::ErrorKind);

/// 256 to the power `k`.
pub open spec fn pow256(k: nat) -> nat
    decreases k,
{
    if k == 0 { 1 } else { 256 * pow256((k - 1) as nat) }
}

/// The `k` little-endian bytes of `n` (taken modulo `256^k`).
pub open spec fn le_bytes(n: nat, k: nat) -> Seq<u8>
    decreases k,
{
    if k == 0 {
        Seq::empty()
    } else {
        seq![(n % 256) as u8] + le_bytes(n / 256, (k - 1) as nat)
    }
}

/// The number that the little-endian bytes `s` stand for.
pub open spec fn le_value(s: Seq<u8>) -> nat
    decreases s.len(),
{
    if s.len() == 0 {
        0
    } else {
        s[0] as nat + 256 * le_value(s.drop_first())
    }
}

/// The bytes of an envelope: sequence and ack as two little-endian bytes each,
/// the payload's length as eight little-endian bytes, then the payload.
pub open spec fn envelope_bytes(seq: u16, ack: u16, payload: Seq<u8>) -> Seq<u8> {
    le_bytes(seq as nat, 2) + le_bytes(ack as nat, 2) + le_bytes(payload.len(), 8) + payload
}

/// The declared payload length of an envelope that starts `b`.
pub open spec fn declared_len(b: Seq<u8>) -> nat {
    le_value(b.subrange(4, 12))
}

/// Whether `b` starts with a whole envelope (bytes after it are ignored).
pub open spec fn envelope_complete(b: Seq<u8>) -> bool {
    b.len() >= 12 && declared_len(b) <= b.len() - 12
}

/// The fields of the envelope at the start of `b`, when it is complete.
pub open spec fn parse_envelope(b: Seq<u8>) -> Option<(u16, u16, Seq<u8>)> {
    if envelope_complete(b) {
        Some((
            le_value(b.subrange(0, 2)) as u16,
            le_value(b.subrange(2, 4)) as u16,
            b.subrange(12, 12 + declared_len(b) as int),
        ))
    } else {
        None
    }
}

/// Relies on bincode::serialize, whose legacy configuration writes fixed-width
/// little-endian integers and a u64 length before a sequence, with no size
/// limit: a tuple of two u16 and a byte vector is written field by field into a
/// vector, which cannot fail.
#[verifier::external_body]
fn bincode_serialize(value: &(u16, u16, Vec<u8>)) -> (r: Result<Vec<u8>, Box<bincode::ErrorKind>>)
    ensures
        r is Ok,
        r matches Ok(b) ==> b@ == envelope_bytes(value.0, value.1, value.2@),
{
    bincode::serialize(value)
}

/// Relies on bincode::deserialize in the same legacy configuration, which
/// allows trailing bytes: it reads the two u16, the u64 length and then that
/// many bytes, and fails when the input ends first.
#[verifier::external_body]
fn bincode_deserialize(bytes: &[u8]) -> (r: Result<(u16, u16, Vec<u8>), Box<bincode::ErrorKind>>)
    ensures
        r is Ok <==> parse_envelope(bytes@) is Some,
        r matches Ok(t) ==> parse_envelope(bytes@) == Some((t.0, t.1, t.2@)),
{
    bincode::deserialize::<(u16, u16, Vec<u8>)>(bytes)
}

/// The wire unit of the unreliable transport.
#[derive(Debug, Clone)]
pub struct Datagram {
    pub rtt_seq: u16,
    pub rtt_ack: u16,
    pub payload: Vec<u8>,
}

impl Datagram {
    pub fn new(payload: Vec<u8>, rtt_seq: u16, rtt_ack: u16) -> (r: Self)
        ensures
            r.rtt_seq == rtt_seq,
            r.rtt_ack == rtt_ack,
            r.payload@ == payload@,
    {
        Datagram { rtt_seq, rtt_ack, payload }
    }

    /// The envelope's bytes.
    pub fn encode(self) -> (r: Vec<u8>)
        ensures
            r@ == envelope_bytes(self.rtt_seq, self.rtt_ack, self.payload@),
    {
        let fields = (self.rtt_seq, self.rtt_ack, self.payload);
        match bincode_serialize(&fields) {
            Ok(b) => b,
            Err(_) => Vec::new(),
        }
    }

    /// The envelope at the start of `bytes`; `None` when `bytes` is too short
    /// to hold one.
    pub fn decode(bytes: &[u8]) -> (r: Option<Datagram>)
        ensures
            r is Some <==> parse_envelope(bytes@) is Some,
            r matches Some(d) ==> parse_envelope(bytes@) == Some((d.rtt_seq, d.rtt_ack, d.payload@)),
    {
        match bincode_deserialize(bytes) {
            Ok(t) => Some(Datagram { rtt_seq: t.0, rtt_ack: t.1, payload: t.2 }),
            Err(_) => None,
        }
    }
}

proof fn lemma_le_round_trip(n: nat, k: nat)
    requires
        n < pow256(k),
    ensures
        le_value(le_bytes(n, k)) == n,
        le_bytes(n, k).len() == k,
    decreases k,
{
    if k > 0 {
        let k1 = (k - 1) as nat;
        assert(n / 256 < pow256(k1)) by (nonlinear_arith)
            requires
                n < 256 * pow256(k1),
        ;
        lemma_le_round_trip(n / 256, k1);
        let s = le_bytes(n, k);
        assert(s.drop_first() =~= le_bytes(n / 256, k1));
        assert(n == n % 256 + 256 * (n / 256)) by (nonlinear_arith);
    }
}

/// Decoding the bytes of an envelope gives back its fields.
pub proof fn lemma_envelope_round_trip(seq: u16, ack: u16, payload: Seq<u8>)
    requires
        payload.len() < pow256(8),
    ensures
        parse_envelope(envelope_bytes(seq, ack, payload)) == Some((seq, ack, payload)),
{
    assert(pow256(0) == 1);
    assert(pow256(1) == 256);
    assert(pow256(2) == 65536);
    lemma_le_round_trip(seq as nat, 2);
    lemma_le_round_trip(ack as nat, 2);
    lemma_le_round_trip(payload.len(), 8);
    let b = envelope_bytes(seq, ack, payload);
    assert(b.subrange(0, 2) =~= le_bytes(seq as nat, 2));
    assert(b.subrange(2, 4) =~= le_bytes(ack as nat, 2));
    assert(b.subrange(4, 12) =~= le_bytes(payload.len(), 8));
    assert(b.subrange(12, 12 + payload.len() as int) =~= payload);
}

} // verus!
