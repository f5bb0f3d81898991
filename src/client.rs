//! The client side: the decisions of a single-connection session, and the
//! framing of messages on the reliable stream.
use vstd::prelude::*;
use crate::auth::{open, opened, seal, sealed, slice_range};

verus! {

/// Delivery class of an outbound message.
#[derive(Clone, Copy, Debug, PartialEq, Eq, Structural)]
pub enum Delivery {
    Reliable,
    Unreliable,
}

/// What a session reports to the application.
#[derive(Debug, Clone)]
pub enum ClientEvent {
    Connected,
    Received(Vec<u8>),
    Disconnected,
}

/// Why a session ended.
#[derive(Debug, Clone, Copy, PartialEq, Eq, Structural)]
pub enum ClientError {
    /// A socket or stream could not be opened, read or written.
    Io,
    /// The handshake failed or the peer rejected it.
    Connection,
    /// An event could not be handed to the application.
    Event,
}

/// The client endpoint.
pub struct Client;

/// What the session loop observed on one wake.
pub enum SessionInput {
    /// A framed message from the reliable stream, or `None` when the read failed.
    Reliable(Option<Vec<u8>>),
    /// A datagram from the unreliable socket.
    Datagram(Vec<u8>),
    /// A message queued by the application.
    Outbound(Vec<u8>, Delivery),
}

/// What the session loop does in answer.
pub enum SessionAction {
    Ignore,
    Emit(ClientEvent),
    WriteReliable(Vec<u8>),
    SendDatagram(Vec<u8>),
    /// Report `Disconnected` and end the session with an error.
    Disconnect,
}

/// The authenticated connection of one session.
pub struct Session {
    pub id: u64,
    pub key: Vec<u8>,
}

impl Session {
    pub fn new(id: u64, key: Vec<u8>) -> (r: Self)
        ensures
            r.id == id,
            r.key@ == key@,
    {
        Session { id, key }
    }

    /// Decides what one wake of the session loop does: reliable messages are
    /// reported and a failed reliable read ends the session; a datagram is
    /// reported only when its tag checks out; queued messages go to the stream
    /// as they are, or to the datagram socket sealed with tag and id.
    pub fn step(&self, input: SessionInput) -> (r: SessionAction)
        ensures
            match input {
                SessionInput::Reliable(Some(m)) => r matches SessionAction::Emit(ClientEvent::Received(p)) && p@ == m@,
                SessionInput::Reliable(None) => r is Disconnect,
                SessionInput::Datagram(b) => match opened(self.key@, b@) {
                    Some(p) => r matches SessionAction::Emit(ClientEvent::Received(q)) && q@ == p,
                    None => r is Ignore,
                },
                SessionInput::Outbound(m, Delivery::Reliable) => r matches SessionAction::WriteReliable(w) && w@ == m@,
                SessionInput::Outbound(m, Delivery::Unreliable) => r matches SessionAction::SendDatagram(w) && w@ == sealed(self.key@, self.id, m@),
            },
    {
        match input {
            SessionInput::Reliable(Some(m)) => SessionAction::Emit(ClientEvent::Received(m)),
            SessionInput::Reliable(None) => SessionAction::Disconnect,
            SessionInput::Datagram(b) => match open(self.key.as_slice(), b.as_slice()) {
                Some(p) => SessionAction::Emit(ClientEvent::Received(p)),
                None => SessionAction::Ignore,
            },
            SessionInput::Outbound(m, Delivery::Reliable) => SessionAction::WriteReliable(m),
            SessionInput::Outbound(m, Delivery::Unreliable) => SessionAction::SendDatagram(seal(self.key.as_slice(), self.id, m.as_slice())),
        }
    }
}

/// The four big-endian bytes of `n`.
pub open spec fn be4(n: u32) -> Seq<u8> {
    seq![(n / 0x100_0000 % 256) as u8, (n / 0x1_0000 % 256) as u8, (n / 0x100 % 256) as u8, (n % 256) as u8]
}

/// The number that four big-endian bytes stand for.
pub open spec fn be4_value(s: Seq<u8>) -> int {
    s[0] * 0x100_0000 + s[1] * 0x1_0000 + s[2] * 0x100 + s[3]
}

/// A message on the reliable stream: its length in four big-endian bytes,
/// then its bytes.
pub open spec fn frame_of(p: Seq<u8>) -> Seq<u8> {
    be4(p.len() as u32) + p
}

/// The frames of the messages `ps`, one after another.
pub open spec fn frames(ps: Seq<Seq<u8>>) -> Seq<u8>
    decreases ps.len(),
{
    if ps.len() == 0 { Seq::empty() } else { frame_of(ps[0]) + frames(ps.drop_first()) }
}

/// The messages that a reader takes from the stream `b`, in order, up to the
/// first incomplete frame.
pub open spec fn unframe(b: Seq<u8>) -> Seq<Seq<u8>>
    decreases b.len(),
{
    if b.len() < 4 {
        Seq::empty()
    } else {
        let n = be4_value(b.subrange(0, 4));
        if 4 + n > b.len() {
            Seq::empty()
        } else {
            seq![b.subrange(4, 4 + n)] + unframe(b.subrange(4 + n, b.len() as int))
        }
    }
}

/// Whether every message fits a frame.
pub open spec fn frameable(ps: Seq<Seq<u8>>) -> bool {
    forall|i: int| 0 <= i < ps.len() ==> (#[trigger] ps[i]).len() <= 0xffff_ffff
}

/// The frame of `payload` for the reliable stream.
pub fn frame_message(payload: &[u8]) -> (r: Vec<u8>)
    requires
        payload@.len() <= 0xffff_ffff,
    ensures
        r@ == frame_of(payload@),
{
    let n = payload.len() as u32;
    let mut out: Vec<u8> = Vec::new();
    out.push((n / 0x100_0000 % 256) as u8);
    out.push((n / 0x1_0000 % 256) as u8);
    out.push((n / 0x100 % 256) as u8);
    out.push((n % 256) as u8);
    let ghost head = out@;
    assert(head =~= be4(n));
    let mut i: usize = 0;
    while i < payload.len()
        invariant
            i <= payload@.len(),
            out@ == head + payload@.take(i as int),
        decreases payload@.len() - i,
    {
        out.push(payload[i]);
        i = i + 1;
        assert(out@ =~= head + payload@.take(i as int));
    }
    assert(payload@.take(i as int) =~= payload@);
    out
}

/// The length of the message whose four header bytes are `header`; `None`
/// when it exceeds `max`.
pub fn frame_body_len(header: &[u8], max: usize) -> (r: Option<usize>)
    requires
        header@.len() == 4,
    ensures
        r is Some <==> be4_value(header@) <= max,
        r matches Some(n) ==> n == be4_value(header@),
{
    let n: u64 = (header[0] as u64) * 0x100_0000 + (header[1] as u64) * 0x1_0000 + (header[2] as u64) * 0x100 + (header[3] as u64);
    if n <= max as u64 {
        Some(n as usize)
    } else {
        None
    }
}

/// The number that eight big-endian bytes stand for.
pub open spec fn be8_value(s: Seq<u8>) -> int {
    s[0] * 0x100_0000_0000_0000 + s[1] * 0x1_0000_0000_0000 + s[2] * 0x100_0000_0000
        + s[3] * 0x1_0000_0000 + s[4] * 0x100_0000 + s[5] * 0x1_0000 + s[6] * 0x100 + s[7]
}

/// The connection id and signing key of a handshake reply: eight big-endian
/// bytes of id, then the key; `None` when the reply is shorter than an id.
pub fn parse_handshake_reply(reply: &[u8]) -> (r: Option<(u64, Vec<u8>)>)
    ensures
        r is Some <==> reply@.len() >= 8,
        r matches Some(t) ==> t.0 == be8_value(reply@) && t.1@ == reply@.subrange(8, reply@.len() as int),
{
    if reply.len() < 8 {
        return None;
    }
    let id: u64 = (reply[0] as u64) * 0x100_0000_0000_0000 + (reply[1] as u64) * 0x1_0000_0000_0000
        + (reply[2] as u64) * 0x100_0000_0000 + (reply[3] as u64) * 0x1_0000_0000
        + (reply[4] as u64) * 0x100_0000 + (reply[5] as u64) * 0x1_0000
        + (reply[6] as u64) * 0x100 + (reply[7] as u64);
    let key = slice_range(reply, 8, reply.len());
    Some((id, key))
}

proof fn lemma_be4_round_trip(n: u32)
    ensures
        be4_value(be4(n)) == n,
{
    assert((n / 0x100_0000 % 256) * 0x100_0000 + (n / 0x1_0000 % 256) * 0x1_0000
        + (n / 0x100 % 256) * 0x100 + n % 256 == n) by (bit_vector);
}

/// Messages written to the reliable stream as frames, one after another, are
/// read back by the peer in the order sent, each exactly once and whole.
pub proof fn lemma_reliable_in_order(ps: Seq<Seq<u8>>)
    requires
        frameable(ps),
    ensures
        unframe(frames(ps)) == ps,
    decreases ps.len(),
{
    if ps.len() == 0 {
        assert(unframe(frames(ps)) =~= ps);
    } else {
        let p = ps[0];
        let tail = ps.drop_first();
        assert(frameable(tail)) by {
            assert forall|i: int| 0 <= i < tail.len() implies (#[trigger] tail[i]).len() <= 0xffff_ffff by {
                assert(tail[i] == ps[i + 1]);
            }
        }
        lemma_reliable_in_order(tail);
        let b = frames(ps);
        let n = p.len() as u32;
        lemma_be4_round_trip(n);
        assert(b =~= be4(n) + p + frames(tail));
        assert(b.subrange(0, 4) =~= be4(n));
        assert(b.subrange(4, 4 + p.len() as int) =~= p);
        assert(b.subrange(4 + p.len() as int, b.len() as int) =~= frames(tail));
        assert(unframe(b) =~= seq![p] + tail);
        assert(seq![p] + tail =~= ps);
    }
}

} // verus!
