//! Events surfaced to the application on the server path.
use vstd::prelude::*;

verus! {

/// A network endpoint: the address bits (IPv4 addresses in the low 32 bits),
/// the port, and which address family it belongs to.
#[derive(Clone, Copy, Debug, PartialEq, Eq, Structural, Hash)]
pub struct PeerAddress {
    pub ip: u128,
    pub port: u16,
    pub v6: bool,
}

/// What the table reports to the application. RTT values are in microseconds.
#[derive(Clone, Debug)]
pub enum Event {
    Connected(PeerAddress),
    /// A payload from the peer, with the RTT estimate so far when there is one.
    Received { address: PeerAddress, payload: Vec<u8>, rtt: Option<u64> },
    Disconnected(PeerAddress),
}

/// The contents of an event.
pub enum EventView {
    Connected(PeerAddress),
    Received(PeerAddress, Seq<u8>, Option<u64>),
    Disconnected(PeerAddress),
}

impl Event {
    pub open spec fn view(&self) -> EventView {
        match self {
            Event::Connected(a) => EventView::Connected(*a),
            Event::Received { address, payload, rtt } => EventView::Received(*address, payload@, *rtt),
            Event::Disconnected(a) => EventView::Disconnected(*a),
        }
    }
}

/// The contents of a list of events.
pub open spec fn events_view(v: Seq<Event>) -> Seq<EventView> {
    v.map_values(|e: Event| e@)
}

} // verus!
