use zelda::auth::{seal, sign, tagged};
use zelda::client::{ClientEvent, Delivery, Session, SessionAction, SessionInput};
use zelda::config::Config;
use zelda::datagram::Datagram;
use zelda::event::{Event, PeerAddress};
use zelda::rtt::Alpha;
use zelda::table::{ConnectionTable, Packet};

fn peer(port: u16) -> PeerAddress {
    PeerAddress { ip: 0x7f00_0001, port, v6: false }
}

const KEY: &[u8] = b"shared-key";

fn frame(d: Datagram) -> Vec<u8> {
    tagged(KEY, &d.encode())
}

fn table() -> ConnectionTable {
    ConnectionTable::new(config(), KEY.to_vec())
}

fn config() -> Config {
    Config {
        event_capacity: 16,
        rtt_alpha: Alpha { num: 1, den: 8 },
        rtt_queue_capacity: 4,
        timeout: 2_000_000,
        max_reliable_size: 1024,
    }
}

#[test]
fn default_config_values() {
    let c = Config::default();
    assert_eq!(c.event_capacity, 1024);
    assert_eq!(c.rtt_alpha, Alpha { num: 1, den: 8 });
    assert_eq!(c.rtt_queue_capacity, 128);
    assert_eq!(c.timeout, 2_000_000);
    assert_eq!(c.max_reliable_size, 65535);
}

#[test]
fn first_datagram_connects_then_receives() {
    let mut t = table();
    let a = peer(4000);
    let bytes = frame(Datagram::new(b"hi".to_vec(), 1, 0));
    let ev = t.handle_datagram(a, &bytes, 10);
    assert_eq!(ev.len(), 2);
    assert!(matches!(ev[0], Event::Connected(x) if x == a));
    match &ev[1] {
        Event::Received { address, payload, rtt } => {
            assert_eq!(*address, a);
            assert_eq!(payload, &b"hi".to_vec());
            assert_eq!(*rtt, None);
        }
        _ => panic!("expected a received event"),
    }
    let ev = t.handle_datagram(a, &bytes, 20);
    assert_eq!(ev.len(), 1);
    assert!(t.contains(a));
    assert_eq!(t.len(), 1);
}

#[test]
fn malformed_datagram_changes_nothing() {
    let mut t = table();
    let a = peer(4001);
    t.handle_datagram(a, &frame(Datagram::new(vec![], 1, 0)), 100);
    let ev = t.handle_datagram(a, &[1, 2, 3], 5_000_000);
    assert!(ev.is_empty());
    let ev = t.handle_datagram(peer(9), &[0; 11], 5_000_000);
    assert!(ev.is_empty());
    // authentic tag, but no envelope after it
    let ev = t.handle_datagram(a, &tagged(KEY, &[1, 2, 3]), 5_000_000);
    assert!(ev.is_empty());
    assert_eq!(t.len(), 1);
    // liveness is still counted from the last well-formed datagram
    let ev = t.sweep(2_000_100);
    assert_eq!(ev.len(), 1);
}

#[test]
fn outbound_packet_creates_connection_and_envelope() {
    let mut t = table();
    let a = peer(4002);
    let (ev, bytes) = t.handle_packet(Packet::new(a, b"x".to_vec()), 0);
    assert_eq!(ev.len(), 1);
    assert!(matches!(ev[0], Event::Connected(x) if x == a));
    let d = Datagram::decode(&bytes[8..]).unwrap();
    assert_eq!((d.rtt_seq, d.rtt_ack), (1, 0));
    let (ev, bytes) = t.handle_packet(Packet::new(a, b"y".to_vec()), 0);
    assert!(ev.is_empty());
    let d = Datagram::decode(&bytes[8..]).unwrap();
    assert_eq!((d.rtt_seq, d.rtt_ack, d.payload), (2, 0, b"y".to_vec()));
}

#[test]
fn ping_ack_yields_rtt_estimate() {
    // client sends "ping" with sequence 1; the server's reply acks 1
    let mut client = table();
    let mut server = table();
    let s = peer(5000);
    let c = peer(5001);
    let (_, ping) = client.handle_packet(Packet::new(s, b"ping".to_vec()), 1_000);
    assert_eq!(client.rtt_of(s), None);
    let ev = server.handle_datagram(c, &ping, 1_100);
    assert_eq!(ev.len(), 2);
    let (_, pong) = server.handle_packet(Packet::new(c, b"pong".to_vec()), 1_200);
    let d = Datagram::decode(&pong[8..]).unwrap();
    assert_eq!(d.rtt_ack, 1);
    let ev = client.handle_datagram(s, &pong, 1_400);
    assert_eq!(ev.len(), 1);
    match &ev[0] {
        Event::Received { rtt, .. } => assert_eq!(*rtt, Some(400)),
        _ => panic!("expected a received event"),
    }
    assert_eq!(client.rtt_of(s), Some(400));
}

#[test]
fn silent_peer_disconnected_once() {
    let mut t = table();
    let a = peer(6000);
    let b = peer(6001);
    t.handle_datagram(a, &frame(Datagram::new(vec![], 1, 0)), 0);
    t.handle_datagram(b, &frame(Datagram::new(vec![], 1, 0)), 1_500_000);
    assert!(t.sweep(1_999_999).is_empty());
    let ev = t.sweep(2_000_000);
    assert_eq!(ev.len(), 1);
    assert!(matches!(ev[0], Event::Disconnected(x) if x == a));
    assert!(!t.contains(a));
    assert!(t.contains(b));
    assert!(t.sweep(2_100_000).is_empty());
    let ev = t.handle_datagram(a, &frame(Datagram::new(vec![], 2, 0)), 2_200_000);
    assert!(matches!(ev[0], Event::Connected(x) if x == a));
}

#[test]
fn session_reports_reliable_messages() {
    let s = Session::new(7, b"key".to_vec());
    match s.step(SessionInput::Reliable(Some(b"abc".to_vec()))) {
        SessionAction::Emit(ClientEvent::Received(p)) => assert_eq!(p, b"abc".to_vec()),
        _ => panic!("expected a received event"),
    }
    assert!(matches!(s.step(SessionInput::Reliable(None)), SessionAction::Disconnect));
}

#[test]
fn session_dispatches_by_delivery_class() {
    let s = Session::new(7, b"key".to_vec());
    match s.step(SessionInput::Outbound(b"m".to_vec(), Delivery::Reliable)) {
        SessionAction::WriteReliable(w) => assert_eq!(w, b"m".to_vec()),
        _ => panic!("expected a reliable write"),
    }
    match s.step(SessionInput::Outbound(b"ping".to_vec(), Delivery::Unreliable)) {
        SessionAction::SendDatagram(w) => assert_eq!(w, seal(b"key", 7, b"ping")),
        _ => panic!("expected a datagram"),
    }
}

#[test]
fn session_accepts_authentic_datagram() {
    let s = Session::new(7, b"key".to_vec());
    let rest = b"payload".to_vec();
    let mut f = sign(b"key", &rest);
    f.extend_from_slice(&rest);
    match s.step(SessionInput::Datagram(f)) {
        SessionAction::Emit(ClientEvent::Received(p)) => assert_eq!(p, rest),
        _ => panic!("expected a received event"),
    }
}

#[test]
fn forged_datagram_is_dropped() {
    let s = Session::new(7, b"key".to_vec());
    let rest = b"payload".to_vec();
    let mut f = sign(b"attacker", &rest);
    f.extend_from_slice(&rest);
    assert!(matches!(s.step(SessionInput::Datagram(f)), SessionAction::Ignore));
    assert!(matches!(s.step(SessionInput::Datagram(vec![1, 2, 3, 4, 5, 6, 7, 8])), SessionAction::Ignore));
}

#[test]
fn outbound_datagram_is_tagged() {
    let mut t = table();
    let (_, bytes) = t.handle_packet(Packet::new(peer(4100), b"z".to_vec()), 0);
    let envelope = Datagram::new(b"z".to_vec(), 1, 0).encode();
    assert_eq!(&bytes[..8], &sign(KEY, &envelope)[..]);
    assert_eq!(&bytes[8..], &envelope[..]);
}

#[test]
fn forged_datagram_ignored_by_table() {
    let mut t = table();
    let a = peer(4200);
    t.handle_datagram(a, &frame(Datagram::new(vec![], 1, 0)), 0);
    // well-formed envelope, tag made with a key the attacker guessed
    let forged = tagged(b"guess", &Datagram::new(b"evil".to_vec(), 9, 0).encode());
    assert!(t.handle_datagram(a, &forged, 1_900_000).is_empty());
    // untagged envelope
    assert!(t.handle_datagram(a, &Datagram::new(b"evil".to_vec(), 9, 0).encode(), 1_900_000).is_empty());
    // liveness still counts from time 0
    let ev = t.sweep(2_000_000);
    assert_eq!(ev.len(), 1);
    assert!(matches!(ev[0], Event::Disconnected(x) if x == a));
}

#[test]
fn unknown_peer_without_key_rejected() {
    let mut t = table();
    let forged = tagged(b"guess", &Datagram::new(b"hi".to_vec(), 1, 0).encode());
    assert!(t.handle_datagram(peer(4300), &forged, 0).is_empty());
    assert_eq!(t.len(), 0);
}
