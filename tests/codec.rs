use zelda::auth::{open, seal, sign, verify};
use zelda::client::{frame_body_len, frame_message, parse_handshake_reply};
use zelda::datagram::Datagram;

#[test]
fn envelope_bytes_are_little_endian() {
    let b = Datagram::new(vec![9, 8, 7], 0x0102, 0x0a0b).encode();
    assert_eq!(b, vec![2, 1, 0x0b, 0x0a, 3, 0, 0, 0, 0, 0, 0, 0, 9, 8, 7]);
}

#[test]
fn envelope_round_trip() {
    let b = Datagram::new(b"hello".to_vec(), 65535, 12).encode();
    let d = Datagram::decode(&b).unwrap();
    assert_eq!(d.rtt_seq, 65535);
    assert_eq!(d.rtt_ack, 12);
    assert_eq!(d.payload, b"hello".to_vec());
}

#[test]
fn envelope_trailing_bytes_ignored() {
    let mut b = Datagram::new(vec![1], 3, 4).encode();
    b.push(99);
    let d = Datagram::decode(&b).unwrap();
    assert_eq!(d.payload, vec![1]);
}

#[test]
fn truncated_envelope_rejected() {
    let b = Datagram::new(vec![1, 2, 3], 3, 4).encode();
    assert!(Datagram::decode(&b[..14]).is_none());
    assert!(Datagram::decode(&b[..5]).is_none());
    assert!(Datagram::decode(&[]).is_none());
}

#[test]
fn tag_is_eight_bytes_and_keyed() {
    let t1 = sign(b"key-one", b"payload");
    let t2 = sign(b"key-two", b"payload");
    let t3 = sign(b"key-one", b"payload");
    assert_eq!(t1.len(), 8);
    assert_eq!(t1, t3);
    assert_ne!(t1, t2);
    assert_ne!(sign(b"key-one", b"payloae"), t1);
}

#[test]
fn tag_of_empty_input() {
    // the digest of nothing is its starting value
    assert_eq!(sign(b"", b""), vec![0xcb, 0xf2, 0x9c, 0xe4, 0x84, 0x22, 0x23, 0x25]);
}

#[test]
fn verify_checks_every_byte() {
    let t = sign(b"k", b"data");
    assert!(verify(b"k", b"data", &t));
    let mut bad = t.clone();
    bad[7] ^= 1;
    assert!(!verify(b"k", b"data", &bad));
    assert!(!verify(b"k", b"data", &t[..7]));
    assert!(!verify(b"other", b"data", &t));
}

#[test]
fn sealed_frame_layout() {
    let f = seal(b"k", 0x0102030405060708, b"ping");
    assert_eq!(&f[..8], &sign(b"k", b"ping")[..]);
    assert_eq!(&f[8..16], &[1, 2, 3, 4, 5, 6, 7, 8]);
    assert_eq!(&f[16..], b"ping");
}

#[test]
fn open_accepts_matching_tag() {
    let rest = b"\x00\x00\x00\x00\x00\x00\x00\x05ping".to_vec();
    let mut f = sign(b"k", &rest);
    f.extend_from_slice(&rest);
    assert_eq!(open(b"k", &f), Some(rest));
}

#[test]
fn open_rejects_forged_or_short() {
    let rest = b"payload".to_vec();
    let mut f = sign(b"k", &rest);
    f.extend_from_slice(&rest);
    assert!(open(b"wrong", &f).is_none());
    let mut g = vec![0u8; 8];
    g.extend_from_slice(&rest);
    assert!(open(b"k", &g).is_none());
    assert!(open(b"k", &f[..8]).is_none());
}

#[test]
fn reliable_frame_has_length_prefix() {
    assert_eq!(frame_message(b"abc"), vec![0, 0, 0, 3, b'a', b'b', b'c']);
    assert_eq!(frame_message(b""), vec![0, 0, 0, 0]);
}

#[test]
fn frame_length_respects_maximum() {
    assert_eq!(frame_body_len(&[0, 0, 1, 0], 1024), Some(256));
    assert_eq!(frame_body_len(&[0, 0, 4, 1], 1024), None);
    assert_eq!(frame_body_len(&[0, 0, 4, 0], 1024), Some(1024));
}

#[test]
fn frames_read_back_in_order() {
    let mut stream = frame_message(b"one");
    stream.extend(frame_message(b"two!"));
    let n1 = frame_body_len(&stream[0..4], 100).unwrap();
    assert_eq!(&stream[4..4 + n1], b"one");
    let off = 4 + n1;
    let n2 = frame_body_len(&stream[off..off + 4], 100).unwrap();
    assert_eq!(&stream[off + 4..off + 4 + n2], b"two!");
}

#[test]
fn handshake_reply_parsed() {
    let r = parse_handshake_reply(&[0, 0, 0, 0, 0, 0, 1, 2, 0xaa, 0xbb]).unwrap();
    assert_eq!(r.0, 258);
    assert_eq!(r.1, vec![0xaa, 0xbb]);
    assert!(parse_handshake_reply(&[1, 2, 3]).is_none());
}
