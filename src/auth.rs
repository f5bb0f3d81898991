//! Authentication of unreliable datagrams: an 8-byte tag computed from the
//! connection's signing key and the payload, and the session frame
//! `tag || connection id (big-endian) || payload`.
//!
//! The tag is a 64-bit FNV-1a digest of the key followed by the payload. It
//! keeps out traffic from peers that do not hold the key and corrupted
//! datagrams; it is not a cryptographic MAC, and nothing here prevents replay.
use vstd::prelude::*;

verus! {

/// Size of a tag in bytes.
pub const TAG_LEN: usize = 8;

pub const DIGEST_OFFSET: u64 = 0xcbf2_9ce4_8422_2325;

pub const DIGEST_PRIME: u64 = 0x0000_0100_0000_01b3;

/// One byte folded into the running digest.
pub open spec fn mix(h: u64, b: u8) -> u64 {
    (((h ^ (b as u64)) as int * DIGEST_PRIME as int) % 0x1_0000_0000_0000_0000int) as u64
}

/// The digest after the bytes `s`, starting from `h`.
pub open spec fn digest_from(h: u64, s: Seq<u8>) -> u64
    decreases s.len(),
{
    if s.len() == 0 {
        h
    } else {
        mix(digest_from(h, s.drop_last()), s.last())
    }
}

/// The tag value of `payload` under `key`: the digest of the key, continued
/// over the payload.
pub open spec fn tag_value(key: Seq<u8>, payload: Seq<u8>) -> u64 {
    digest_from(digest_from(DIGEST_OFFSET, key), payload)
}

/// The eight big-endian bytes of `v`.
pub open spec fn be8(v: u64) -> Seq<u8> {
    seq![
        (v / 0x100_0000_0000_0000 % 256) as u8,
        (v / 0x1_0000_0000_0000 % 256) as u8,
        (v / 0x100_0000_0000 % 256) as u8,
        (v / 0x1_0000_0000 % 256) as u8,
        (v / 0x100_0000 % 256) as u8,
        (v / 0x1_0000 % 256) as u8,
        (v / 0x100 % 256) as u8,
        (v % 256) as u8,
    ]
}

/// The tag bytes of `payload` under `key`.
pub open spec fn tag_of(key: Seq<u8>, payload: Seq<u8>) -> Seq<u8> {
    be8(tag_value(key, payload))
}

/// The session frame carrying `payload` for connection `id`.
pub open spec fn sealed(key: Seq<u8>, id: u64, payload: Seq<u8>) -> Seq<u8> {
    tag_of(key, payload) + be8(id) + payload
}

/// What a received session frame yields: the bytes after the tag, when there
/// are any and the tag matches them.
pub open spec fn opened(key: Seq<u8>, frame: Seq<u8>) -> Option<Seq<u8>> {
    if frame.len() > 8 && frame.subrange(0, 8) == tag_of(key, frame.subrange(8, frame.len() as int)) {
        Some(frame.subrange(8, frame.len() as int))
    } else {
        None
    }
}

fn digest_continue(h0: u64, s: &[u8]) -> (r: u64)
    ensures
        r == digest_from(h0, s@),
{
    let mut h = h0;
    let mut i: usize = 0;
    while i < s.len()
        invariant
            i <= s@.len(),
            h == digest_from(h0, s@.take(i as int)),
        decreases s@.len() - i,
    {
        proof {
            assert(s@.take(i as int + 1).drop_last() =~= s@.take(i as int));
        }
        h = (h ^ (s[i] as u64)).wrapping_mul(DIGEST_PRIME);
        i = i + 1;
    }
    assert(s@.take(i as int) =~= s@);
    h
}

/// Appends the eight big-endian bytes of `v` to `out`.
pub fn push_be8(out: &mut Vec<u8>, v: u64)
    ensures
        final(out)@ == old(out)@ + be8(v),
{
    out.push((v / 0x100_0000_0000_0000 % 256) as u8);
    out.push((v / 0x1_0000_0000_0000 % 256) as u8);
    out.push((v / 0x100_0000_0000 % 256) as u8);
    out.push((v / 0x1_0000_0000 % 256) as u8);
    out.push((v / 0x100_0000 % 256) as u8);
    out.push((v / 0x1_0000 % 256) as u8);
    out.push((v / 0x100 % 256) as u8);
    out.push((v % 256) as u8);
    assert(final(out)@ =~= old(out)@ + be8(v));
}

/// The tag of `payload` under `key`.
pub fn sign(key: &[u8], payload: &[u8]) -> (r: Vec<u8>)
    ensures
        r@ == tag_of(key@, payload@),
        r@.len() == TAG_LEN,
{
    let h = digest_continue(digest_continue(DIGEST_OFFSET, key), payload);
    let mut out: Vec<u8> = Vec::new();
    push_be8(&mut out, h);
    assert(out@ =~= be8(h));
    out
}

/// Whether `tag` is the tag of `payload` under `key`. Every byte is compared,
/// whatever the earlier ones held.
pub fn verify(key: &[u8], payload: &[u8], tag: &[u8]) -> (r: bool)
    ensures
        r == (tag@ == tag_of(key@, payload@)),
{
    let expected = sign(key, payload);
    if tag.len() != TAG_LEN {
        return false;
    }
    let mut diff: u8 = 0;
    let mut i: usize = 0;
    while i < TAG_LEN
        invariant
            i <= TAG_LEN,
            tag@.len() == TAG_LEN,
            expected@.len() == TAG_LEN,
            (diff == 0) == (forall|j: int| 0 <= j < i ==> tag@[j] == expected@[j]),
        decreases TAG_LEN - i,
    {
        let x = tag[i];
        let y = expected[i];
        let d = diff;
        assert((d | (x ^ y)) == 0 <==> (d == 0 && x == y)) by (bit_vector);
        diff = d | (x ^ y);
        i = i + 1;
    }
    let r = diff == 0;
    assert(r ==> tag@ =~= expected@);
    r
}

/// The session frame for `payload` on connection `id`.
pub fn seal(key: &[u8], id: u64, payload: &[u8]) -> (r: Vec<u8>)
    ensures
        r@ == sealed(key@, id, payload@),
{
    let mut out = sign(key, payload);
    push_be8(&mut out, id);
    let mut i: usize = 0;
    let ghost start = out@;
    while i < payload.len()
        invariant
            i <= payload@.len(),
            out@ == start + payload@.take(i as int),
        decreases payload@.len() - i,
    {
        out.push(payload[i]);
        i = i + 1;
        assert(out@ =~= start + payload@.take(i as int));
    }
    assert(payload@.take(i as int) =~= payload@);
    out
}

/// Checks a received session frame: the bytes after the tag when the frame is
/// longer than a tag and the tag matches them; `None` otherwise.
pub fn open(key: &[u8], frame: &[u8]) -> (r: Option<Vec<u8>>)
    ensures
        r is Some <==> opened(key@, frame@) is Some,
        r matches Some(v) ==> opened(key@, frame@) == Some(v@),
{
    if frame.len() <= TAG_LEN {
        return None;
    }
    let tag = slice_range(frame, 0, TAG_LEN);
    let rest = slice_range(frame, TAG_LEN, frame.len());
    if verify(key, rest.as_slice(), tag.as_slice()) {
        Some(rest)
    } else {
        None
    }
}

/// The bytes `s[lo..hi]` in a new vector.
pub fn slice_range(s: &[u8], lo: usize, hi: usize) -> (r: Vec<u8>)
    requires
        lo <= hi <= s@.len(),
    ensures
        r@ == s@.subrange(lo as int, hi as int),
{
    let mut out: Vec<u8> = Vec::new();
    let mut i: usize = lo;
    while i < hi
        invariant
            lo <= i <= hi,
            hi <= s@.len(),
            out@ == s@.subrange(lo as int, i as int),
        decreases hi - i,
    {
        out.push(s[i]);
        i = i + 1;
        assert(out@ =~= s@.subrange(lo as int, i as int));
    }
    out
}

/// `body` preceded by its tag under `key`.
pub fn tagged(key: &[u8], body: &[u8]) -> (r: Vec<u8>)
    ensures
        r@ == tag_of(key@, body@) + body@,
{
    let mut out = sign(key, body);
    let ghost start = out@;
    let mut i: usize = 0;
    while i < body.len()
        invariant
            i <= body@.len(),
            out@ == start + body@.take(i as int),
        decreases body@.len() - i,
    {
        out.push(body[i]);
        i = i + 1;
        assert(out@ =~= start + body@.take(i as int));
    }
    assert(body@.take(i as int) =~= body@);
    out
}

/// Bytes tagged under a key open under that key and give the bytes back;
/// under any key whose tag differs they do not open.
pub proof fn lemma_open_tagged(key: Seq<u8>, other: Seq<u8>, body: Seq<u8>)
    requires
        body.len() > 0,
    ensures
        opened(key, tag_of(key, body) + body) == Some(body),
        tag_of(other, body) != tag_of(key, body) ==> opened(other, tag_of(key, body) + body) is None,
{
    let f = tag_of(key, body) + body;
    assert(f.subrange(0, 8) =~= tag_of(key, body));
    assert(f.subrange(8, f.len() as int) =~= body);
}

} // verus!
