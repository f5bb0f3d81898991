//! The server-side connection table: one record per peer address, and the
//! decisions of its three workers (inbound datagrams, outbound sends, the
//! timeout sweep) as transitions that return the events to emit and the bytes
//! to send.
use vstd::prelude::*;
use crate::config::Config;
use crate::connection::{
    ConnModel, Connection, expired, fresh_model, inbound_model, outbound_model,
};
use crate::auth::{open, opened, slice_range, tag_of, tagged};
use crate::datagram::{Datagram, envelope_bytes, parse_envelope};
use crate::rtt::{keys_unique, smoothed};
use crate::event::{Event, EventView, PeerAddress, events_view};

verus! {

/// An outbound command: a payload for the peer at `address`.
#[derive(Clone, Debug)]
pub struct Packet {
    pub address: PeerAddress,
    pub payload: Vec<u8>,
}

impl Packet {
    pub fn new(address: PeerAddress, payload: Vec<u8>) -> (r: Self)
        ensures
            r.address == address,
            r.payload@ == payload@,
    {
        Packet { address, payload }
    }
}

pub type EntryView = (PeerAddress, ConnModel);

pub open spec fn has_addr(s: Seq<EntryView>, a: PeerAddress) -> bool {
    exists|i: int| 0 <= i < s.len() && #[trigger] s[i].0 == a
}

pub open spec fn addr_pos(s: Seq<EntryView>, a: PeerAddress) -> int {
    choose|i: int| 0 <= i < s.len() && #[trigger] s[i].0 == a
}

pub open spec fn addrs_unique(s: Seq<EntryView>) -> bool {
    forall|i: int, j: int|
        0 <= i < s.len() && 0 <= j < s.len() && #[trigger] s[i].0 == #[trigger] s[j].0 ==> i == j
}

/// The key that traffic with `a` is checked against: its record's key, or
/// the table's key `k` for a peer not in the table yet.
pub open spec fn record_key(s: Seq<EntryView>, a: PeerAddress, k: Seq<u8>) -> Seq<u8> {
    if has_addr(s, a) { s[addr_pos(s, a)].1.key } else { k }
}

/// The envelope that `bytes` carries, when its tag checks out under `key`
/// and what follows the tag is an envelope.
pub open spec fn authentic_envelope(key: Seq<u8>, bytes: Seq<u8>) -> Option<(u16, u16, Seq<u8>)> {
    match opened(key, bytes) {
        Some(body) => parse_envelope(body),
        None => None,
    }
}

/// The record for `a` after an inbound envelope, made fresh when absent.
pub open spec fn inbound_record(s: Seq<EntryView>, a: PeerAddress, seq: u16, ack: u16, now: u64, cfg: Config, k: Seq<u8>) -> ConnModel {
    let base = if has_addr(s, a) { s[addr_pos(s, a)].1 } else { fresh_model(now, cfg.rtt_queue_capacity as nat, k) };
    inbound_model(base, seq, ack, now, cfg.rtt_alpha)
}

/// `s` with the record of `a` set to `c`: in place when present, last otherwise.
pub open spec fn put(s: Seq<EntryView>, a: PeerAddress, c: ConnModel) -> Seq<EntryView> {
    if has_addr(s, a) { s.update(addr_pos(s, a), (a, c)) } else { s.push((a, c)) }
}

/// A `Connected` event for a peer that the table does not hold yet.
pub open spec fn connect_events(s: Seq<EntryView>, a: PeerAddress) -> Seq<EventView> {
    if has_addr(s, a) { Seq::empty() } else { seq![EventView::Connected(a)] }
}

/// The record for `a` after a send at `now`, made fresh when absent.
pub open spec fn outbound_record(s: Seq<EntryView>, a: PeerAddress, now: u64, cfg: Config, k: Seq<u8>) -> ConnModel {
    let base = if has_addr(s, a) { s[addr_pos(s, a)].1 } else { fresh_model(now, cfg.rtt_queue_capacity as nat, k) };
    outbound_model(base, now)
}

/// The records that the sweep at `now` keeps, in order.
pub open spec fn kept(s: Seq<EntryView>, now: u64, timeout: u64) -> Seq<EntryView>
    decreases s.len(),
{
    if s.len() == 0 {
        s
    } else {
        let r = kept(s.drop_last(), now, timeout);
        if expired(s.last().1, now, timeout) { r } else { r.push(s.last()) }
    }
}

/// The addresses that the sweep at `now` evicts, in table order.
pub open spec fn evicted(s: Seq<EntryView>, now: u64, timeout: u64) -> Seq<PeerAddress>
    decreases s.len(),
{
    if s.len() == 0 {
        Seq::empty()
    } else {
        let r = evicted(s.drop_last(), now, timeout);
        if expired(s.last().1, now, timeout) { r.push(s.last().0) } else { r }
    }
}

/// One `Disconnected` event per address.
pub open spec fn disconnect_events(a: Seq<PeerAddress>) -> Seq<EventView> {
    a.map_values(|x: PeerAddress| EventView::Disconnected(x))
}

/// What a well-formed table guarantees of its contents: one record per
/// address, each with the configured timer capacity, its timers within it and
/// one per sequence number, and its estimate the weighted average of its
/// samples.
pub open spec fn table_inv(s: Seq<EntryView>, cfg: Config) -> bool {
    &&& addrs_unique(s)
    &&& forall|i: int| 0 <= i < s.len() ==> {
        &&& (#[trigger] s[i]).1.cap == cfg.rtt_queue_capacity
        &&& s[i].1.timers.len() <= s[i].1.cap
        &&& keys_unique(s[i].1.timers)
        &&& s[i].1.rtt == smoothed(s[i].1.samples, cfg.rtt_alpha)
    }
}

/// The table shared by the workers of one socket. `key` is the signing key
/// given to records made on first contact.
pub struct ConnectionTable {
    entries: Vec<(PeerAddress, Connection)>,
    config: Config,
    key: Vec<u8>,
}

impl ConnectionTable {
    pub closed spec fn view(&self) -> Seq<EntryView> {
        self.entries@.map_values(|e: (PeerAddress, Connection)| (e.0, e.1@))
    }

    pub closed spec fn config(&self) -> Config {
        self.config
    }

    pub closed spec fn key(&self) -> Seq<u8> {
        self.key@
    }

    pub closed spec fn wf(&self) -> bool {
        &&& self.config.valid()
        &&& addrs_unique(self@)
        &&& forall|i: int| 0 <= i < self.entries@.len() ==> {
            &&& (#[trigger] self.entries@[i]).1.wf(self.config.rtt_alpha)
            &&& self.entries@[i].1.rtt_timers.cap() == self.config.rtt_queue_capacity
        }
    }

    /// A well-formed table satisfies `table_inv` under its configuration.
    pub proof fn lemma_wf_facts(&self)
        requires
            self.wf(),
        ensures
            table_inv(self@, self.config()),
            self.config().valid(),
    {
        assert forall|i: int| 0 <= i < self@.len() implies {
            &&& (#[trigger] self@[i]).1.cap == self.config.rtt_queue_capacity
            &&& self@[i].1.timers.len() <= self@[i].1.cap
            &&& keys_unique(self@[i].1.timers)
            &&& self@[i].1.rtt == smoothed(self@[i].1.samples, self.config.rtt_alpha)
        } by {
            assert(self.entries@[i].1.wf(self.config.rtt_alpha));
        }
    }

    pub fn new(config: Config, key: Vec<u8>) -> (r: Self)
        requires
            config.valid(),
        ensures
            r.wf(),
            r@ == Seq::<EntryView>::empty(),
            r.config() == config,
            r.key() == key@,
    {
        let r = ConnectionTable { entries: Vec::new(), config, key };
        assert(r@ =~= Seq::<EntryView>::empty());
        r
    }

    pub fn len(&self) -> (r: usize)
        ensures
            r == self@.len(),
    {
        self.entries.len()
    }

    pub fn get_config(&self) -> (r: Config)
        ensures
            r == self.config(),
    {
        self.config
    }

    fn find(&self, a: PeerAddress) -> (r: Option<usize>)
        requires
            self.wf(),
        ensures
            r is None <==> !has_addr(self@, a),
            r matches Some(i) ==> i == addr_pos(self@, a) && i < self@.len(),
    {
        let mut i: usize = 0;
        while i < self.entries.len()
            invariant
                self.wf(),
                i <= self.entries@.len(),
                forall|j: int| 0 <= j < i ==> #[trigger] self@[j].0 != a,
            decreases self.entries@.len() - i,
        {
            if self.entries[i].0 == a {
                assert(self@[i as int].0 == a);
                assert(has_addr(self@, a));
                let ghost p = addr_pos(self@, a);
                assert(0 <= p < self@.len() && self@[p].0 == a);
                assert(p == i as int);
                return Some(i);
            }
            i = i + 1;
        }
        None
    }

    /// Whether the table holds a record for `a`.
    pub fn contains(&self, a: PeerAddress) -> (r: bool)
        requires
            self.wf(),
        ensures
            r == has_addr(self@, a),
    {
        self.find(a).is_some()
    }

    /// The RTT estimate of the peer at `a`, when the table holds it and has one.
    pub fn rtt_of(&self, a: PeerAddress) -> (r: Option<u64>)
        requires
            self.wf(),
        ensures
            r == (if has_addr(self@, a) { self@[addr_pos(self@, a)].1.rtt } else { None }),
    {
        match self.find(a) {
            Some(i) => self.entries[i].1.rtt,
            None => None,
        }
    }

    /// Takes the record for `a` out of the table, or makes a fresh one; says
    /// which.
    fn take_or_create(&mut self, a: PeerAddress, now: u64) -> (r: (Connection, Option<usize>))
        requires
            old(self).wf(),
        ensures
            final(self).config == old(self).config,
            r.1 is None <==> !has_addr(old(self)@, a),
            r.1 matches Some(i) ==> i == addr_pos(old(self)@, a) && i < old(self)@.len()
                && final(self).entries@ == old(self).entries@.remove(i as int),
            r.1 is None ==> final(self).entries@ == old(self).entries@,
            final(self).key == old(self).key,
            r.0@ == (if has_addr(old(self)@, a) { old(self)@[addr_pos(old(self)@, a)].1 } else { fresh_model(now, old(self).config.rtt_queue_capacity as nat, old(self).key@) }),
            r.0.wf(old(self).config.rtt_alpha),
            r.0.rtt_timers.cap() == old(self).config.rtt_queue_capacity,
    {
        match self.find(a) {
            Some(i) => {
                let c = self.entries.remove(i);
                assert(old(self).entries@[i as int].1.wf(self.config.rtt_alpha));
                (c.1, Some(i))
            },
            None => {
                let key = slice_range(self.key.as_slice(), 0, self.key.len());
                assert(key@ =~= self.key@);
                (Connection::new(now, self.config.rtt_queue_capacity, key), None)
            },
        }
    }

    /// Puts a record back where `take_or_create` took it, or last when it was
    /// made fresh.
    fn restore(&mut self, a: PeerAddress, c: Connection, slot: Option<usize>, Ghost(s0): Ghost<Seq<(PeerAddress, Connection)>>)
        requires
            slot matches Some(i) ==> i < s0.len() && old(self).entries@ == s0.remove(i as int) && s0[i as int].0 == a,
            slot is None ==> old(self).entries@ == s0,
        ensures
            final(self).config == old(self).config,
            final(self).key == old(self).key,
            slot matches Some(i) ==> final(self).entries@ == s0.update(i as int, (a, c)),
            slot is None ==> final(self).entries@ == s0.push((a, c)),
    {
        match slot {
            Some(i) => {
                self.entries.insert(i, (a, c));
                assert(self.entries@ =~= s0.update(i as int, (a, c)));
            },
            None => {
                self.entries.push((a, c));
            },
        }
    }

    proof fn lemma_put_wf(&self, s0: Seq<(PeerAddress, Connection)>, old_view: Seq<EntryView>, a: PeerAddress, c: Connection, slot: Option<usize>)
        requires
            self.config.valid(),
            old_view == s0.map_values(|e: (PeerAddress, Connection)| (e.0, e.1@)),
            addrs_unique(old_view),
            forall|k: int| 0 <= k < s0.len() ==> {
                &&& (#[trigger] s0[k]).1.wf(self.config.rtt_alpha)
                &&& s0[k].1.rtt_timers.cap() == self.config.rtt_queue_capacity
            },
            c.wf(self.config.rtt_alpha),
            c.rtt_timers.cap() == self.config.rtt_queue_capacity,
            slot is None <==> !has_addr(old_view, a),
            slot matches Some(i) ==> i == addr_pos(old_view, a) && i < old_view.len()
                && self.entries@ == s0.update(i as int, (a, c)),
            slot is None ==> self.entries@ == s0.push((a, c)),
        ensures
            self.wf(),
            self@ == put(old_view, a, c@),
    {
        match slot {
            Some(i) => {
                assert(has_addr(old_view, a));
                assert(old_view[addr_pos(old_view, a)].0 == a);
                assert(self@ =~= old_view.update(i as int, (a, c@)));
            },
            None => {
                assert(self@ =~= old_view.push((a, c@)));
                assert forall|x: int, y: int|
                    0 <= x < self@.len() && 0 <= y < self@.len() && #[trigger] self@[x].0 == #[trigger] self@[y].0 implies x == y by {
                    if x < old_view.len() && y == old_view.len() {
                        assert(old_view[x].0 == a);
                    } else if y < old_view.len() && x == old_view.len() {
                        assert(old_view[y].0 == a);
                    }
                }
            },
        }
    }

    /// Handles one datagram from `address` received at `now`: a tag followed
    /// by an envelope. When the tag does not check out under the key of the
    /// peer's record (the table's key for a peer not in the table yet), or no
    /// envelope follows it, the table is unchanged and no event is returned.
    /// Otherwise the peer's record is created if absent (with a `Connected`
    /// event), updated by the envelope, and the payload is reported with the
    /// RTT estimate.
    pub fn handle_datagram(&mut self, address: PeerAddress, bytes: &[u8], now: u64) -> (r: Vec<Event>)
        requires
            old(self).wf(),
        ensures
            final(self).wf(),
            final(self).config() == old(self).config(),
            final(self).key() == old(self).key(),
            authentic_envelope(record_key(old(self)@, address, old(self).key()), bytes@) is None
                ==> final(self)@ == old(self)@ && r@.len() == 0,
            authentic_envelope(record_key(old(self)@, address, old(self).key()), bytes@) matches Some(env) ==> {
                let c = inbound_record(old(self)@, address, env.0, env.1, now, old(self).config(), old(self).key());
                &&& final(self)@ == put(old(self)@, address, c)
                &&& events_view(r@) == connect_events(old(self)@, address)
                    + seq![EventView::Received(address, env.2, c.rtt)]
            },
    {
        let body = match self.find(address) {
            Some(i) => {
                assert(self@[i as int].1.key == self.entries@[i as int].1.signing_key@);
                open(self.entries[i].1.signing_key.as_slice(), bytes)
            },
            None => open(self.key.as_slice(), bytes),
        };
        let body = match body {
            Some(b) => b,
            None => {
                return Vec::new();
            },
        };
        match Datagram::decode(body.as_slice()) {
            None => Vec::new(),
            Some(d) => {
                let ghost s0 = self.entries@;
                let ghost v0 = self@;
                let mut events: Vec<Event> = Vec::new();
                let (mut c, slot) = self.take_or_create(address, now);
                if slot.is_none() {
                    events.push(Event::Connected(address));
                }
                let alpha = self.config.rtt_alpha;
                c.on_envelope(d.rtt_seq, d.rtt_ack, now, alpha);
                let rtt = c.rtt;
                self.restore(address, c, slot, Ghost(s0));
                proof {
                    self.lemma_put_wf(s0, v0, address, c, slot);
                }
                events.push(Event::Received { address, payload: d.payload, rtt });
                assert(events_view(events@) =~= connect_events(v0, address)
                    + seq![EventView::Received(address, d.payload@, rtt)]);
                events
            },
        }
    }

    /// Handles one outbound command at `now`: the peer's record is created if
    /// absent (with a `Connected` event), a new local sequence number is
    /// registered as in flight, and the datagram to send is returned with the
    /// events: the envelope preceded by its tag under the record's key.
    pub fn handle_packet(&mut self, packet: Packet, now: u64) -> (r: (Vec<Event>, Vec<u8>))
        requires
            old(self).wf(),
        ensures
            final(self).wf(),
            final(self).config() == old(self).config(),
            final(self).key() == old(self).key(),
            ({
                let a = packet.address;
                let c = outbound_record(old(self)@, a, now, old(self).config(), old(self).key());
                let ack = if has_addr(old(self)@, a) { old(self)@[addr_pos(old(self)@, a)].1.seq_remote } else { 0 };
                let env = envelope_bytes(c.seq_local, ack, packet.payload@);
                &&& final(self)@ == put(old(self)@, a, c)
                &&& events_view(r.0@) == connect_events(old(self)@, a)
                &&& r.1@ == tag_of(c.key, env) + env
            }),
    {
        let address = packet.address;
        let ghost s0 = self.entries@;
        let ghost v0 = self@;
        let mut events: Vec<Event> = Vec::new();
        let (mut c, slot) = self.take_or_create(address, now);
        if slot.is_none() {
            events.push(Event::Connected(address));
        }
        let (seq, ack) = c.on_send(now);
        let envelope = Datagram::new(packet.payload, seq, ack).encode();
        let bytes = tagged(c.signing_key.as_slice(), envelope.as_slice());
        self.restore(address, c, slot, Ghost(s0));
        proof {
            self.lemma_put_wf(s0, v0, address, c, slot);
        }
        assert(events_view(events@) =~= connect_events(v0, address));
        (events, bytes)
    }

    /// Evicts every peer silent for at least the configured timeout at `now`,
    /// keeping the others in order, and reports one `Disconnected` event per
    /// evicted peer, in table order.
    pub fn sweep(&mut self, now: u64) -> (r: Vec<Event>)
        requires
            old(self).wf(),
        ensures
            final(self).wf(),
            final(self).config() == old(self).config(),
            final(self).key() == old(self).key(),
            final(self)@ == kept(old(self)@, now, old(self).config().timeout),
            events_view(r@) == disconnect_events(evicted(old(self)@, now, old(self).config().timeout)),
    {
        let timeout = self.config.timeout;
        let ghost v0 = self@;
        let ghost s0 = self.entries@;
        let mut rest: Vec<(PeerAddress, Connection)> = Vec::new();
        core::mem::swap(&mut self.entries, &mut rest);
        let mut events: Vec<Event> = Vec::new();
        let n = rest.len();
        let mut i: usize = 0;
        assert(v0.take(0) =~= Seq::<EntryView>::empty());
        assert(self@ =~= Seq::<EntryView>::empty());
        assert(events_view(events@) =~= Seq::<EventView>::empty());
        while i < n
            invariant
                self.config == old(self).config,
                self.key == old(self).key,
                self.config.valid(),
                n == s0.len(),
                v0 == s0.map_values(|e: (PeerAddress, Connection)| (e.0, e.1@)),
                addrs_unique(v0),
                forall|k: int| 0 <= k < s0.len() ==> {
                    &&& (#[trigger] s0[k]).1.wf(self.config.rtt_alpha)
                    &&& s0[k].1.rtt_timers.cap() == self.config.rtt_queue_capacity
                },
                i <= n,
                rest@ == s0.subrange(i as int, n as int),
                self@ == kept(v0.take(i as int), now, timeout),
                events_view(events@) == disconnect_events(evicted(v0.take(i as int), now, timeout)),
                forall|k: int| 0 <= k < self.entries@.len() ==> {
                    &&& (#[trigger] self.entries@[k]).1.wf(self.config.rtt_alpha)
                    &&& self.entries@[k].1.rtt_timers.cap() == self.config.rtt_queue_capacity
                },
                addrs_unique(self@),
                forall|j: int| 0 <= j < self@.len() ==> exists|k: int| 0 <= k < i && #[trigger] self@[j].0 == v0[k].0,
            decreases n - i,
        {
            let e = rest.remove(0);
            assert(e == s0[i as int]);
            let ghost pre = self@;
            assert(v0.take(i as int + 1).drop_last() =~= v0.take(i as int));
            assert(v0.take(i as int + 1).last() == v0[i as int]);
            assert(v0[i as int] == (e.0, e.1@));
            if e.1.is_expired(now, timeout) {
                let ghost ev0 = events@;
                let ghost x0 = evicted(v0.take(i as int), now, timeout);
                events.push(Event::Disconnected(e.0));
                assert(events_view(events@) =~= events_view(ev0).push(EventView::Disconnected(e.0)));
                assert(disconnect_events(x0.push(e.0)) =~= disconnect_events(x0).push(EventView::Disconnected(e.0)));
                assert(evicted(v0.take(i as int + 1), now, timeout) == evicted(v0.take(i as int), now, timeout).push(e.0));
                assert(events_view(events@) =~= disconnect_events(evicted(v0.take(i as int + 1), now, timeout)));
            } else {
                let ghost a = e.0;
                proof {
                    assert forall|j: int| 0 <= j < pre.len() implies pre[j].0 != a by {
                        let k = choose|k: int| 0 <= k < i && #[trigger] pre[j].0 == v0[k].0;
                        if pre[j].0 == a {
                            assert(v0[k].0 == v0[i as int].0);
                            assert(false);
                        }
                    }
                }
                self.entries.push(e);
                assert(kept(v0.take(i as int + 1), now, timeout) == pre.push(v0[i as int]));
                assert(self@ =~= pre.push(v0[i as int]));
                assert forall|x: int, y: int|
                    0 <= x < self@.len() && 0 <= y < self@.len() && #[trigger] self@[x].0 == #[trigger] self@[y].0 implies x == y by {
                    if x < pre.len() && y == pre.len() {
                        assert(pre[x].0 == a);
                    } else if y < pre.len() && x == pre.len() {
                        assert(pre[y].0 == a);
                    }
                }
                assert forall|j: int| 0 <= j < self@.len() implies exists|k: int| 0 <= k < i + 1 && #[trigger] self@[j].0 == v0[k].0 by {
                    if j < pre.len() {
                        let k = choose|k: int| 0 <= k < i && #[trigger] pre[j].0 == v0[k].0;
                        assert(self@[j].0 == v0[k].0);
                    } else {
                        assert(self@[j].0 == v0[i as int].0);
                    }
                }
            }
            i = i + 1;
        }
        assert(v0.take(n as int) =~= v0);
        events
    }
}

/// `e` stands exactly once in `v`.
pub open spec fn occurs_once(v: Seq<EventView>, e: EventView) -> bool {
    exists|j: int| 0 <= j < v.len() && v[j] == e && forall|k: int| 0 <= k < v.len() && #[trigger] v[k] == e ==> k == j
}

proof fn lemma_kept_from(s: Seq<EntryView>, now: u64, t: u64)
    ensures
        forall|j: int| 0 <= j < kept(s, now, t).len() ==> exists|k: int|
            0 <= k < s.len() && #[trigger] kept(s, now, t)[j] == s[k] && !expired(s[k].1, now, t),
    decreases s.len(),
{
    if s.len() > 0 {
        let p = s.drop_last();
        lemma_kept_from(p, now, t);
        let r = kept(p, now, t);
        assert forall|j: int| 0 <= j < kept(s, now, t).len() implies exists|k: int|
            0 <= k < s.len() && #[trigger] kept(s, now, t)[j] == s[k] && !expired(s[k].1, now, t) by {
            if j < r.len() {
                let k = choose|k: int| 0 <= k < p.len() && #[trigger] r[j] == p[k] && !expired(p[k].1, now, t);
                assert(kept(s, now, t)[j] == s[k]);
            } else {
                assert(kept(s, now, t)[j] == s[s.len() - 1]);
            }
        }
    }
}

proof fn lemma_evicted_from(s: Seq<EntryView>, now: u64, t: u64)
    ensures
        forall|j: int| 0 <= j < evicted(s, now, t).len() ==> exists|k: int|
            0 <= k < s.len() && #[trigger] evicted(s, now, t)[j] == s[k].0,
    decreases s.len(),
{
    if s.len() > 0 {
        let p = s.drop_last();
        lemma_evicted_from(p, now, t);
        let r = evicted(p, now, t);
        assert forall|j: int| 0 <= j < evicted(s, now, t).len() implies exists|k: int|
            0 <= k < s.len() && #[trigger] evicted(s, now, t)[j] == s[k].0 by {
            if j < r.len() {
                let k = choose|k: int| 0 <= k < p.len() && #[trigger] r[j] == p[k].0;
                assert(evicted(s, now, t)[j] == s[k].0);
            } else {
                assert(evicted(s, now, t)[j] == s[s.len() - 1].0);
            }
        }
    }
}

proof fn lemma_evicted_once(s: Seq<EntryView>, now: u64, t: u64, a: PeerAddress)
    requires
        addrs_unique(s),
        has_addr(s, a),
        expired(s[addr_pos(s, a)].1, now, t),
    ensures
        exists|j: int| 0 <= j < evicted(s, now, t).len() && evicted(s, now, t)[j] == a
            && forall|k: int| 0 <= k < evicted(s, now, t).len() && #[trigger] evicted(s, now, t)[k] == a ==> k == j,
    decreases s.len(),
{
    let p = s.drop_last();
    let ev = evicted(s, now, t);
    let r = evicted(p, now, t);
    let pos = addr_pos(s, a);
    if s.last().0 == a {
        assert(s[pos].0 == a && s[s.len() - 1].0 == a);
        assert(pos == s.len() - 1);
        assert(expired(s.last().1, now, t));
        lemma_evicted_from(p, now, t);
        assert forall|k: int| 0 <= k < r.len() implies r[k] != a by {
            let m = choose|m: int| 0 <= m < p.len() && #[trigger] r[k] == p[m].0;
            assert(s[m].0 == s[s.len() - 1].0 ==> m == s.len() - 1);
        }
        assert(ev == r.push(a));
        let j = ev.len() - 1;
        assert forall|k: int| 0 <= k < ev.len() && #[trigger] ev[k] == a implies k == j by {
            if k < r.len() {
                assert(ev[k] == r[k]);
            }
        }
        assert(0 <= j < ev.len() && ev[j] == a);
    } else {
        assert(pos < s.len() - 1);
        assert(p[pos].0 == a);
        assert(has_addr(p, a));
        let pp = addr_pos(p, a);
        assert(p[pp].0 == a && s[pp].0 == a);
        assert(pp == pos);
        assert forall|x: int, y: int| 0 <= x < p.len() && 0 <= y < p.len() && #[trigger] p[x].0 == #[trigger] p[y].0 implies x == y by {
            assert(s[x].0 == s[y].0);
        }
        lemma_evicted_once(p, now, t, a);
        let j = choose|j: int| 0 <= j < r.len() && r[j] == a
            && forall|k: int| 0 <= k < r.len() && #[trigger] r[k] == a ==> k == j;
        assert(ev == r || ev == r.push(s.last().0));
        assert(ev[j] == a);
        assert forall|k: int| 0 <= k < ev.len() && #[trigger] ev[k] == a implies k == j by {
            if k < r.len() {
                assert(ev[k] == r[k]);
            }
        }
        assert(0 <= j < ev.len() && ev[j] == a);
    }
}

/// A peer silent for at least the timeout is gone from the table after the
/// sweep, the sweep reports its `Disconnected` exactly once, and the next
/// event that either handler reports for it is `Connected`.
pub proof fn lemma_sweep_evicts_once(s: Seq<EntryView>, now: u64, t: u64, a: PeerAddress)
    requires
        addrs_unique(s),
        has_addr(s, a),
        expired(s[addr_pos(s, a)].1, now, t),
    ensures
        !has_addr(kept(s, now, t), a),
        occurs_once(disconnect_events(evicted(s, now, t)), EventView::Disconnected(a)),
        connect_events(kept(s, now, t), a) == seq![EventView::Connected(a)],
{
    let pos = addr_pos(s, a);
    let ks = kept(s, now, t);
    lemma_kept_from(s, now, t);
    if has_addr(ks, a) {
        let j = addr_pos(ks, a);
        let k = choose|k: int| 0 <= k < s.len() && #[trigger] ks[j] == s[k] && !expired(s[k].1, now, t);
        assert(s[k].0 == s[pos].0);
    }
    lemma_evicted_once(s, now, t, a);
    let ev = evicted(s, now, t);
    let de = disconnect_events(ev);
    let j = choose|j: int| 0 <= j < ev.len() && ev[j] == a
        && forall|k: int| 0 <= k < ev.len() && #[trigger] ev[k] == a ==> k == j;
    assert(de[j] == EventView::Disconnected(a));
    assert forall|k: int| 0 <= k < de.len() && #[trigger] de[k] == EventView::Disconnected(a) implies k == j by {
        assert(de[k] == EventView::Disconnected(ev[k]));
        assert(ev[k] == a);
    }
}

} // verus!
