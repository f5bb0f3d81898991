//! The per-peer connection record of the server-side table and its transitions
//! on inbound envelopes, outbound sends and the liveness check.
use vstd::prelude::*;
use crate::rtt::{
    Alpha, RttTimers, TimerEntry, elapsed, fold_sample, has_key, key_pos, next_estimate,
    registered, smoothed, without_key,
};

verus! {

/// The contents of a connection record.
pub struct ConnModel {
    pub seq_local: u16,
    pub seq_remote: u16,
    pub timers: Seq<TimerEntry>,
    pub cap: nat,
    /// The key that inbound datagrams are checked against.
    pub key: Seq<u8>,
    pub rtt: Option<u64>,
    pub last: u64,
    /// Every RTT sample taken so far, oldest first.
    pub samples: Seq<u64>,
}

/// A record made at time `now` with signing key `key`: no traffic counted
/// yet, no estimate.
pub open spec fn fresh_model(now: u64, cap: nat, key: Seq<u8>) -> ConnModel {
    ConnModel {
        seq_local: 0,
        seq_remote: 0,
        timers: Seq::empty(),
        cap,
        key,
        rtt: None,
        last: now,
        samples: Seq::empty(),
    }
}

/// The RTT sample that an inbound `ack` yields, if its entry is in flight.
pub open spec fn ack_sample(c: ConnModel, ack: u16, now: u64) -> Option<u64> {
    if has_key(c.timers, ack) {
        Some(elapsed(now, c.timers[key_pos(c.timers, ack)].1))
    } else {
        None
    }
}

/// The record after an inbound envelope `(seq, ack)` at `now`: the peer is
/// live at `now`, `seq` is echoed from now on, and a matching in-flight entry
/// is consumed as one RTT sample.
pub open spec fn inbound_model(c: ConnModel, seq: u16, ack: u16, now: u64, a: Alpha) -> ConnModel {
    match ack_sample(c, ack, now) {
        Some(d) => ConnModel {
            seq_remote: seq,
            timers: without_key(c.timers, ack),
            rtt: next_estimate(c.rtt, d, a),
            last: now,
            samples: c.samples.push(d),
            ..c
        },
        None => ConnModel { seq_remote: seq, last: now, ..c },
    }
}

/// The next local sequence number, wrapping at 2^16.
pub open spec fn next_seq(s: u16) -> u16 {
    ((s + 1) % 65536) as u16
}

/// The record after a send at `now`: the local sequence advances and is
/// registered as in flight.
pub open spec fn outbound_model(c: ConnModel, now: u64) -> ConnModel {
    let s = next_seq(c.seq_local);
    ConnModel { seq_local: s, timers: registered(c.timers, s, now, c.cap), ..c }
}

/// The peer has been silent for at least `timeout`.
pub open spec fn expired(c: ConnModel, now: u64, timeout: u64) -> bool {
    elapsed(now, c.last) >= timeout
}

/// Per-peer state: signing key, sequence counters, in-flight timers, RTT
/// estimate and the time of the last inbound traffic. Times are in
/// microseconds.
pub struct Connection {
    pub signing_key: Vec<u8>,
    pub rtt_seq_local: u16,
    pub rtt_seq_remote: u16,
    pub rtt_timers: RttTimers,
    pub rtt: Option<u64>,
    pub last_interaction: u64,
    pub samples: Ghost<Seq<u64>>,
}

impl Connection {
    pub open spec fn view(&self) -> ConnModel {
        ConnModel {
            seq_local: self.rtt_seq_local,
            seq_remote: self.rtt_seq_remote,
            timers: self.rtt_timers@,
            cap: self.rtt_timers.cap(),
            key: self.signing_key@,
            rtt: self.rtt,
            last: self.last_interaction,
            samples: self.samples@,
        }
    }

    /// The timer table respects its capacity and the estimate is the weighted
    /// average of all samples taken.
    pub open spec fn wf(&self, a: Alpha) -> bool {
        &&& self.rtt_timers.wf()
        &&& self.rtt == smoothed(self.samples@, a)
    }

    pub fn new(now: u64, rtt_capacity: usize, signing_key: Vec<u8>) -> (r: Self)
        ensures
            r@ == fresh_model(now, rtt_capacity as nat, signing_key@),
            forall|a: Alpha| r.wf(a),
    {
        let timers = RttTimers::new(rtt_capacity);
        let r = Connection {
            signing_key,
            rtt_seq_local: 0,
            rtt_seq_remote: 0,
            rtt_timers: timers,
            rtt: None,
            last_interaction: now,
            samples: Ghost(Seq::empty()),
        };
        assert(r@.timers =~= Seq::<TimerEntry>::empty());
        r
    }

    /// Applies an inbound envelope `(seq, ack)` received at `now`.
    pub fn on_envelope(&mut self, seq: u16, ack: u16, now: u64, a: Alpha)
        requires
            a.valid(),
            old(self).wf(a),
        ensures
            final(self).wf(a),
            final(self)@ == inbound_model(old(self)@, seq, ack, now, a),
    {
        let ghost c0 = self@;
        self.last_interaction = now;
        match self.rtt_timers.sample(ack, now) {
            Some(d) => {
                proof {
                    crate::rtt::lemma_estimate_recursion(self.samples@, d, a);
                }
                self.rtt = fold_sample(self.rtt, d, a);
                self.samples = Ghost(self.samples@.push(d));
            },
            None => {},
        }
        self.rtt_seq_remote = seq;
        assert(self@ == inbound_model(c0, seq, ack, now, a));
    }

    /// Registers a send at `now`; returns the sequence number and the ack to
    /// put in the envelope.
    pub fn on_send(&mut self, now: u64) -> (r: (u16, u16))
        requires
            old(self).rtt_timers.wf(),
        ensures
            final(self).rtt_timers.wf(),
            final(self)@ == outbound_model(old(self)@, now),
            r == (final(self).rtt_seq_local, old(self).rtt_seq_remote),
    {
        let s = self.rtt_seq_local.wrapping_add(1);
        self.rtt_seq_local = s;
        self.rtt_timers.register(s, now);
        (s, self.rtt_seq_remote)
    }

    /// Whether the peer has been silent for at least `timeout` at `now`.
    pub fn is_expired(&self, now: u64, timeout: u64) -> (r: bool)
        ensures
            r == expired(self@, now, timeout),
    {
        let silent = if now >= self.last_interaction { now - self.last_interaction } else { 0 };
        silent >= timeout
    }
}

} // verus!
