//! Round-trip-time bookkeeping: a bounded, insertion-ordered table of in-flight
//! sequence numbers and an exponentially weighted estimate.
use vstd::prelude::*;

verus! {

/// One in-flight entry: the sequence number sent and the time it was sent at.
pub type TimerEntry = (u16, u64);

/// Whether some entry of `s` carries sequence number `k`.
pub open spec fn has_key(s: Seq<TimerEntry>, k: u16) -> bool {
    exists|i: int| 0 <= i < s.len() && #[trigger] s[i].0 == k
}

/// The position of the entry for `k` (meaningful when `has_key(s, k)`).
pub open spec fn key_pos(s: Seq<TimerEntry>, k: u16) -> int {
    choose|i: int| 0 <= i < s.len() && #[trigger] s[i].0 == k
}

/// No two entries share a sequence number.
pub open spec fn keys_unique(s: Seq<TimerEntry>) -> bool {
    forall|i: int, j: int| 0 <= i < s.len() && 0 <= j < s.len() && #[trigger] s[i].0 == #[trigger] s[j].0 ==> i == j
}

/// `s` without the entry for `k`, if there is one.
pub open spec fn without_key(s: Seq<TimerEntry>, k: u16) -> Seq<TimerEntry> {
    if has_key(s, k) { s.remove(key_pos(s, k)) } else { s }
}

/// The table after registering `(k, now)`: an earlier entry for `k` is dropped,
/// the new entry goes last, and the oldest entry leaves when the table would
/// otherwise hold more than `cap` entries.
pub open spec fn registered(s: Seq<TimerEntry>, k: u16, now: u64, cap: nat) -> Seq<TimerEntry> {
    let pushed = without_key(s, k).push((k, now));
    if pushed.len() > cap { pushed.drop_first() } else { pushed }
}

/// `a - b`, or zero when the clock reads earlier than the entry.
pub open spec fn elapsed(now: u64, t0: u64) -> u64 {
    if now >= t0 { (now - t0) as u64 } else { 0 }
}

/// The smoothing factor `num / den`, with `0 < num <= den`.
#[derive(Clone, Copy, Debug, PartialEq, Eq)]
pub struct Alpha {
    pub num: u32,
    pub den: u32,
}

impl Alpha {
    pub open spec fn valid(self) -> bool {
        0 < self.num <= self.den
    }
}

/// One step of the exponentially weighted average: `rtt * (1 - a) + sample * a`,
/// rounded down.
pub open spec fn blend(rtt: u64, sample: u64, a: Alpha) -> int {
    (rtt * (a.den - a.num) + sample * a.num) / (a.den as int)
}

/// The estimate after folding `sample` into `prev`: the first sample is taken as is.
pub open spec fn next_estimate(prev: Option<u64>, sample: u64, a: Alpha) -> Option<u64> {
    match prev {
        None => Some(sample),
        Some(r) => Some(blend(r, sample, a) as u64),
    }
}

/// The estimate after the samples `s`, taken in order, starting with none.
pub open spec fn smoothed(s: Seq<u64>, a: Alpha) -> Option<u64>
    decreases s.len(),
{
    if s.len() == 0 {
        None
    } else {
        next_estimate(smoothed(s.drop_last(), a), s.last(), a)
    }
}

proof fn lemma_blend_bounded(rtt: u64, sample: u64, a: Alpha)
    requires
        a.valid(),
    ensures
        0 <= blend(rtt, sample, a) <= if rtt >= sample { rtt as int } else { sample as int },
{
    let m: int = if rtt >= sample { rtt as int } else { sample as int };
    let d = a.den as int;
    let n = a.num as int;
    let total = rtt * (d - n) + sample * n;
    assert(0 <= total <= m * d) by (nonlinear_arith)
        requires
            0 < n <= d,
            0 <= rtt <= m,
            0 <= sample <= m,
            total == rtt * (d - n) + sample * n,
    ;
    assert(0 <= total / d <= m) by (nonlinear_arith)
        requires
            0 <= total <= m * d,
            d > 0,
    ;
}

/// Folds one RTT sample into the estimate.
pub fn fold_sample(prev: Option<u64>, sample: u64, a: Alpha) -> (r: Option<u64>)
    requires
        a.valid(),
    ensures
        r == next_estimate(prev, sample, a),
{
    match prev {
        None => Some(sample),
        Some(rtt) => {
            proof {
                lemma_blend_bounded(rtt, sample, a);
            }
            let keep = (a.den - a.num) as u128;
            let n = a.num as u128;
            assert((rtt as u128) * keep <= 0xffff_ffff_ffff_ffffu128 * 0xffff_ffffu128) by (nonlinear_arith)
                requires
                    rtt <= 0xffff_ffff_ffff_ffffu128,
                    keep <= 0xffff_ffffu128,
            ;
            assert((sample as u128) * n <= 0xffff_ffff_ffff_ffffu128 * 0xffff_ffffu128) by (nonlinear_arith)
                requires
                    sample <= 0xffff_ffff_ffff_ffffu128,
                    n <= 0xffff_ffffu128,
            ;
            let total = (rtt as u128) * keep + (sample as u128) * n;
            let v = total / (a.den as u128);
            Some(v as u64)
        },
    }
}

/// The first sample sets the estimate exactly, and each later one is folded in
/// by one step of the weighted average.
pub proof fn lemma_estimate_recursion(s: Seq<u64>, x: u64, a: Alpha)
    ensures
        smoothed(seq![x], a) == Some(x),
        smoothed(s.push(x), a) == next_estimate(smoothed(s, a), x, a),
{
    assert(seq![x].drop_last() =~= Seq::<u64>::empty());
    assert(smoothed(Seq::<u64>::empty(), a) == None::<u64>);
    assert(s.push(x).drop_last() =~= s);
}

/// With a factor of one the estimate is the latest sample.
pub proof fn lemma_alpha_one_tracks_last(s: Seq<u64>, a: Alpha)
    requires
        a.valid(),
        a.num == a.den,
        s.len() > 0,
    ensures
        smoothed(s, a) == Some(s.last()),
{
    let p = s.drop_last();
    if p.len() > 0 {
        let r = smoothed(p, a).unwrap();
        let x = s.last();
        let d = a.den as int;
        assert(r * (d - d) + x * d == x * d) by (nonlinear_arith);
        assert((x * d) / d == x) by (nonlinear_arith)
            requires
                d > 0,
        ;
    } else {
        assert(p =~= Seq::<u64>::empty());
    }
}

/// Samples that all equal `c` keep the estimate at `c`.
pub proof fn lemma_constant_samples(s: Seq<u64>, c: u64, a: Alpha)
    requires
        a.valid(),
        s.len() > 0,
        forall|i: int| 0 <= i < s.len() ==> s[i] == c,
    ensures
        smoothed(s, a) == Some(c),
    decreases s.len(),
{
    let p = s.drop_last();
    assert(s.last() == s[s.len() - 1]);
    if p.len() > 0 {
        assert forall|i: int| 0 <= i < p.len() implies p[i] == c by {
            assert(p[i] == s[i]);
        }
        lemma_constant_samples(p, c, a);
        let d = a.den as int;
        let n = a.num as int;
        assert(c * (d - n) + c * n == c * d) by (nonlinear_arith);
        assert((c * d) / d == c) by (nonlinear_arith)
            requires
                d > 0,
        ;
    } else {
        assert(p =~= Seq::<u64>::empty());
    }
}

proof fn lemma_without_key(s: Seq<TimerEntry>, k: u16)
    requires
        keys_unique(s),
    ensures
        keys_unique(without_key(s, k)),
        !has_key(without_key(s, k), k),
        without_key(s, k).len() == if has_key(s, k) { s.len() - 1 } else { s.len() as int },
{
    let w = without_key(s, k);
    if has_key(s, k) {
        let p = key_pos(s, k);
        assert(0 <= p < s.len() && s[p].0 == k);
        assert forall|j: int| 0 <= j < w.len() implies #[trigger] w[j].0 != k by {
            if j < p {
                assert(w[j] == s[j]);
            } else {
                assert(w[j] == s[j + 1]);
            }
        }
        assert forall|x: int, y: int| 0 <= x < w.len() && 0 <= y < w.len() && #[trigger] w[x].0 == #[trigger] w[y].0 implies x == y by {
            let xx = if x < p { x } else { x + 1 };
            let yy = if y < p { y } else { y + 1 };
            assert(w[x] == s[xx] && w[y] == s[yy]);
        }
    }
}

/// Registering keeps the table within its capacity and one entry per sequence
/// number; the new entry is the newest; and when a full table gains a new
/// sequence number, exactly the oldest entry leaves.
pub proof fn lemma_register_bounded(s: Seq<TimerEntry>, k: u16, now: u64, cap: nat)
    requires
        keys_unique(s),
        s.len() <= cap,
    ensures
        registered(s, k, now, cap).len() <= cap,
        keys_unique(registered(s, k, now, cap)),
        cap >= 1 ==> registered(s, k, now, cap).last() == (k, now),
        cap >= 1 && s.len() == cap && !has_key(s, k) ==> registered(s, k, now, cap) == s.drop_first().push((k, now)),
{
    lemma_without_key(s, k);
    let w = without_key(s, k);
    let pushed = w.push((k, now));
    assert(keys_unique(pushed)) by {
        assert forall|x: int, y: int| 0 <= x < pushed.len() && 0 <= y < pushed.len() && #[trigger] pushed[x].0 == #[trigger] pushed[y].0 implies x == y by {
            if x < w.len() && y == w.len() {
                assert(w[x].0 != k);
            } else if y < w.len() && x == w.len() {
                assert(w[y].0 != k);
            }
        }
    }
    let r = registered(s, k, now, cap);
    if pushed.len() > cap {
        assert forall|x: int, y: int| 0 <= x < r.len() && 0 <= y < r.len() && #[trigger] r[x].0 == #[trigger] r[y].0 implies x == y by {
            assert(r[x] == pushed[x + 1] && r[y] == pushed[y + 1]);
        }
    }
    if cap >= 1 && s.len() == cap && !has_key(s, k) {
        assert(w == s);
        assert(r =~= s.drop_first().push((k, now)));
    }
}

/// An entry that was registered and not yet evicted is sampled once: the
/// sample is the time since it was registered, and afterwards the table no
/// longer holds it, so a second sample of the same ack yields nothing.
pub proof fn lemma_sample_single_use(s: Seq<TimerEntry>, k: u16, t0: u64, now: u64)
    requires
        keys_unique(s),
        has_key(s, k),
        s[key_pos(s, k)] == (k, t0),
        now >= t0,
    ensures
        elapsed(now, s[key_pos(s, k)].1) == now - t0,
        !has_key(without_key(s, k), k),
        without_key(without_key(s, k), k) == without_key(s, k),
{
    lemma_without_key(s, k);
}

/// The in-flight table: entries in the order they were registered, at most
/// `capacity` of them, one per sequence number.
pub struct RttTimers {
    entries: Vec<TimerEntry>,
    capacity: usize,
}

impl RttTimers {
    pub closed spec fn view(&self) -> Seq<TimerEntry> {
        self.entries@
    }

    pub closed spec fn cap(&self) -> nat {
        self.capacity as nat
    }

    pub open spec fn wf(&self) -> bool {
        self@.len() <= self.cap() && keys_unique(self@)
    }

    /// An empty table that holds at most `capacity` entries.
    pub fn new(capacity: usize) -> (r: Self)
        ensures
            r.wf(),
            r@ == Seq::<TimerEntry>::empty(),
            r.cap() == capacity,
    {
        RttTimers { entries: Vec::new(), capacity }
    }

    pub fn len(&self) -> (r: usize)
        ensures
            r == self@.len(),
    {
        self.entries.len()
    }

    pub fn capacity(&self) -> (r: usize)
        ensures
            r == self.cap(),
    {
        self.capacity
    }

    /// The sequence numbers in the table, oldest first.
    pub fn sequences(&self) -> (r: Vec<u16>)
        ensures
            r@ == self@.map_values(|e: TimerEntry| e.0),
    {
        let mut out: Vec<u16> = Vec::new();
        let mut i: usize = 0;
        while i < self.entries.len()
            invariant
                i <= self.entries@.len(),
                out@ == self.entries@.take(i as int).map_values(|e: TimerEntry| e.0),
            decreases self.entries@.len() - i,
        {
            out.push(self.entries[i].0);
            i = i + 1;
            assert(out@ =~= self.entries@.take(i as int).map_values(|e: TimerEntry| e.0));
        }
        assert(self.entries@.take(i as int) =~= self.entries@);
        out
    }

    fn find(&self, k: u16) -> (r: Option<usize>)
        requires
            self.wf(),
        ensures
            r is None <==> !has_key(self@, k),
            r matches Some(i) ==> i == key_pos(self@, k) && i < self@.len(),
    {
        let mut i: usize = 0;
        while i < self.entries.len()
            invariant
                self.wf(),
                i <= self.entries@.len(),
                forall|j: int| 0 <= j < i ==> #[trigger] self.entries@[j].0 != k,
            decreases self.entries@.len() - i,
        {
            if self.entries[i].0 == k {
                assert(self@[i as int].0 == k);
                assert(has_key(self@, k));
                let ghost p = key_pos(self@, k);
                assert(0 <= p < self@.len() && self@[p].0 == k);
                assert(keys_unique(self@));
                assert(p == i as int);
                return Some(i);
            }
            i = i + 1;
        }
        None
    }

    /// Records that sequence `k` was sent at `now`.
    pub fn register(&mut self, k: u16, now: u64)
        requires
            old(self).wf(),
        ensures
            final(self).wf(),
            final(self).cap() == old(self).cap(),
            final(self)@ == registered(old(self)@, k, now, old(self).cap()),
    {
        let ghost s0 = self@;
        match self.find(k) {
            Some(i) => {
                self.entries.remove(i);
            },
            None => {},
        }
        assert(self@ == without_key(s0, k));
        self.entries.push((k, now));
        if self.entries.len() > self.capacity {
            self.entries.remove(0);
        }
        assert(self@ =~= registered(s0, k, now, self.cap()));
        proof {
            lemma_register_bounded(s0, k, now, self.cap());
        }
    }

    /// Takes out the entry for `ack` and returns the time elapsed since it was
    /// registered; `None` when no such entry is in the table.
    pub fn sample(&mut self, ack: u16, now: u64) -> (r: Option<u64>)
        requires
            old(self).wf(),
        ensures
            final(self).wf(),
            final(self).cap() == old(self).cap(),
            final(self)@ == without_key(old(self)@, ack),
            !has_key(final(self)@, ack),
            r is Some <==> has_key(old(self)@, ack),
            r matches Some(d) ==> d == elapsed(now, old(self)@[key_pos(old(self)@, ack)].1),
            forall|i: int| 0 <= i < old(self)@.len() && #[trigger] old(self)@[i].0 == ack
                ==> r == Some(elapsed(now, old(self)@[i].1)),
    {
        proof {
            assert forall|i: int| 0 <= i < self@.len() && #[trigger] self@[i].0 == ack
                implies i == key_pos(self@, ack) by {
                assert(has_key(self@, ack));
                let p = key_pos(self@, ack);
                assert(self@[p].0 == ack);
            }
        }
        match self.find(ack) {
            Some(i) => {
                let t0 = self.entries[i].1;
                self.entries.remove(i);
                let d = if now >= t0 { now - t0 } else { 0 };
                Some(d)
            },
            None => None,
        }
    }
}

} // verus!
