//! The tempo map and the conversion between beat positions and seconds.
//!
//! A tempo map is a list of breakpoints `(beat, tempo)` in increasing beat
//! order. Each tempo holds from its breakpoint up to the next one; the last
//! holds forever, and the first also holds before its own breakpoint. A score
//! without breakpoints plays at 120 beats per minute.
use crate::keyed::has_key;
use crate::keyed::insert_at_key;
use crate::keyed::keys_increasing;
use crate::keyed::last_at_or_before;
use crate::keyed::remove_key;
use crate::rational::Rational;
use crate::schema::BeatPosition;
use crate::schema::Bpm;
use vstd::prelude::*;

verus! {

/// Tempo breakpoints, ordered by beat.
#[derive(Clone, Debug)]
pub struct TempoMap {
    pub entries: Vec<(BeatPosition, Bpm)>,
}

/// The breakpoints of a tempo map as `(beat, seconds per beat)` pairs.
pub type Segments = Seq<(real, real)>;

/// Breakpoints in strictly increasing beat order, each with a positive duration.
pub open spec fn segments_wf(s: Segments) -> bool {
    &&& forall|i: int| 0 <= i < s.len() ==> #[trigger] s[i].1 > 0real
    &&& forall|i: int, j: int| 0 <= i < j < s.len() ==> #[trigger] s[i].0 < #[trigger] s[j].0
}

/// Seconds from breakpoint `i` to `pos`, where `pos` lies after breakpoint `i`.
pub open spec fn seconds_from(s: Segments, i: int, pos: real) -> real
    decreases s.len() - i,
{
    if 0 <= i && i + 1 < s.len() && pos > s[i + 1].0 {
        (s[i + 1].0 - s[i].0) * s[i].1 + seconds_from(s, i + 1, pos)
    } else {
        (pos - s[i].0) * s[i].1
    }
}

/// The time in seconds at which beat `pos` sounds.
pub open spec fn time_at(offset: real, s: Segments, pos: real) -> real {
    if s.len() == 0 {
        offset + pos / 2real
    } else if pos <= s[0].0 {
        offset + pos * s[0].1
    } else {
        offset + s[0].0 * s[0].1 + seconds_from(s, 0, pos)
    }
}

/// The beat that sounds at time `t`, searching from breakpoint `i`, which
/// sounds at time `t_i`.
pub open spec fn beat_from(s: Segments, i: int, t_i: real, t: real) -> real
    decreases s.len() - i,
{
    if 0 <= i && i + 1 < s.len() && t > t_i + (s[i + 1].0 - s[i].0) * s[i].1 {
        beat_from(s, i + 1, t_i + (s[i + 1].0 - s[i].0) * s[i].1, t)
    } else {
        s[i].0 + (t - t_i) / s[i].1
    }
}

/// The beat that sounds at time `t`.
pub open spec fn beat_at(offset: real, s: Segments, t: real) -> real {
    if s.len() == 0 {
        (t - offset) * 2real
    } else {
        let t0 = offset + s[0].0 * s[0].1;
        if t <= t0 {
            s[0].0 + (t - t0) / s[0].1
        } else {
            beat_from(s, 0, t0, t)
        }
    }
}

impl TempoMap {
    pub open spec fn wf(self) -> bool {
        &&& forall|i: int|
            0 <= i < self.entries@.len() ==> (#[trigger] self.entries@[i]).0.wf()
                && self.entries@[i].1.wf()
        &&& segments_wf(self.segments())
    }

    /// The breakpoints as exact `(beat, seconds per beat)` pairs.
    pub open spec fn segments(self) -> Segments {
        self.entries@.map_values(|e: (BeatPosition, Bpm)| (e.0.value(), e.1.seconds_per_beat()))
    }

    proof fn lemma_keys(self)
        ensures
            self.wf() <==> (keys_increasing(self.entries@) && forall|i: int|
                0 <= i < self.entries@.len() ==> (#[trigger] self.entries@[i]).1.wf()),
    {
        let s = self.segments();
        assert forall|i: int| 0 <= i < s.len() implies #[trigger] s[i] == (self.entries@[i].0.value(), self.entries@[i].1.seconds_per_beat()) by {}
        if self.wf() {
            assert forall|i: int, j: int| 0 <= i < j < self.entries@.len() implies #[trigger] self.entries@[i].0.value() < #[trigger] self.entries@[j].0.value() by {
                assert(s[i].0 < s[j].0);
            }
        }
        if keys_increasing(self.entries@) && forall|i: int| 0 <= i < self.entries@.len() ==> (#[trigger] self.entries@[i]).1.wf() {
            assert forall|i: int, j: int| 0 <= i < j < s.len() implies #[trigger] s[i].0 < #[trigger] s[j].0 by {
                assert(self.entries@[i].0.value() < self.entries@[j].0.value());
            }
            assert forall|i: int| 0 <= i < s.len() implies #[trigger] s[i].1 > 0real by {
                let v = self.entries@[i].1.0.value();
                assert(60real / v > 0real) by (nonlinear_arith)
                    requires
                        v > 0real,
                ;
            }
        }
    }

    /// Sets the tempo from beat `pos` on: replaces the breakpoint at `pos`, or
    /// adds one there.
    pub fn insert(&mut self, pos: BeatPosition, bpm: Bpm)
        requires
            old(self).wf(),
            pos.wf(),
            bpm.wf(),
        ensures
            final(self).wf(),
            exists|r: int| 0 <= r < final(self).entries@.len() && #[trigger] final(self).entries@[r] == (pos, bpm) && if has_key(old(self).entries@, pos.value()) {
                &&& old(self).entries@[r].0.value() == pos.value()
                &&& final(self).entries@ == old(self).entries@.update(r, (pos, bpm))
            } else {
                final(self).entries@ == old(self).entries@.insert(r, (pos, bpm))
            },
    {
        proof {
            self.lemma_keys();
        }
        let r = insert_at_key(&mut self.entries, pos, bpm);
        proof {
            let ghost o = old(self).entries@;
            if !has_key(o, pos.value()) {
                o.insert_ensures(r as int, (pos, bpm));
            }
            assert forall|i: int| 0 <= i < self.entries@.len() implies (#[trigger] self.entries@[i]).1.wf() by {
                if i != r {
                    if has_key(o, pos.value()) {
                        assert(self.entries@[i] == o[i]);
                    } else if i < r {
                        assert(self.entries@[i] == o[i]);
                    } else {
                        assert(self.entries@[i] == o[i - 1]);
                    }
                }
            }
            self.lemma_keys();
            assert(self.entries@[r as int] == (pos, bpm));
        }
    }

    /// The breakpoint in force at `pos`: the last one at or before it. `None`
    /// where every breakpoint lies after `pos`.
    pub fn breakpoint_at(&self, pos: &BeatPosition) -> (r: Option<(BeatPosition, Bpm)>)
        requires
            self.wf(),
            pos.wf(),
        ensures
            r is None <==> (self.entries@.len() == 0 || self.entries@[0].0.value() > pos.value()),
            r matches Some(e) ==> exists|i: int| 0 <= i < self.entries@.len() && e.0.value() == (#[trigger] self.entries@[i]).0.value()
                && e.1.0.value() == self.entries@[i].1.0.value() && e.0.wf() && e.1.wf()
                && e.0.value() <= pos.value() && (i + 1 == self.entries@.len() || self.entries@[i + 1].0.value() > pos.value()),
    {
        proof {
            self.lemma_keys();
        }
        match last_at_or_before(&self.entries, pos) {
            Some(i) => {
                let e = &self.entries[i];
                Some((e.0.copy(), e.1.copy()))
            },
            None => None,
        }
    }

    /// Removes the breakpoint at `pos`, if there is one.
    pub fn remove(&mut self, pos: BeatPosition) -> (r: bool)
        requires
            old(self).wf(),
            pos.wf(),
        ensures
            final(self).wf(),
            r == has_key(old(self).entries@, pos.value()),
            r ==> exists|i: int| 0 <= i < old(self).entries@.len() && (#[trigger] old(self).entries@[i]).0.value() == pos.value()
                && final(self).entries@ == old(self).entries@.remove(i),
            !r ==> final(self).entries@ == old(self).entries@,
    {
        proof {
            self.lemma_keys();
        }
        let r = remove_key(&mut self.entries, pos);
        proof {
            let ghost o = old(self).entries@;
            if let Some(k) = r {
                o.remove_ensures(k as int);
            }
            assert forall|i: int| 0 <= i < self.entries@.len() implies (#[trigger] self.entries@[i]).1.wf() by {
                if let Some(k) = r {
                    if i >= k {
                        assert(self.entries@[i] == o[i + 1]);
                    } else {
                        assert(self.entries@[i] == o[i]);
                    }
                }
            }
            self.lemma_keys();
        }
        r.is_some()
    }

    /// The empty tempo map.
    pub fn new() -> (r: TempoMap)
        ensures
            r.wf(),
            r.entries@.len() == 0,
    {
        TempoMap { entries: Vec::new() }
    }

    /// The tempo map with these breakpoints, or `None` where their beats are
    /// not strictly increasing.
    pub fn from_breakpoints(entries: Vec<(BeatPosition, Bpm)>) -> (r: Option<TempoMap>)
        requires
            forall|i: int| 0 <= i < entries@.len() ==> (#[trigger] entries@[i]).0.wf() && entries@[i].1.wf(),
        ensures
            r matches Some(m) ==> m.wf() && m.entries@ == entries@,
            r is None <==> exists|i: int| 0 < i < entries@.len() && (#[trigger] entries@[i]).0.value() <= entries@[i - 1].0.value(),
    {
        let n = entries.len();
        let mut i: usize = 1;
        while i < n
            invariant
                n == entries@.len(),
                1 <= i <= n || n == 0,
                forall|k: int| 0 <= k < entries@.len() ==> (#[trigger] entries@[k]).0.wf() && entries@[k].1.wf(),
                forall|a: int, b: int| 0 <= a < b < i && b < n ==> #[trigger] entries@[a].0.value() < #[trigger] entries@[b].0.value(),
            decreases n - i,
        {
            if entries[i].0.le(&entries[i - 1].0) {
                return None;
            }
            assert forall|a: int, b: int| 0 <= a < b < i + 1 && b < n implies #[trigger] entries@[a].0.value() < #[trigger] entries@[b].0.value() by {
                if b == i as int && a < i - 1 {
                    assert(entries@[a].0.value() < entries@[i - 1].0.value());
                }
            }
            i = i + 1;
        }
        let m = TempoMap { entries };
        assert(m.wf()) by {
            assert forall|a: int, b: int| 0 <= a < b < m.segments().len() implies #[trigger] m.segments()[a].0 < #[trigger] m.segments()[b].0 by {
                assert(m.segments()[a].0 == m.entries@[a].0.value());
                assert(m.segments()[b].0 == m.entries@[b].0.value());
            }
            assert forall|a: int| 0 <= a < m.segments().len() implies #[trigger] m.segments()[a].1 > 0real by {
                let v = m.entries@[a].1.0.value();
                assert(60real / v > 0real) by (nonlinear_arith)
                    requires
                        v > 0real,
                ;
            }
        }
        Some(m)
    }
}

/// The time in seconds at which beat `pos` sounds, for a score whose beat 0
/// sounds at `offset`.
pub fn beat_to_time(offset: &Rational, bpms: &TempoMap, pos: &BeatPosition) -> (r: Rational)
    requires
        offset.wf(),
        bpms.wf(),
        pos.wf(),
    ensures
        r.wf(),
        r.value() == time_at(offset.value(), bpms.segments(), pos.value()),
{
    let ghost s = bpms.segments();
    let n = bpms.entries.len();
    if n == 0 {
        let half = Rational::new(1, 2);
        let t = pos.0.mul(&half);
        assert(half.value() == 1real / 2real);
        assert(pos.value() * (1real / 2real) == pos.value() / 2real) by (nonlinear_arith);
        return offset.add(&t);
    }
    let first = &bpms.entries[0];
    assert(s[0] == (first.0.value(), first.1.seconds_per_beat()));
    let spb = first.1.beat_length();
    if pos.le(&first.0) {
        let t = pos.0.mul(&spb);
        return offset.add(&t);
    }
    let lead = first.0.0.mul(&spb);
    let mut time = offset.add(&lead);
    let mut i: usize = 0;
    while i + 1 < n && bpms.entries[i + 1].0.lt(pos)
        invariant
            0 <= i < n,
            n == s.len(),
            s == bpms.segments(),
            bpms.wf(),
            pos.wf(),
            time.wf(),
            pos.value() > s[i as int].0,
            time.value() + seconds_from(s, i as int, pos.value()) == time_at(offset.value(), s, pos.value()),
        decreases n - i,
    {
        let start = &bpms.entries[i];
        let end = &bpms.entries[i + 1];
        assert(s[i as int] == (start.0.value(), start.1.seconds_per_beat()));
        assert(s[i + 1] == (end.0.value(), end.1.seconds_per_beat()));
        let spb = start.1.beat_length();
        let len = end.0.0.sub(&start.0.0);
        let d = len.mul(&spb);
        time = time.add(&d);
        i = i + 1;
    }
    let start = &bpms.entries[i];
    assert(s[i as int] == (start.0.value(), start.1.seconds_per_beat()));
    let spb = start.1.beat_length();
    let len = pos.0.sub(&start.0.0);
    let d = len.mul(&spb);
    time.add(&d)
}

/// The beat that sounds at time `time`, for a score whose beat 0 sounds at
/// `offset`.
pub fn time_to_beat(offset: &Rational, bpms: &TempoMap, time: &Rational) -> (r: Rational)
    requires
        offset.wf(),
        bpms.wf(),
        time.wf(),
    ensures
        r.wf(),
        r.value() == beat_at(offset.value(), bpms.segments(), time.value()),
{
    let ghost s = bpms.segments();
    let n = bpms.entries.len();
    if n == 0 {
        let elapsed = time.sub(offset);
        return elapsed.mul(&Rational::from_integer(2));
    }
    let first = &bpms.entries[0];
    assert(s[0] == (first.0.value(), first.1.seconds_per_beat()));
    let spb = first.1.beat_length();
    let lead = first.0.0.mul(&spb);
    let mut cur = offset.add(&lead);
    if time.le(&cur) {
        let rest = time.sub(&cur);
        let beats = rest.div(&spb);
        return first.0.0.add(&beats);
    }
    let mut i: usize = 0;
    loop
        invariant
            0 <= i < n,
            n == s.len(),
            s == bpms.segments(),
            bpms.wf(),
            time.wf(),
            cur.wf(),
            beat_from(s, i as int, cur.value(), time.value()) == beat_at(offset.value(), s, time.value()),
        decreases n - i,
    {
        let start = &bpms.entries[i];
        assert(s[i as int] == (start.0.value(), start.1.seconds_per_beat()));
        let spb = start.1.beat_length();
        if i + 1 < n {
            let end = &bpms.entries[i + 1];
            assert(s[i + 1].0 == end.0.value());
            let len = end.0.0.sub(&start.0.0);
            let d = len.mul(&spb);
            let end_time = cur.add(&d);
            if !time.le(&end_time) {
                cur = end_time;
                i = i + 1;
                continue;
            }
        }
        let rest = time.sub(&cur);
        let beats = rest.div(&spb);
        return start.0.0.add(&beats);
    }
}

proof fn lemma_mul_le(a: real, b: real, c: real)
    requires
        a <= b,
        c > 0real,
    ensures
        a * c <= b * c,
{
    assert(a * c <= b * c) by (nonlinear_arith)
        requires
            a <= b,
            c > 0real,
    ;
}

proof fn lemma_mul_pos(a: real, b: real)
    requires
        a > 0real,
        b > 0real,
    ensures
        a * b > 0real,
{
    assert(a * b > 0real) by (nonlinear_arith)
        requires
            a > 0real,
            b > 0real,
    ;
}

proof fn lemma_scaled_difference(x: real, y: real, c: real)
    requires
        c > 0real,
    ensures
        (x * c - y * c) / c == x - y,
        ((x - y) * c) / c == x - y,
{
    assert((x * c - y * c) / c == x - y) by (nonlinear_arith)
        requires
            c > 0real,
    ;
    assert(((x - y) * c) / c == x - y) by (nonlinear_arith)
        requires
            c > 0real,
    ;
}

proof fn lemma_seconds_from_positive(s: Segments, i: int, pos: real)
    requires
        segments_wf(s),
        0 <= i < s.len(),
        pos > s[i].0,
    ensures
        seconds_from(s, i, pos) > 0real,
    decreases s.len() - i,
{
    if i + 1 < s.len() && pos > s[i + 1].0 {
        lemma_mul_pos(s[i + 1].0 - s[i].0, s[i].1);
        lemma_seconds_from_positive(s, i + 1, pos);
    } else {
        lemma_mul_pos(pos - s[i].0, s[i].1);
    }
}

proof fn lemma_seconds_from_monotonic(s: Segments, i: int, p1: real, p2: real)
    requires
        segments_wf(s),
        0 <= i < s.len(),
        p1 <= p2,
    ensures
        seconds_from(s, i, p1) <= seconds_from(s, i, p2),
    decreases s.len() - i,
{
    if i + 1 < s.len() && p1 > s[i + 1].0 {
        lemma_seconds_from_monotonic(s, i + 1, p1, p2);
    } else if i + 1 < s.len() && p2 > s[i + 1].0 {
        lemma_mul_le(p1 - s[i].0, s[i + 1].0 - s[i].0, s[i].1);
        lemma_seconds_from_positive(s, i + 1, p2);
    } else {
        lemma_mul_le(p1 - s[i].0, p2 - s[i].0, s[i].1);
    }
}

proof fn lemma_beat_from_inverts(s: Segments, i: int, t_i: real, pos: real)
    requires
        segments_wf(s),
        0 <= i < s.len(),
        pos > s[i].0,
    ensures
        beat_from(s, i, t_i, t_i + seconds_from(s, i, pos)) == pos,
    decreases s.len() - i,
{
    let t = t_i + seconds_from(s, i, pos);
    if i + 1 < s.len() && pos > s[i + 1].0 {
        let d = (s[i + 1].0 - s[i].0) * s[i].1;
        lemma_seconds_from_positive(s, i + 1, pos);
        lemma_beat_from_inverts(s, i + 1, t_i + d, pos);
    } else {
        if i + 1 < s.len() {
            lemma_mul_le(pos - s[i].0, s[i + 1].0 - s[i].0, s[i].1);
        }
        lemma_scaled_difference(pos, s[i].0, s[i].1);
    }
}

proof fn lemma_beat_at_time_at(offset: real, s: Segments, pos: real)
    requires
        segments_wf(s),
    ensures
        beat_at(offset, s, time_at(offset, s, pos)) == pos,
{
    if s.len() > 0 {
        let t0 = offset + s[0].0 * s[0].1;
        if pos <= s[0].0 {
            lemma_mul_le(pos, s[0].0, s[0].1);
            lemma_scaled_difference(pos, s[0].0, s[0].1);
        } else {
            lemma_seconds_from_positive(s, 0, pos);
            lemma_beat_from_inverts(s, 0, t0, pos);
        }
    }
}

proof fn lemma_time_at_monotonic(offset: real, s: Segments, p1: real, p2: real)
    requires
        segments_wf(s),
        p1 <= p2,
    ensures
        time_at(offset, s, p1) <= time_at(offset, s, p2),
{
    if s.len() > 0 {
        if p2 <= s[0].0 {
            lemma_mul_le(p1, p2, s[0].1);
        } else if p1 <= s[0].0 {
            lemma_mul_le(p1, s[0].0, s[0].1);
            lemma_seconds_from_positive(s, 0, p2);
        } else {
            lemma_seconds_from_monotonic(s, 0, p1, p2);
        }
    }
}

/// The duration of a beat between breakpoints `idx - 1` and `idx`: before
/// the first breakpoint the first tempo holds, and without breakpoints 120
/// beats per minute.
pub open spec fn region_rate(s: Segments, idx: int) -> real {
    if s.len() == 0 {
        1real / 2real
    } else if idx == 0 {
        s[0].1
    } else {
        s[idx - 1].1
    }
}

/// Beat `p` lies between breakpoints `idx - 1` and `idx`, bounds included.
pub open spec fn in_region(s: Segments, idx: int, p: real) -> bool {
    &&& 0 <= idx <= s.len()
    &&& (idx > 0 ==> s[idx - 1].0 <= p)
    &&& (idx < s.len() ==> p <= s[idx].0)
}

proof fn lemma_distribute(x: real, y: real, c: real)
    ensures
        y * c == x * c + (y - x) * c,
{
    assert(y * c == x * c + (y - x) * c) by (nonlinear_arith);
}

proof fn lemma_seconds_from_split(s: Segments, j: int, i: int, p: real)
    requires
        segments_wf(s),
        0 <= j <= i < s.len(),
        p >= s[i].0,
    ensures
        seconds_from(s, j, p) == seconds_from(s, j, s[i].0) + seconds_from(s, i, p),
    decreases i - j,
{
    if j == i {
        assert(seconds_from(s, i, s[i].0) == (s[i].0 - s[i].0) * s[i].1);
        assert((s[i].0 - s[i].0) * s[i].1 == 0real) by (nonlinear_arith)
            requires
                s[i].0 - s[i].0 == 0real,
        ;
    } else if j + 1 == i {
        if p > s[i].0 {
        } else {
            assert(seconds_from(s, i, p) == (p - s[i].0) * s[i].1);
            assert((p - s[i].0) * s[i].1 == 0real) by (nonlinear_arith)
                requires
                    p - s[i].0 == 0real,
            ;
        }
    } else {
        assert(s[j + 1].0 < s[i].0);
        lemma_seconds_from_split(s, j + 1, i, p);
    }
}

proof fn lemma_zero_product(x: real, c: real)
    requires
        x == 0real,
    ensures
        x * c == 0real,
{
    assert(x * c == 0real) by (nonlinear_arith)
        requires
            x == 0real,
    ;
}

/// The time of a beat `p` between breakpoints `i` and `i + 1`: the time of
/// breakpoint `i` plus the beats since it at tempo `i`.
proof fn lemma_time_at_after(offset: real, s: Segments, i: int, p: real)
    requires
        segments_wf(s),
        0 <= i < s.len(),
        s[i].0 <= p,
        i + 1 < s.len() ==> p <= s[i + 1].0,
    ensures
        time_at(offset, s, p) == offset + s[0].0 * s[0].1 + seconds_from(s, 0, s[i].0) + (p - s[i].0) * s[i].1,
{
    assert(seconds_from(s, i, p) == (p - s[i].0) * s[i].1);
    if p > s[0].0 {
        assert(time_at(offset, s, p) == offset + s[0].0 * s[0].1 + seconds_from(s, 0, p));
        lemma_seconds_from_split(s, 0, i, p);
    } else {
        if i > 0 {
            assert(s[0].0 < s[i].0);
        }
        assert(i == 0 && p == s[0].0);
        assert(time_at(offset, s, p) == offset + p * s[0].1);
        assert(seconds_from(s, 0, s[0].0) == (s[0].0 - s[0].0) * s[0].1);
        lemma_zero_product(s[0].0 - s[0].0, s[0].1);
        lemma_zero_product(p - s[0].0, s[0].1);
    }
}

/// Within one tempo region the time grows linearly with the beat.
pub proof fn lemma_time_at_in_region(offset: real, s: Segments, idx: int, x: real, y: real)
    requires
        segments_wf(s),
        in_region(s, idx, x),
        in_region(s, idx, y),
        x <= y,
    ensures
        time_at(offset, s, y) == time_at(offset, s, x) + (y - x) * region_rate(s, idx),
{
    if s.len() == 0 {
        assert(time_at(offset, s, x) == offset + x / 2real);
        assert(time_at(offset, s, y) == offset + y / 2real);
    } else if idx == 0 {
        assert(time_at(offset, s, x) == offset + x * s[0].1);
        assert(time_at(offset, s, y) == offset + y * s[0].1);
        lemma_distribute(x, y, s[0].1);
    } else {
        let i = idx - 1;
        lemma_time_at_after(offset, s, i, x);
        lemma_time_at_after(offset, s, i, y);
        assert(region_rate(s, idx) == s[i].1);
        lemma_distribute(x - s[i].0, y - s[i].0, s[i].1);
    }
}

proof fn lemma_mul_lt(a: real, b: real, c: real)
    requires
        a < b,
        c > 0real,
    ensures
        a * c < b * c,
{
    assert(a * c < b * c) by (nonlinear_arith)
        requires
            a < b,
            c > 0real,
    ;
}

proof fn lemma_seconds_from_strict(s: Segments, i: int, p1: real, p2: real)
    requires
        segments_wf(s),
        0 <= i < s.len(),
        p1 < p2,
    ensures
        seconds_from(s, i, p1) < seconds_from(s, i, p2),
    decreases s.len() - i,
{
    if i + 1 < s.len() && p1 > s[i + 1].0 {
        lemma_seconds_from_strict(s, i + 1, p1, p2);
    } else if i + 1 < s.len() && p2 > s[i + 1].0 {
        lemma_mul_le(p1 - s[i].0, s[i + 1].0 - s[i].0, s[i].1);
        lemma_seconds_from_positive(s, i + 1, p2);
    } else {
        lemma_mul_lt(p1 - s[i].0, p2 - s[i].0, s[i].1);
    }
}

/// A later beat sounds strictly later.
pub proof fn lemma_time_at_strictly_increasing(offset: real, s: Segments, p1: real, p2: real)
    requires
        segments_wf(s),
        p1 < p2,
    ensures
        time_at(offset, s, p1) < time_at(offset, s, p2),
{
    if s.len() > 0 {
        if p2 <= s[0].0 {
            lemma_mul_lt(p1, p2, s[0].1);
        } else if p1 <= s[0].0 {
            lemma_mul_le(p1, s[0].0, s[0].1);
            lemma_seconds_from_positive(s, 0, p2);
        } else {
            lemma_seconds_from_strict(s, 0, p1, p2);
        }
    }
}

proof fn lemma_scale_back(k: real, x: real, c: real)
    requires
        c > 0real,
    ensures
        (k + x / c) * c == k * c + x,
        x <= 0real ==> x / c <= 0real,
{
    assert((k + x / c) * c == k * c + x) by (nonlinear_arith)
        requires
            c > 0real,
    ;
    assert(x <= 0real ==> x / c <= 0real) by (nonlinear_arith)
        requires
            c > 0real,
    ;
}

proof fn lemma_time_at_beat_from(offset: real, s: Segments, i: int, t_i: real, t: real)
    requires
        segments_wf(s),
        0 <= i < s.len(),
        t_i == time_at(offset, s, s[i].0),
        t > t_i,
    ensures
        time_at(offset, s, beat_from(s, i, t_i, t)) == t,
    decreases s.len() - i,
{
    let c = s[i].1;
    if i + 1 < s.len() {
        assert(s[i].0 < s[i + 1].0);
        lemma_time_at_in_region(offset, s, i + 1, s[i].0, s[i + 1].0);
    }
    if i + 1 < s.len() && t > t_i + (s[i + 1].0 - s[i].0) * c {
        lemma_time_at_beat_from(offset, s, i + 1, t_i + (s[i + 1].0 - s[i].0) * c, t);
    } else {
        let b = s[i].0 + (t - t_i) / c;
        assert((t - t_i) / c > 0real) by (nonlinear_arith)
            requires
                t - t_i > 0real,
                c > 0real,
        ;
        lemma_scaled_difference(b, s[i].0, c);
        lemma_scale_back(s[i].0, t - t_i, c);
        if i + 1 < s.len() {
            let d = s[i + 1].0 - s[i].0;
            assert((t - t_i) / c <= d) by (nonlinear_arith)
                requires
                    t - t_i <= d * c,
                    c > 0real,
            ;
        }
        lemma_time_at_in_region(offset, s, i + 1, s[i].0, b);
        assert((b - s[i].0) * c == t - t_i) by (nonlinear_arith)
            requires
                b - s[i].0 == (t - t_i) / c,
                c > 0real,
        ;
    }
}

/// Converting a time to a beat and back gives the same time.
pub proof fn lemma_time_at_beat_at(offset: real, s: Segments, t: real)
    requires
        segments_wf(s),
    ensures
        time_at(offset, s, beat_at(offset, s, t)) == t,
{
    if s.len() > 0 {
        let t0 = offset + s[0].0 * s[0].1;
        assert(time_at(offset, s, s[0].0) == t0);
        if t <= t0 {
            let b = s[0].0 + (t - t0) / s[0].1;
            lemma_scale_back(s[0].0, t - t0, s[0].1);
            assert(time_at(offset, s, b) == offset + b * s[0].1);
        } else {
            lemma_time_at_beat_from(offset, s, 0, t0, t);
        }
    }
}

/// Converting a beat to seconds and back gives the same beat: exactly, since
/// both conversions are exact.
pub proof fn lemma_time_to_beat_inverts_beat_to_time(offset: Rational, bpms: TempoMap, pos: BeatPosition)
    requires
        offset.wf(),
        bpms.wf(),
        pos.wf(),
    ensures
        beat_at(offset.value(), bpms.segments(), time_at(offset.value(), bpms.segments(), pos.value())) == pos.value(),
{
    lemma_beat_at_time_at(offset.value(), bpms.segments(), pos.value());
}

/// A later beat never sounds earlier: the time of a beat does not decrease as
/// the beat grows.
pub proof fn lemma_beat_to_time_monotonic(offset: Rational, bpms: TempoMap, p1: BeatPosition, p2: BeatPosition)
    requires
        offset.wf(),
        bpms.wf(),
        p1.wf(),
        p2.wf(),
        p1.value() <= p2.value(),
    ensures
        time_at(offset.value(), bpms.segments(), p1.value()) <= time_at(offset.value(), bpms.segments(), p2.value()),
{
    lemma_time_at_monotonic(offset.value(), bpms.segments(), p1.value(), p2.value());
}

/// Converting a time to a beat and back gives the same time.
pub proof fn lemma_beat_to_time_inverts_time_to_beat(offset: Rational, bpms: TempoMap, time: Rational)
    requires
        offset.wf(),
        bpms.wf(),
        time.wf(),
    ensures
        time_at(offset.value(), bpms.segments(), beat_at(offset.value(), bpms.segments(), time.value())) == time.value(),
{
    lemma_time_at_beat_at(offset.value(), bpms.segments(), time.value());
}

/// A later time never gives an earlier beat.
pub proof fn lemma_time_to_beat_monotonic(offset: Rational, bpms: TempoMap, t1: Rational, t2: Rational)
    requires
        offset.wf(),
        bpms.wf(),
        t1.wf(),
        t2.wf(),
        t1.value() <= t2.value(),
    ensures
        beat_at(offset.value(), bpms.segments(), t1.value()) <= beat_at(offset.value(), bpms.segments(), t2.value()),
{
    let (o, s) = (offset.value(), bpms.segments());
    let (b1, b2) = (beat_at(o, s, t1.value()), beat_at(o, s, t2.value()));
    lemma_time_at_beat_at(o, s, t1.value());
    lemma_time_at_beat_at(o, s, t2.value());
    if b1 > b2 {
        lemma_time_at_strictly_increasing(o, s, b2, b1);
    }
}

} // verus!
