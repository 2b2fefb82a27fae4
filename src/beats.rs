//! The metronome: one tick per beat, with the time at which it sounds and
//! whether it opens a measure.
//!
//! From the current beat the next tick comes one beat later, or at the end of
//! the current measure where that comes first.
use crate::measures::breakpoints_wf;
use crate::measures::iterate_measures;
use crate::measures::MeasureIter;
use crate::measures::MeasureMap;
use crate::rational::Rational;
use crate::schema::BeatLength;
use crate::schema::BeatPosition;
use crate::tempo::beat_to_time;
use crate::tempo::in_region;
use crate::tempo::lemma_time_at_in_region;
use crate::tempo::lemma_time_at_strictly_increasing;
use crate::tempo::region_rate;
use crate::tempo::time_at;
use crate::tempo::TempoMap;
use crate::measures::layout_state;
use crate::measures::layout_step;
use crate::measures::LayoutState;
use crate::measures::measure;
use crate::measures::Breakpoints;
use vstd::prelude::*;

verus! {

/// A tick of the metronome: its beat, the index of the measure it lies in,
/// and whether it opens that measure.
pub struct Tick {
    pub beat: real,
    pub measure: nat,
    pub first: bool,
}

/// Measure `n` is the one that holds beat `b`: the first measure that ends
/// after `b`.
pub open spec fn holds_beat(m: Breakpoints, b: real, n: nat) -> bool {
    &&& measure(m, n).1 > b
    &&& (n == 0 || measure(m, (n - 1) as nat).1 <= b)
}

/// The tick at beat `b`, which lies in measure `n`.
pub open spec fn first_tick(m: Breakpoints, b: real, n: nat) -> Tick {
    Tick { beat: b, measure: n, first: measure(m, n).0 == b }
}

/// The tick after `t`.
pub open spec fn tick_step(m: Breakpoints, t: Tick) -> Tick {
    let end = measure(m, t.measure).1;
    if end <= t.beat + 1real {
        Tick { beat: end, measure: t.measure + 1, first: true }
    } else {
        Tick { beat: t.beat + 1real, measure: t.measure, first: false }
    }
}

/// The tick `k` steps after `t`.
pub open spec fn tick_after(m: Breakpoints, t: Tick, k: nat) -> Tick
    decreases k,
{
    if k == 0 {
        t
    } else {
        tick_step(m, tick_after(m, t, (k - 1) as nat))
    }
}

/// The shortest measure length that the layout can use.
pub open spec fn min_length(m: Breakpoints, i: int) -> real
    decreases m.len() - i,
{
    if i < 0 || i >= m.len() {
        4real
    } else {
        let rest = min_length(m, i + 1);
        if m[i].1 < rest {
            m[i].1
        } else {
            rest
        }
    }
}

proof fn lemma_min_length(m: Breakpoints, i: int)
    requires
        breakpoints_wf(m),
        0 <= i,
    ensures
        min_length(m, i) > 0real,
        min_length(m, i) <= 4real,
        forall|j: int| i <= j < m.len() ==> min_length(m, i) <= #[trigger] m[j].1,
    decreases m.len() - i,
{
    if i < m.len() {
        lemma_min_length(m, i + 1);
    }
}

proof fn lemma_mul_step(x: int, c: real)
    ensures
        ((x + 1) as real) * c == (x as real) * c + c,
{
    assert(((x + 1) as real) * c == (x as real) * c + c) by (nonlinear_arith);
}

/// A layout state that the layout can reach: its length is at least the
/// shortest in use, and the next breakpoint does not lie before its start.
pub open spec fn reachable_state(m: Breakpoints, st: LayoutState) -> bool {
    &&& 0 <= st.next <= m.len()
    &&& st.length >= min_length(m, 0)
    &&& st.next < m.len() ==> m[st.next].0 >= st.start
}

/// One step of the layout from a reachable state: the measure has positive
/// length, the next measure starts where it ends, and the layout moves on by
/// a whole length unless it passes a breakpoint.
proof fn lemma_step_facts(m: Breakpoints, st: LayoutState)
    requires
        breakpoints_wf(m),
        reachable_state(m, st),
    ensures
        reachable_state(m, layout_step(m, st).1),
        layout_step(m, st).0 > st.start,
        layout_step(m, st).1.start == layout_step(m, st).0,
        st.next <= layout_step(m, st).1.next,
        layout_step(m, st).1.next == st.next ==> layout_step(m, st).1.start == st.start + st.length,
{
    lemma_min_length(m, 0);
    let at_start = 0 <= st.next < m.len() && m[st.next].0 <= st.start;
    let length = if at_start { m[st.next].1 } else { st.length };
    let next = if at_start { st.next + 1 } else { st.next };
    assert(length >= min_length(m, 0));
    if 0 <= next < m.len() && m[next].0 < st.start + length {
        if at_start {
            assert(m[st.next].0 < m[next].0);
        }
        assert(m[next].0 > st.start);
        if next + 1 < m.len() {
            assert(m[next].0 < m[next + 1].0);
        }
    }
}

/// Each measure has a positive length, at least the shortest length in use
/// unless a breakpoint cuts it short, and the layout moves on from where the
/// last measure ended.
proof fn lemma_layout_progress(m: Breakpoints, n: nat)
    requires
        breakpoints_wf(m),
    ensures
        reachable_state(m, layout_state(m, n)),
        layout_state(m, n).length >= min_length(m, 0),
        0 <= layout_state(m, n).next <= m.len(),
        layout_state(m, n).start >= ((n - layout_state(m, n).next) as real) * min_length(m, 0),
        measure(m, n).1 > measure(m, n).0,
        measure(m, n + 1).0 == measure(m, n).1,
    decreases n,
{
    lemma_min_length(m, 0);
    let mn = min_length(m, 0);
    if n > 0 {
        lemma_layout_progress(m, (n - 1) as nat);
        let st = layout_state(m, (n - 1) as nat);
        assert(layout_state(m, n) == layout_step(m, st).1);
        lemma_step_facts(m, st);
        let x = (n - 1) - st.next;
        lemma_mul_step(x, mn);
        let nx = layout_state(m, n);
        if nx.next > st.next {
            let y = n - nx.next;
            assert(y <= x);
            assert(y as real * mn <= x as real * mn) by (nonlinear_arith)
                requires
                    y <= x,
                    mn > 0real,
            ;
        }
    } else {
        assert(0 as real * mn == 0real) by (nonlinear_arith);
        if m.len() > 0 {
            assert(m[0].0 >= 0real);
        }
    }
    lemma_step_facts(m, layout_state(m, n));
    assert(layout_state(m, n + 1) == layout_step(m, layout_state(m, n)).1);
}

proof fn lemma_measure_ends_increase(m: Breakpoints, a: nat, b: nat)
    requires
        breakpoints_wf(m),
        a < b,
    ensures
        measure(m, a).1 <= measure(m, (b - 1) as nat).1,
        measure(m, a).1 < measure(m, b).1,
    decreases b - a,
{
    lemma_layout_progress(m, a);
    lemma_layout_progress(m, (b - 1) as nat);
    lemma_layout_progress(m, b);
    if a + 1 < b {
        lemma_measure_ends_increase(m, a, (b - 1) as nat);
    }
}

/// At most one measure holds a beat.
pub proof fn lemma_holds_beat_unique(m: Breakpoints, b: real, n1: nat, n2: nat)
    requires
        breakpoints_wf(m),
        holds_beat(m, b, n1),
        holds_beat(m, b, n2),
    ensures
        n1 == n2,
{
    if n1 < n2 {
        lemma_measure_ends_increase(m, n1, n2);
    } else if n2 < n1 {
        lemma_measure_ends_increase(m, n2, n1);
    }
}

/// Ticks from a beat at or after the start of the measure that holds it stay
/// in the measure that holds them, never before its start, and open a measure
/// exactly where they fall on its start.
proof fn lemma_ticks_hold(m: Breakpoints, b: real, n: nat, k: nat)
    requires
        breakpoints_wf(m),
        holds_beat(m, b, n),
        measure(m, n).0 <= b,
    ensures
        holds_beat(m, tick_after(m, first_tick(m, b, n), k).beat, tick_after(m, first_tick(m, b, n), k).measure),
        measure(m, tick_after(m, first_tick(m, b, n), k).measure).0 <= tick_after(m, first_tick(m, b, n), k).beat,
        tick_after(m, first_tick(m, b, n), k) == first_tick(m, tick_after(m, first_tick(m, b, n), k).beat, tick_after(m, first_tick(m, b, n), k).measure),
    decreases k,
{
    if k > 0 {
        lemma_ticks_hold(m, b, n, (k - 1) as nat);
        let t = tick_after(m, first_tick(m, b, n), (k - 1) as nat);
        lemma_layout_progress(m, t.measure);
        lemma_layout_progress(m, t.measure + 1);
    }
}

proof fn lemma_ticks_from_zero(m: Breakpoints, k: nat)
    requires
        breakpoints_wf(m),
    ensures
        holds_beat(m, tick_after(m, first_tick(m, 0real, 0), k).beat, tick_after(m, first_tick(m, 0real, 0), k).measure),
        tick_after(m, first_tick(m, 0real, 0), k) == first_tick(m, tick_after(m, first_tick(m, 0real, 0), k).beat, tick_after(m, first_tick(m, 0real, 0), k).measure),
{
    lemma_layout_progress(m, 0);
    lemma_ticks_hold(m, 0real, 0, k);
}

/// From a start at or after beat 0, a tick is marked as opening a measure
/// exactly when it falls on the start of the measure that holds it.
pub proof fn lemma_first_opens_measure(measures: MeasureMap, b: real, n: nat, k: nat)
    requires
        measures.wf(),
        b >= 0real,
        holds_beat(measures.breakpoints(), b, n),
    ensures
        ({
            let m = measures.breakpoints();
            let t = tick_after(m, first_tick(m, b, n), k);
            &&& holds_beat(m, t.beat, t.measure)
            &&& t.first == (measure(m, t.measure).0 == t.beat)
        }),
{
    let m = measures.breakpoints();
    if n > 0 {
        lemma_layout_progress(m, (n - 1) as nat);
    } else {
        lemma_layout_progress(m, 0);
    }
    lemma_ticks_hold(m, b, n, k);
}

/// Ticks depend only on where they stand: the tick `j + k` steps after `t` is
/// the tick `k` steps after the tick `j` steps after `t`.
proof fn lemma_tick_after_add(m: Breakpoints, t: Tick, j: nat, k: nat)
    ensures
        tick_after(m, t, j + k) == tick_after(m, tick_after(m, t, j), k),
    decreases k,
{
    if k > 0 {
        lemma_tick_after_add(m, t, j, (k - 1) as nat);
        assert(tick_after(m, t, j + k) == tick_step(m, tick_after(m, t, (j + k - 1) as nat)));
    }
}

proof fn lemma_ticks_restart(m: Breakpoints, j: nat, n: nat, k: nat)
    requires
        breakpoints_wf(m),
        holds_beat(m, tick_after(m, first_tick(m, 0real, 0), j).beat, n),
    ensures
        tick_after(m, first_tick(m, tick_after(m, first_tick(m, 0real, 0), j).beat, n), k)
            == tick_after(m, first_tick(m, 0real, 0), j + k),
{
    let t0 = first_tick(m, 0real, 0);
    let tj = tick_after(m, t0, j);
    lemma_ticks_from_zero(m, j);
    lemma_holds_beat_unique(m, tj.beat, n, tj.measure);
    lemma_tick_after_add(m, t0, j, k);
}

/// A measure that ends at or before beat `b` is one of the first
/// `m.len() + floor(b / shortest length) + 1` measures.
proof fn lemma_measures_before(m: Breakpoints, n: nat, b: real)
    requires
        breakpoints_wf(m),
        measure(m, n).1 <= b,
    ensures
        n < m.len() + (b / min_length(m, 0)).floor() + 1,
{
    lemma_min_length(m, 0);
    lemma_layout_progress(m, n);
    let mn = min_length(m, 0);
    let y = n - layout_state(m, n).next;
    assert(y as real * mn < b);
    assert((y as real) < b / mn) by (nonlinear_arith)
        requires
            y as real * mn < b,
            mn > 0real,
    ;
}

/// The duration of a beat between tempo breakpoints `idx - 1` and `idx`.
fn region_beat_length(bpms: &TempoMap, idx: usize) -> (r: Rational)
    requires
        bpms.wf(),
        idx <= bpms.entries@.len(),
    ensures
        r.wf(),
        r.value() == region_rate(bpms.segments(), idx as int),
{
    let ghost s = bpms.segments();
    if bpms.entries.len() == 0 {
        let half = Rational::new(1, 2);
        proof {
            assert(crate::rational::frac(1, 2) == 1real / 2real);
        }
        half
    } else if idx == 0 {
        assert(s[0].1 == bpms.entries@[0].1.seconds_per_beat());
        bpms.entries[0].1.beat_length()
    } else {
        assert(s[idx - 1].1 == bpms.entries@[idx - 1].1.seconds_per_beat());
        bpms.entries[idx - 1].1.beat_length()
    }
}

/// Moves the clock from `beat`, which sounds at `time` and lies before tempo
/// breakpoint `idx`, to the later beat `target`, crossing the tempo
/// breakpoints in between one segment at a time. Returns the breakpoint
/// before which `target` lies and the time at which it sounds.
fn advance_time(offset: &Rational, bpms: &TempoMap, idx: usize, beat: &BeatPosition, time: &Rational, target: &BeatPosition) -> (r: (usize, Rational))
    requires
        offset.wf(),
        bpms.wf(),
        beat.wf(),
        time.wf(),
        target.wf(),
        in_region(bpms.segments(), idx as int, beat.value()),
        time.value() == time_at(offset.value(), bpms.segments(), beat.value()),
        beat.value() <= target.value(),
    ensures
        r.1.wf(),
        r.1.value() == time_at(offset.value(), bpms.segments(), target.value()),
        in_region(bpms.segments(), r.0 as int, target.value()),
{
    let ghost s = bpms.segments();
    let n = bpms.entries.len();
    let mut idx = idx;
    let mut cur_beat = beat.copy();
    let mut cur_time = time.copy();
    while idx < n && bpms.entries[idx].0.lt(target)
        invariant
            bpms.wf(),
            offset.wf(),
            target.wf(),
            s == bpms.segments(),
            n == s.len(),
            cur_beat.wf(),
            cur_time.wf(),
            in_region(s, idx as int, cur_beat.value()),
            cur_time.value() == time_at(offset.value(), s, cur_beat.value()),
            cur_beat.value() <= target.value(),
        decreases n - idx,
    {
        let key = &bpms.entries[idx].0;
        assert(s[idx as int].0 == key.value());
        if idx > 0 {
            assert(s[idx - 1].0 < s[idx as int].0);
        }
        if idx + 1 < n {
            assert(s[idx as int].0 < s[idx + 1].0);
        }
        let rate = region_beat_length(bpms, idx);
        let span = key.distance_from(&cur_beat);
        let d = span.0.mul(&rate);
        proof {
            lemma_time_at_in_region(offset.value(), s, idx as int, cur_beat.value(), key.value());
        }
        cur_time = cur_time.add(&d);
        cur_beat = key.copy();
        idx = idx + 1;
    }
    if idx < n {
        assert(s[idx as int].0 == bpms.entries@[idx as int].0.value());
    }
    let rate = region_beat_length(bpms, idx);
    let span = target.distance_from(&cur_beat);
    let d = span.0.mul(&rate);
    proof {
        lemma_time_at_in_region(offset.value(), s, idx as int, cur_beat.value(), target.value());
    }
    (idx, cur_time.add(&d))
}

/// The metronome's ticks from a given beat on, each as `(opens a measure,
/// time in seconds)`.
pub struct BeatTimeIter {
    pub offset: Rational,
    pub bpms: TempoMap,
    /// Positioned just after the measure that holds the current beat.
    pub measures: MeasureIter,
    pub measure_end: BeatPosition,
    pub beat: BeatPosition,
    pub first: bool,
    pub time: Rational,
    /// The tempo breakpoint that comes next: the current beat lies before it.
    pub next_bpm: usize,
    /// The first tick handed out.
    pub origin: Ghost<Tick>,
    /// How many ticks have been handed out.
    pub count: Ghost<nat>,
}

impl BeatTimeIter {
    pub open spec fn breakpoints(self) -> Breakpoints {
        self.measures.map.breakpoints()
    }

    /// Tick `k`, counted from the first one handed out.
    pub open spec fn tick(self, k: nat) -> Tick {
        tick_after(self.breakpoints(), self.origin@, k)
    }

    /// The time at which tick `k` sounds.
    pub open spec fn tick_time(self, k: nat) -> real {
        time_at(self.offset.value(), self.bpms.segments(), self.tick(k).beat)
    }

    pub open spec fn wf(self) -> bool {
        &&& self.offset.wf()
        &&& self.bpms.wf()
        &&& self.measures.wf()
        &&& self.beat.wf()
        &&& self.measure_end.wf()
        &&& self.time.wf()
        &&& self.tick(self.count@).beat == self.beat.value()
        &&& self.tick(self.count@).first == self.first
        &&& self.tick(self.count@).measure + 1 == self.measures.count@
        &&& measure(self.breakpoints(), self.tick(self.count@).measure).1 == self.measure_end.value()
        &&& self.time.value() == self.tick_time(self.count@)
        &&& in_region(self.bpms.segments(), self.next_bpm as int, self.beat.value())
        &&& self.beat.value() < self.measure_end.value()
    }

    /// The next tick as `(opens a measure, time)`.
    pub fn next(&mut self) -> (r: (bool, Rational))
        requires
            old(self).wf(),
        ensures
            final(self).wf(),
            final(self).origin == old(self).origin,
            final(self).measures.map == old(self).measures.map,
            final(self).offset == old(self).offset,
            final(self).bpms == old(self).bpms,
            r.0 == old(self).tick(old(self).count@).first,
            r.1.wf(),
            r.1.value() == old(self).tick_time(old(self).count@),
            final(self).count@ == old(self).count@ + 1,
    {
        let ghost m = self.breakpoints();
        let ghost t = self.tick(self.count@);
        let next_in_measure = self.beat.add(&BeatLength::one());
        let advance = self.measure_end.le(&next_in_measure);
        let next_beat = if advance {
            self.measure_end.copy()
        } else {
            next_in_measure
        };
        proof {
            lemma_layout_progress(m, t.measure);
            lemma_layout_progress(m, t.measure + 1);
        }
        let (next_bpm, next_time) = advance_time(&self.offset, &self.bpms, self.next_bpm, &self.beat, &self.time, &next_beat);
        proof {
            assert(self.tick((self.count@ + 1) as nat) == tick_step(m, t));
        }
        if advance {
            let (_, end) = self.measures.next();
            self.measure_end = end;
        }
        let first = self.first;
        self.beat = next_beat;
        self.first = advance;
        let time = self.time.copy();
        self.time = next_time;
        self.next_bpm = next_bpm;
        self.count = Ghost((self.count@ + 1) as nat);
        (first, time)
    }
}

/// The metronome's ticks from beat `start_beat` on, for a score whose beat 0
/// sounds at `offset`: an endless sequence that starts anew with every call.
pub fn iterate_beat_times(offset: Rational, measures: MeasureMap, bpms: TempoMap, start_beat: BeatPosition) -> (r: BeatTimeIter)
    requires
        offset.wf(),
        measures.wf(),
        bpms.wf(),
        start_beat.wf(),
    ensures
        r.wf(),
        r.count@ == 0,
        r.offset == offset,
        r.bpms == bpms,
        r.measures.map == measures,
        holds_beat(measures.breakpoints(), start_beat.value(), r.origin@.measure),
        r.origin@ == first_tick(measures.breakpoints(), start_beat.value(), r.origin@.measure),
{
    let ghost m = measures.breakpoints();
    let ghost map = measures;
    let time = beat_to_time(&offset, &bpms, &start_beat);
    let mut it = iterate_measures(measures);
    let mut cur = it.next();
    let ghost bound = m.len() + (start_beat.value() / min_length(m, 0)).floor() + 2;
    while cur.1.le(&start_beat)
        invariant
            it.wf(),
            it.map == map,
            m == map.breakpoints(),
            it.count@ >= 1,
            cur.0.wf(),
            cur.1.wf(),
            (cur.0.value(), cur.1.value()) == measure(m, (it.count@ - 1) as nat),
            it.count@ == 1 || measure(m, (it.count@ - 2) as nat).1 <= start_beat.value(),
            breakpoints_wf(m),
            start_beat.wf(),
            bound == m.len() + (start_beat.value() / min_length(m, 0)).floor() + 2,
        decreases bound - it.count@,
    {
        proof {
            lemma_measures_before(m, (it.count@ - 1) as nat, start_beat.value());
        }
        cur = it.next();
    }
    let ghost n = (it.count@ - 1) as nat;
    let first = cur.0.le(&start_beat) && start_beat.le(&cur.0);
    let ghost s = bpms.segments();
    let mut next_bpm: usize = 0;
    while next_bpm < bpms.entries.len() && bpms.entries[next_bpm].0.le(&start_beat)
        invariant
            bpms.wf(),
            start_beat.wf(),
            s == bpms.segments(),
            next_bpm <= s.len(),
            next_bpm > 0 ==> s[next_bpm - 1].0 <= start_beat.value(),
        decreases bpms.entries@.len() - next_bpm,
    {
        assert(s[next_bpm as int].0 == bpms.entries@[next_bpm as int].0.value());
        next_bpm = next_bpm + 1;
    }
    if next_bpm < bpms.entries.len() {
        assert(s[next_bpm as int].0 == bpms.entries@[next_bpm as int].0.value());
    }
    let ghost origin = first_tick(m, start_beat.value(), n);
    assert(tick_after(m, origin, 0) == origin);
    BeatTimeIter {
        offset,
        bpms,
        measures: it,
        measure_end: cur.1,
        beat: start_beat,
        first,
        time,
        next_bpm,
        origin: Ghost(first_tick(m, start_beat.value(), n)),
        count: Ghost(0),
    }
}

/// Starting the metronome in the middle of the score, at the beat of its tick
/// `j` when started at beat 0, gives the same ticks, at the same times, as
/// starting at beat 0 and skipping the first `j` ticks. (Measure `n` is the
/// one that holds that beat, as `iterate_beat_times` finds it.)
pub proof fn lemma_start_mid_score(offset: Rational, measures: MeasureMap, bpms: TempoMap, j: nat, n: nat, k: nat)
    requires
        offset.wf(),
        measures.wf(),
        bpms.wf(),
        holds_beat(measures.breakpoints(), tick_after(measures.breakpoints(), first_tick(measures.breakpoints(), 0real, 0), j).beat, n),
    ensures
        ({
            let m = measures.breakpoints();
            let from_zero = tick_after(m, first_tick(m, 0real, 0), j + k);
            let from_mid = tick_after(m, first_tick(m, tick_after(m, first_tick(m, 0real, 0), j).beat, n), k);
            &&& from_mid == from_zero
            &&& time_at(offset.value(), bpms.segments(), from_mid.beat) == time_at(offset.value(), bpms.segments(), from_zero.beat)
        }),
{
    lemma_ticks_restart(measures.breakpoints(), j, n, k);
}

/// Measures follow one another without gaps, each of positive length: measure
/// `n + 1` starts where measure `n` ends, and the first starts at beat 0.
pub proof fn lemma_measures_contiguous(measures: MeasureMap, n: nat)
    requires
        measures.wf(),
    ensures
        measure(measures.breakpoints(), 0).0 == 0real,
        measure(measures.breakpoints(), n).0 < measure(measures.breakpoints(), n).1,
        measure(measures.breakpoints(), n + 1).0 == measure(measures.breakpoints(), n).1,
{
    lemma_layout_progress(measures.breakpoints(), n);
}

/// Every breakpoint that the layout passes is a measure boundary: where
/// measure `n` passes breakpoint `j`, the breakpoint's beat is the start of
/// measure `n` or of measure `n + 1`.
pub proof fn lemma_breakpoint_is_boundary(measures: MeasureMap, n: nat, j: int)
    requires
        measures.wf(),
        layout_state(measures.breakpoints(), n).next <= j < layout_state(measures.breakpoints(), n + 1).next,
    ensures
        measures.breakpoints()[j].0 == measure(measures.breakpoints(), n).0
            || measures.breakpoints()[j].0 == measure(measures.breakpoints(), n + 1).0,
{
    let m = measures.breakpoints();
    lemma_layout_progress(m, n);
    lemma_layout_progress(m, n + 1);
    let st = layout_state(m, n);
    assert(layout_state(m, n + 1) == layout_step(m, st).1);
}

/// Between breakpoints the measures are regular: from a measure that no
/// breakpoint starts, while the next breakpoint lies at least `r` lengths
/// ahead, the next `r` measures each have the current length.
pub proof fn lemma_regular_measures(measures: MeasureMap, n: nat, r: nat)
    requires
        measures.wf(),
        ({
            let m = measures.breakpoints();
            let st = layout_state(m, n);
            st.next < m.len() ==> m[st.next].0 > st.start && m[st.next].0 >= st.start + (r as real) * st.length
        }),
    ensures
        ({
            let m = measures.breakpoints();
            let st = layout_state(m, n);
            layout_state(m, n + r) == (LayoutState { start: st.start + (r as real) * st.length, ..st })
        }),
    decreases r,
{
    let m = measures.breakpoints();
    let st = layout_state(m, n);
    lemma_layout_progress(m, n);
    lemma_min_length(m, 0);
    if r == 0 {
        assert(0 as real * st.length == 0real) by (nonlinear_arith);
    } else {
        let q = (r - 1) as nat;
        lemma_mul_step(q as int, st.length);
        assert((q as real) * st.length <= (r as real) * st.length);
        lemma_regular_measures(measures, n, q);
        let prev = layout_state(m, n + q);
        assert(layout_state(m, n + r) == layout_step(m, prev).1);
    }
}

/// Every tick lies in the measure that holds it.
proof fn lemma_ticks_stay_held(m: Breakpoints, b: real, n: nat, k: nat)
    requires
        breakpoints_wf(m),
        holds_beat(m, b, n),
    ensures
        holds_beat(m, tick_after(m, first_tick(m, b, n), k).beat, tick_after(m, first_tick(m, b, n), k).measure),
    decreases k,
{
    if k > 0 {
        lemma_ticks_stay_held(m, b, n, (k - 1) as nat);
        let t = tick_after(m, first_tick(m, b, n), (k - 1) as nat);
        lemma_layout_progress(m, t.measure);
        lemma_layout_progress(m, t.measure + 1);
    }
}

/// Each tick comes strictly after the one before it, by at most one beat,
/// and so sounds strictly later: the metronome's schedule is ordered.
pub proof fn lemma_tick_times_increase(offset: Rational, measures: MeasureMap, bpms: TempoMap, b: real, n: nat, k: nat)
    requires
        offset.wf(),
        measures.wf(),
        bpms.wf(),
        holds_beat(measures.breakpoints(), b, n),
    ensures
        ({
            let m = measures.breakpoints();
            let t0 = tick_after(m, first_tick(m, b, n), k);
            let t1 = tick_after(m, first_tick(m, b, n), k + 1);
            &&& t0.beat < t1.beat <= t0.beat + 1real
            &&& time_at(offset.value(), bpms.segments(), t0.beat) < time_at(offset.value(), bpms.segments(), t1.beat)
        }),
{
    let m = measures.breakpoints();
    lemma_ticks_stay_held(m, b, n, k);
    let t0 = tick_after(m, first_tick(m, b, n), k);
    assert(tick_after(m, first_tick(m, b, n), k + 1) == tick_step(m, t0));
    lemma_time_at_strictly_increasing(offset.value(), bpms.segments(), t0.beat, tick_step(m, t0).beat);
}

} // verus!
