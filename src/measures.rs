//! The measure map and the endless sequence of measures it lays out.
//!
//! The first measure starts at beat 0 and is four beats long. A breakpoint
//! `(beat, length)` changes the measure length from `beat` on: a breakpoint at
//! the start of a measure gives that measure its length; one that falls
//! strictly inside a measure cuts the measure short there, and the next
//! measure starts at the breakpoint with the new length. Breakpoints lie at or
//! after beat 0.
use crate::keyed::has_key;
use crate::keyed::insert_at_key;
use crate::keyed::keys_increasing;
use crate::keyed::last_at_or_before;
use crate::keyed::remove_key;
use crate::schema::BeatLength;
use crate::schema::BeatPosition;
use crate::schema::MeasureLength;
use vstd::prelude::*;

verus! {

/// Measure-length breakpoints, ordered by beat, with each length in beats.
#[derive(Clone, Debug)]
pub struct MeasureMap {
    pub entries: Vec<(BeatPosition, BeatLength)>,
}

/// The breakpoints of a measure map as `(beat, length in beats)` pairs.
pub type Breakpoints = Seq<(real, real)>;

/// Breakpoints at or after beat 0 in strictly increasing beat order, each with
/// a positive length.
pub open spec fn breakpoints_wf(m: Breakpoints) -> bool {
    &&& forall|i: int| 0 <= i < m.len() ==> #[trigger] m[i].1 > 0real && m[i].0 >= 0real
    &&& forall|i: int, j: int| 0 <= i < j < m.len() ==> #[trigger] m[i].0 < #[trigger] m[j].0
}

/// Where the layout stands before a measure: its start, the length in force,
/// and the index of the next breakpoint not yet reached.
pub struct LayoutState {
    pub start: real,
    pub length: real,
    pub next: int,
}

/// The end of the measure that starts in state `st`, and the state after it.
/// A breakpoint at the start takes effect first; then a breakpoint inside the
/// measure, if any, ends it.
pub open spec fn layout_step(m: Breakpoints, st: LayoutState) -> (real, LayoutState) {
    let at_start = 0 <= st.next < m.len() && m[st.next].0 <= st.start;
    let length = if at_start {
        m[st.next].1
    } else {
        st.length
    };
    let next = if at_start {
        st.next + 1
    } else {
        st.next
    };
    if 0 <= next < m.len() && m[next].0 < st.start + length {
        (m[next].0, LayoutState { start: m[next].0, length: m[next].1, next: next + 1 })
    } else {
        (st.start + length, LayoutState { start: st.start + length, length, next })
    }
}

/// The state before measure `n`.
pub open spec fn layout_state(m: Breakpoints, n: nat) -> LayoutState
    decreases n,
{
    if n == 0 {
        LayoutState { start: 0real, length: 4real, next: 0 }
    } else {
        layout_step(m, layout_state(m, (n - 1) as nat)).1
    }
}

/// Measure `n` as `(start, end)`.
pub open spec fn measure(m: Breakpoints, n: nat) -> (real, real) {
    (layout_state(m, n).start, layout_step(m, layout_state(m, n)).0)
}

impl MeasureMap {
    pub open spec fn wf(self) -> bool {
        &&& forall|i: int|
            0 <= i < self.entries@.len() ==> (#[trigger] self.entries@[i]).0.wf()
                && self.entries@[i].1.wf()
        &&& breakpoints_wf(self.breakpoints())
    }

    pub open spec fn breakpoints(self) -> Breakpoints {
        self.entries@.map_values(|e: (BeatPosition, BeatLength)| (e.0.value(), e.1.value()))
    }

    proof fn lemma_keys(self)
        ensures
            self.wf() <==> (keys_increasing(self.entries@) && forall|i: int|
                0 <= i < self.entries@.len() ==> (#[trigger] self.entries@[i]).1.wf() && self.entries@[i].1.value() > 0real
                    && self.entries@[i].0.value() >= 0real),
    {
        let s = self.breakpoints();
        assert forall|i: int| 0 <= i < s.len() implies #[trigger] s[i] == (self.entries@[i].0.value(), self.entries@[i].1.value()) by {}
        if self.wf() {
            assert forall|i: int, j: int| 0 <= i < j < self.entries@.len() implies #[trigger] self.entries@[i].0.value() < #[trigger] self.entries@[j].0.value() by {
                assert(s[i].0 < s[j].0);
            }
            assert forall|i: int| 0 <= i < self.entries@.len() implies (#[trigger] self.entries@[i]).1.value() > 0real && self.entries@[i].0.value() >= 0real by {
                assert(s[i].1 > 0real && s[i].0 >= 0real);
            }
        }
        if keys_increasing(self.entries@) && forall|i: int| 0 <= i < self.entries@.len() ==> (#[trigger] self.entries@[i]).1.wf() && self.entries@[i].1.value() > 0real && self.entries@[i].0.value() >= 0real {
            assert forall|i: int, j: int| 0 <= i < j < s.len() implies #[trigger] s[i].0 < #[trigger] s[j].0 by {
                assert(self.entries@[i].0.value() < self.entries@[j].0.value());
            }
        }
    }

    /// Sets the measure length from beat `pos` on: replaces the breakpoint at
    /// `pos`, or adds one there. The score starts at beat 0, so `pos` lies at
    /// or after it.
    pub fn insert(&mut self, pos: BeatPosition, length: MeasureLength)
        requires
            old(self).wf(),
            pos.wf(),
            pos.value() >= 0real,
            length.wf(),
        ensures
            final(self).wf(),
            exists|k: int| 0 <= k < final(self).entries@.len() && (#[trigger] final(self).entries@[k]).0 == pos
                && final(self).entries@[k].1.value() == length.beats() && if has_key(old(self).entries@, pos.value()) {
                &&& old(self).entries@[k].0.value() == pos.value()
                &&& final(self).entries@ == old(self).entries@.update(k, final(self).entries@[k])
            } else {
                final(self).entries@ == old(self).entries@.insert(k, final(self).entries@[k])
            },
    {
        let len = length.beat_length();
        proof {
            self.lemma_keys();
        }
        let ghost pos_v = pos;
        let ghost len_v = len;
        let k = insert_at_key(&mut self.entries, pos, len);
        proof {
            let ghost o = old(self).entries@;
            if !has_key(o, pos_v.value()) {
                o.insert_ensures(k as int, (pos_v, len_v));
            }
            assert forall|i: int| 0 <= i < self.entries@.len() implies (#[trigger] self.entries@[i]).1.wf() && self.entries@[i].1.value() > 0real && self.entries@[i].0.value() >= 0real by {
                if i != k {
                    if has_key(o, pos_v.value()) {
                        assert(self.entries@[i] == o[i]);
                    } else if i < k {
                        assert(self.entries@[i] == o[i]);
                    } else {
                        assert(self.entries@[i] == o[i - 1]);
                    }
                }
            }
            self.lemma_keys();
            assert(self.entries@[k as int] == (pos_v, len_v));
        }
    }

    /// The breakpoint in force at `pos`: the last one at or before it. `None`
    /// where every breakpoint lies after `pos`.
    pub fn breakpoint_at(&self, pos: &BeatPosition) -> (r: Option<(BeatPosition, BeatLength)>)
        requires
            self.wf(),
            pos.wf(),
        ensures
            r is None <==> (self.entries@.len() == 0 || self.entries@[0].0.value() > pos.value()),
            r matches Some(e) ==> exists|i: int| 0 <= i < self.entries@.len() && e.0.value() == (#[trigger] self.entries@[i]).0.value()
                && e.1.value() == self.entries@[i].1.value() && e.0.wf() && e.1.wf()
                && e.0.value() <= pos.value() && (i + 1 == self.entries@.len() || self.entries@[i + 1].0.value() > pos.value()),
    {
        proof {
            self.lemma_keys();
        }
        match last_at_or_before(&self.entries, pos) {
            Some(i) => {
                let e = &self.entries[i];
                Some((e.0.copy(), e.1.copy()))
            },
            None => None,
        }
    }

    /// Removes the breakpoint at `pos`, if there is one.
    pub fn remove(&mut self, pos: BeatPosition) -> (r: bool)
        requires
            old(self).wf(),
            pos.wf(),
        ensures
            final(self).wf(),
            r == has_key(old(self).entries@, pos.value()),
            r ==> exists|i: int| 0 <= i < old(self).entries@.len() && (#[trigger] old(self).entries@[i]).0.value() == pos.value()
                && final(self).entries@ == old(self).entries@.remove(i),
            !r ==> final(self).entries@ == old(self).entries@,
    {
        proof {
            self.lemma_keys();
        }
        let r = remove_key(&mut self.entries, pos);
        proof {
            let ghost o = old(self).entries@;
            if let Some(k) = r {
                o.remove_ensures(k as int);
            }
            assert forall|i: int| 0 <= i < self.entries@.len() implies (#[trigger] self.entries@[i]).1.wf() && self.entries@[i].1.value() > 0real && self.entries@[i].0.value() >= 0real by {
                if let Some(k) = r {
                    if i >= k {
                        assert(self.entries@[i] == o[i + 1]);
                    } else {
                        assert(self.entries@[i] == o[i]);
                    }
                }
            }
            self.lemma_keys();
        }
        r.is_some()
    }

    /// The empty measure map: four beats to every measure.
    pub fn new() -> (r: MeasureMap)
        ensures
            r.wf(),
            r.entries@.len() == 0,
    {
        MeasureMap { entries: Vec::new() }
    }

    /// The measure map with these breakpoints, or `None` where their beats are
    /// not strictly increasing or one lies before beat 0.
    pub fn from_breakpoints(marks: Vec<(BeatPosition, MeasureLength)>) -> (r: Option<MeasureMap>)
        requires
            forall|i: int| 0 <= i < marks@.len() ==> (#[trigger] marks@[i]).0.wf() && marks@[i].1.wf(),
        ensures
            r matches Some(m) ==> m.wf() && m.entries@.len() == marks@.len() && forall|i: int|
                0 <= i < marks@.len() ==> (#[trigger] m.entries@[i]).0.value() == marks@[i].0.value()
                    && m.entries@[i].1.value() == marks@[i].1.beats(),
            r is None <==> exists|i: int| 0 <= i < marks@.len() && ((#[trigger] marks@[i]).0.value() < 0real
                || (i > 0 && marks@[i].0.value() <= marks@[i - 1].0.value())),
    {
        let n = marks.len();
        let mut entries: Vec<(BeatPosition, BeatLength)> = Vec::new();
        let mut i: usize = 0;
        while i < n
            invariant
                n == marks@.len(),
                i <= n,
                entries@.len() == i,
                forall|k: int| 0 <= k < marks@.len() ==> (#[trigger] marks@[k]).0.wf() && marks@[k].1.wf(),
                forall|k: int| 0 <= k < i ==> (#[trigger] entries@[k]).0.value() == marks@[k].0.value()
                    && entries@[k].0.wf() && entries@[k].1.wf() && marks@[k].0.value() >= 0real && entries@[k].1.value() == marks@[k].1.beats()
                    && entries@[k].1.value() > 0real,
                forall|a: int, b: int| 0 <= a < b < i ==> #[trigger] marks@[a].0.value() < #[trigger] marks@[b].0.value(),
            decreases n - i,
        {
            if i > 0 && marks[i].0.le(&marks[i - 1].0) {
                assert(0 <= i < marks@.len() && (i > 0 && marks@[i as int].0.value() <= marks@[i - 1].0.value()));
                return None;
            }
            if marks[i].0.lt(&BeatPosition::zero()) {
                assert(0 <= i < marks@.len() && marks@[i as int].0.value() < 0real);
                return None;
            }
            assert forall|a: int, b: int| 0 <= a < b < i + 1 implies #[trigger] marks@[a].0.value() < #[trigger] marks@[b].0.value() by {
                if b == i as int && a < i - 1 {
                    assert(marks@[a].0.value() < marks@[i - 1].0.value());
                }
            }
            let len = marks[i].1.beat_length();
            entries.push((marks[i].0.copy(), len));
            i = i + 1;
        }
        assert forall|k: int| 0 <= k < marks@.len() implies !((#[trigger] marks@[k]).0.value() < 0real || (k > 0 && marks@[k].0.value() <= marks@[k - 1].0.value())) by {
            assert(entries@[k].0.value() == marks@[k].0.value());
            if k > 0 {
                assert(marks@[k - 1].0.value() < marks@[k].0.value());
            }
        }
        let m = MeasureMap { entries };
        assert(m.wf()) by {
            assert forall|a: int| 0 <= a < m.entries@.len() implies (#[trigger] m.entries@[a]).0.wf() && m.entries@[a].1.wf() by {}
            assert forall|a: int, b: int| 0 <= a < b < m.breakpoints().len() implies #[trigger] m.breakpoints()[a].0 < #[trigger] m.breakpoints()[b].0 by {
                assert(m.breakpoints()[a].0 == marks@[a].0.value());
                assert(m.breakpoints()[b].0 == marks@[b].0.value());
            }
            assert forall|a: int| 0 <= a < m.breakpoints().len() implies #[trigger] m.breakpoints()[a].1 > 0real && m.breakpoints()[a].0 >= 0real by {
                assert(m.breakpoints()[a].1 == m.entries@[a].1.value());
                assert(m.breakpoints()[a].0 == marks@[a].0.value());
            }
        }
        Some(m)
    }
}

/// The measures of a measure map, one after another, without end.
pub struct MeasureIter {
    pub map: MeasureMap,
    pub start: BeatPosition,
    pub length: BeatLength,
    pub next: usize,
    /// How many measures have been handed out.
    pub count: Ghost<nat>,
}

impl MeasureIter {
    pub open spec fn wf(self) -> bool {
        &&& self.map.wf()
        &&& self.start.wf()
        &&& self.length.wf()
        &&& self.next <= self.map.entries@.len()
        &&& layout_state(self.map.breakpoints(), self.count@) == (LayoutState {
            start: self.start.value(),
            length: self.length.value(),
            next: self.next as int,
        })
    }

    /// The next measure as `(start, end)`.
    pub fn next(&mut self) -> (r: (BeatPosition, BeatPosition))
        requires
            old(self).wf(),
        ensures
            final(self).wf(),
            final(self).map == old(self).map,
            r.0.wf(),
            r.1.wf(),
            (r.0.value(), r.1.value()) == measure(old(self).map.breakpoints(), old(self).count@),
            final(self).count@ == old(self).count@ + 1,
    {
        let ghost m = self.map.breakpoints();
        let n = self.map.entries.len();
        let mut length = self.length.copy();
        let mut next = self.next;
        if next < n && self.map.entries[next].0.le(&self.start) {
            assert(m[next as int] == (self.map.entries@[next as int].0.value(), self.map.entries@[next as int].1.value()));
            length = self.map.entries[next].1.copy();
            next = next + 1;
        }
        let full = self.start.add(&length);
        let (end, length, next) = if next < n && self.map.entries[next].0.lt(&full) {
            let entry = &self.map.entries[next];
            assert(m[next as int] == (entry.0.value(), entry.1.value()));
            (entry.0.copy(), entry.1.copy(), next + 1)
        } else {
            (full, length, next)
        };
        let start = self.start.copy();
        self.start = end.copy();
        self.length = length;
        self.next = next;
        self.count = Ghost((self.count@ + 1) as nat);
        (start, end)
    }
}

/// The measures of `measures` from beat 0 on: an endless sequence that
/// starts anew with every call.
pub fn iterate_measures(measures: MeasureMap) -> (r: MeasureIter)
    requires
        measures.wf(),
    ensures
        r.wf(),
        r.map == measures,
        r.count@ == 0,
{
    MeasureIter {
        map: measures,
        start: BeatPosition::zero(),
        length: BeatLength::four(),
        next: 0,
        count: Ghost(0),
    }
}

} // verus!
