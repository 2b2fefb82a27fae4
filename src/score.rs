//! The score: tracks of notes and rests, lyrics, and the tempo and measure maps.
use crate::measures::MeasureMap;
use crate::rational::Rational;
use crate::schema::BeatLength;
use crate::schema::BeatPosition;
use crate::tempo::beat_to_time;
use crate::tempo::time_at;
use crate::tempo::time_to_beat;
use crate::tempo::beat_at;
use crate::tempo::TempoMap;
use vstd::prelude::*;

verus! {

/// What an element of a track does.
#[derive(Clone, Copy, Debug, PartialEq, Eq, Structural)]
pub enum ScoreElementKind {
    /// Starts a note.
    Start,
    /// A rest.
    Stop,
    /// Holds the note before it.
    Skip,
}

/// One element of a track and how long it lasts.
#[derive(Clone, Debug, PartialEq)]
pub struct ScoreElement {
    pub kind: ScoreElementKind,
    pub length: BeatLength,
}

/// The lyrics of a track: the text, and which part of it goes to which notes.
#[derive(Clone, Debug)]
pub struct Lyrics {
    pub text: String,
    /// `((first note, last note), characters)` entries.
    pub mappings: Vec<((usize, usize), usize)>,
}

/// A sequence of elements starting at a beat.
#[derive(Clone, Debug)]
pub struct Track {
    pub start_beat: BeatPosition,
    pub elements: Vec<ScoreElement>,
    pub lyrics: Option<Lyrics>,
}

/// The beat at which element `i` starts: `start` plus the lengths before it.
pub open spec fn element_beat(start: real, els: Seq<ScoreElement>, i: int) -> real
    decreases i,
{
    if i <= 0 {
        start
    } else {
        element_beat(start, els, i - 1) + els[i - 1].length.value()
    }
}

/// The first index from `i` on that does not hold a note (is not a `Skip`).
pub open spec fn hold_end(els: Seq<ScoreElement>, i: int) -> int
    decreases els.len() - i,
{
    if 0 <= i < els.len() && els[i].kind == ScoreElementKind::Skip {
        hold_end(els, i + 1)
    } else {
        i
    }
}

/// The notes from element `i` on, as `(first element, element after the
/// note)`: each `Start` with the `Skip`s that follow it.
pub open spec fn notes_from(els: Seq<ScoreElement>, i: int) -> Seq<(int, int)>
    decreases els.len() - i,
{
    if i < 0 || i >= els.len() {
        Seq::empty()
    } else if els[i].kind == ScoreElementKind::Start {
        let e = hold_end(els, i + 1);
        if i < e <= els.len() {
            seq![(i, e)] + notes_from(els, e)
        } else {
            Seq::empty()
        }
    } else {
        notes_from(els, i + 1)
    }
}

proof fn lemma_hold_end_bounds(els: Seq<ScoreElement>, i: int)
    requires
        0 <= i <= els.len(),
    ensures
        i <= hold_end(els, i) <= els.len(),
    decreases els.len() - i,
{
    if i < els.len() && els[i].kind == ScoreElementKind::Skip {
        lemma_hold_end_bounds(els, i + 1);
    }
}

impl Track {
    pub open spec fn wf(self) -> bool {
        &&& self.start_beat.wf()
        &&& forall|i: int| 0 <= i < self.elements@.len() ==> (#[trigger] self.elements@[i]).length.wf()
    }

    pub fn start_beat(&self) -> (r: &BeatPosition)
        ensures
            *r == self.start_beat,
    {
        &self.start_beat
    }

    /// The beat at which the last element ends.
    pub fn end_beat(&self) -> (r: BeatPosition)
        requires
            self.wf(),
        ensures
            r.wf(),
            r.value() == element_beat(self.start_beat.value(), self.elements@, self.elements@.len() as int),
    {
        let mut beat = self.start_beat.copy();
        let mut i: usize = 0;
        while i < self.elements.len()
            invariant
                self.wf(),
                i <= self.elements@.len(),
                beat.wf(),
                beat.value() == element_beat(self.start_beat.value(), self.elements@, i as int),
            decreases self.elements@.len() - i,
        {
            beat = beat.add(&self.elements[i].length);
            i = i + 1;
        }
        beat
    }

    /// The notes of the track as `(start, end, element that starts it)`: each
    /// `Start` element together with the `Skip` elements that follow it.
    pub fn iterate_notes(&self) -> (r: Vec<(BeatPosition, BeatPosition, ScoreElement)>)
        requires
            self.wf(),
        ensures
            ({
                let notes = notes_from(self.elements@, 0);
                let start = self.start_beat.value();
                &&& r@.len() == notes.len()
                &&& forall|k: int| 0 <= k < r@.len() ==> {
                    &&& (#[trigger] r@[k]).0.value() == element_beat(start, self.elements@, notes[k].0)
                    &&& r@[k].1.value() == element_beat(start, self.elements@, notes[k].1)
                    &&& r@[k].2.kind == self.elements@[notes[k].0].kind
                    &&& r@[k].2.length.value() == self.elements@[notes[k].0].length.value()
                }
            }),
    {
        let ghost els = self.elements@;
        let ghost start = self.start_beat.value();
        let n = self.elements.len();
        let mut out: Vec<(BeatPosition, BeatPosition, ScoreElement)> = Vec::new();
        let ghost mut found: Seq<(int, int)> = Seq::empty();
        let mut beat = self.start_beat.copy();
        let mut i: usize = 0;
        while i < n
            invariant
                self.wf(),
                els == self.elements@,
                start == self.start_beat.value(),
                n == els.len(),
                i <= n,
                beat.wf(),
                beat.value() == element_beat(start, els, i as int),
                notes_from(els, 0) == found + notes_from(els, i as int),
                out@.len() == found.len(),
                forall|k: int| 0 <= k < out@.len() ==> {
                    &&& (#[trigger] out@[k]).0.value() == element_beat(start, els, found[k].0)
                    &&& out@[k].1.value() == element_beat(start, els, found[k].1)
                    &&& out@[k].2.kind == els[found[k].0].kind
                    &&& out@[k].2.length.value() == els[found[k].0].length.value()
                },
            decreases n - i,
        {
            let el = &self.elements[i];
            if el.kind == ScoreElementKind::Start {
                let ghost first = i as int;
                let note_beat = beat.copy();
                beat = beat.add(&el.length);
                i = i + 1;
                proof {
                    lemma_hold_end_bounds(els, i as int);
                }
                while i < n && self.elements[i].kind == ScoreElementKind::Skip
                    invariant
                        self.wf(),
                        els == self.elements@,
                        n == els.len(),
                        first < i <= n,
                        beat.wf(),
                        beat.value() == element_beat(start, els, i as int),
                        hold_end(els, i as int) == hold_end(els, first + 1),
                        start == self.start_beat.value(),
                        note_beat.value() == element_beat(start, els, first),
                        *el == els[first],
                        0 <= first,
                        out@.len() == found.len(),
                        forall|k: int| 0 <= k < out@.len() ==> (#[trigger] out@[k]).0.value() == element_beat(start, els, found[k].0),
                        forall|k: int| 0 <= k < out@.len() ==> (#[trigger] out@[k]).1.value() == element_beat(start, els, found[k].1),
                        forall|k: int| 0 <= k < out@.len() ==> (#[trigger] out@[k]).2.kind == els[found[k].0].kind
                            && out@[k].2.length.value() == els[found[k].0].length.value(),
                    decreases n - i,
                {
                    beat = beat.add(&self.elements[i].length);
                    i = i + 1;
                }
                proof {
                    lemma_hold_end_bounds(els, first + 1);
                    assert(notes_from(els, first) == seq![(first, i as int)] + notes_from(els, i as int));
                    found = found.push((first, i as int));
                    assert(notes_from(els, 0) == found + notes_from(els, i as int));
                }
                let note = ScoreElement { kind: el.kind, length: el.length.copy() };
                let end = beat.copy();
                out.push((note_beat, end, note));
            } else {
                beat = beat.add(&el.length);
                i = i + 1;
            }
        }
        proof {
            assert(found + notes_from(els, n as int) == found);
        }
        out
    }
}

/// A score: its tracks, its measure and tempo maps, and when beat 0 sounds.
#[derive(Clone, Debug)]
pub struct Score {
    pub tracks: Vec<Track>,
    pub measure_lengths: MeasureMap,
    pub bpms: TempoMap,
    /// The time in seconds at which beat 0 sounds.
    pub offset: Rational,
    pub lyrics: String,
    pub font_file: String,
}

impl Score {
    pub open spec fn wf(self) -> bool {
        self.measure_lengths.wf() && self.bpms.wf() && self.offset.wf()
    }

    /// An empty score that renders its lyrics with `font_file`.
    pub fn new(font_file: String) -> (r: Score)
        ensures
            r.wf(),
            r.tracks@.len() == 0,
            r.measure_lengths.entries@.len() == 0,
            r.bpms.entries@.len() == 0,
            r.offset.value() == 0real,
            r.font_file@ == font_file@,
    {
        Score {
            tracks: Vec::new(),
            measure_lengths: MeasureMap::new(),
            bpms: TempoMap::new(),
            offset: Rational::from_integer(0),
            lyrics: String::new(),
            font_file,
        }
    }

    /// The time in seconds at which beat `pos` sounds.
    pub fn beat_to_time(&self, pos: &BeatPosition) -> (r: Rational)
        requires
            self.wf(),
            pos.wf(),
        ensures
            r.wf(),
            r.value() == time_at(self.offset.value(), self.bpms.segments(), pos.value()),
    {
        beat_to_time(&self.offset, &self.bpms, pos)
    }

    /// The beat that sounds at `time` seconds.
    pub fn time_to_beat(&self, time: &Rational) -> (r: Rational)
        requires
            self.wf(),
            time.wf(),
        ensures
            r.wf(),
            r.value() == beat_at(self.offset.value(), self.bpms.segments(), time.value()),
    {
        time_to_beat(&self.offset, &self.bpms, time)
    }
}

} // verus!
