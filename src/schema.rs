//! Beat positions, beat lengths, tempos and measure lengths.
use crate::rational::frac;
use crate::rational::Rational;
use vstd::prelude::*;

verus! {

/// A position in the score, in beats from its start.
#[derive(Clone, Debug, PartialEq)]
pub struct BeatPosition(pub Rational);

/// A distance between two beat positions, in beats.
#[derive(Clone, Debug, PartialEq)]
pub struct BeatLength(pub Rational);

impl BeatPosition {
    pub open spec fn wf(self) -> bool {
        self.0.wf()
    }

    pub open spec fn value(self) -> real {
        self.0.value()
    }

    /// The start of the score.
    pub fn zero() -> (r: BeatPosition)
        ensures
            r.wf(),
            r.value() == 0real,
    {
        BeatPosition(Rational::from_integer(0))
    }

    /// The beat `n`.
    pub fn from_integer(n: i64) -> (r: BeatPosition)
        ensures
            r.wf(),
            r.value() == n as real,
    {
        BeatPosition(Rational::from_integer(n))
    }

    /// A copy of the same position.
    pub fn copy(&self) -> (r: BeatPosition)
        ensures
            r.wf() == self.wf(),
            r.value() == self.value(),
    {
        BeatPosition(self.0.copy())
    }

    /// `self + len`.
    pub fn add(&self, len: &BeatLength) -> (r: BeatPosition)
        requires
            self.wf(),
            len.wf(),
        ensures
            r.wf(),
            r.value() == self.value() + len.value(),
    {
        BeatPosition(self.0.add(&len.0))
    }

    /// `self - len`.
    pub fn sub(&self, len: &BeatLength) -> (r: BeatPosition)
        requires
            self.wf(),
            len.wf(),
        ensures
            r.wf(),
            r.value() == self.value() - len.value(),
    {
        BeatPosition(self.0.sub(&len.0))
    }

    /// The distance `self - from`.
    pub fn distance_from(&self, from: &BeatPosition) -> (r: BeatLength)
        requires
            self.wf(),
            from.wf(),
        ensures
            r.wf(),
            r.value() == self.value() - from.value(),
    {
        BeatLength(self.0.sub(&from.0))
    }

    /// `self <= o`.
    pub fn le(&self, o: &BeatPosition) -> (r: bool)
        requires
            self.wf(),
            o.wf(),
        ensures
            r == (self.value() <= o.value()),
    {
        self.0.le(&o.0)
    }

    /// `self < o`.
    pub fn lt(&self, o: &BeatPosition) -> (r: bool)
        requires
            self.wf(),
            o.wf(),
        ensures
            r == (self.value() < o.value()),
    {
        self.0.lt(&o.0)
    }
}

impl BeatLength {
    pub open spec fn wf(self) -> bool {
        self.0.wf()
    }

    pub open spec fn value(self) -> real {
        self.0.value()
    }

    /// One beat.
    pub fn one() -> (r: BeatLength)
        ensures
            r.wf(),
            r.value() == 1real,
    {
        BeatLength(Rational::from_integer(1))
    }

    /// Four beats, the default length of a measure.
    pub fn four() -> (r: BeatLength)
        ensures
            r.wf(),
            r.value() == 4real,
    {
        BeatLength(Rational::from_integer(4))
    }

    /// A copy of the same length.
    pub fn copy(&self) -> (r: BeatLength)
        ensures
            r.wf() == self.wf(),
            r.value() == self.value(),
    {
        BeatLength(self.0.copy())
    }

    /// `self * n`.
    pub fn mul_int(&self, n: i64) -> (r: BeatLength)
        requires
            self.wf(),
        ensures
            r.wf(),
            r.value() == self.value() * (n as real),
    {
        BeatLength(self.0.mul(&Rational::from_integer(n)))
    }
}

/// The length of a measure as a time signature `numerator / denominator`:
/// `3/4` is three beats, `6/8` is three beats, `4/4` is four.
#[derive(Clone, Copy, Debug, PartialEq)]
pub struct MeasureLength {
    pub numerator: i64,
    pub denominator: i64,
}

impl MeasureLength {
    /// A measure length that encloses a positive number of beats.
    pub open spec fn wf(self) -> bool {
        self.numerator > 0 && self.denominator > 0
    }

    /// Its length in beats.
    pub open spec fn beats(self) -> real {
        4real * frac(self.numerator as int, self.denominator as int)
    }

    pub fn new(numerator: i64, denominator: i64) -> (r: MeasureLength)
        ensures
            r.numerator == numerator,
            r.denominator == denominator,
    {
        MeasureLength { numerator, denominator }
    }

    /// The common time signature `4/4`.
    pub fn four() -> (r: MeasureLength)
        ensures
            r.wf(),
            r.beats() == 4real,
    {
        let r = MeasureLength { numerator: 4, denominator: 4 };
        assert(frac(4, 4) == 1real) by (nonlinear_arith);
        r
    }

    /// Its length in beats.
    pub fn beat_length(&self) -> (r: BeatLength)
        requires
            self.wf(),
        ensures
            r.wf(),
            r.value() == self.beats(),
            r.value() > 0real,
    {
        let q = Rational::new(self.numerator, self.denominator);
        let p = q.mul(&Rational::from_integer(4));
        assert(q.value() > 0real) by (nonlinear_arith)
            requires
                q.value() == frac(self.numerator as int, self.denominator as int),
                self.numerator > 0,
                self.denominator > 0,
        ;
        BeatLength(p)
    }
}

/// A tempo in beats per minute.
#[derive(Clone, Debug, PartialEq)]
pub struct Bpm(pub Rational);

impl Bpm {
    /// A positive tempo.
    pub open spec fn wf(self) -> bool {
        self.0.wf() && self.0.value() > 0real
    }

    /// The duration of one beat in seconds.
    pub open spec fn seconds_per_beat(self) -> real {
        60real / self.0.value()
    }

    /// The tempo `n` beats per minute.
    pub fn from_integer(n: i64) -> (r: Bpm)
        ensures
            r.0.wf(),
            r.0.value() == n as real,
    {
        Bpm(Rational::from_integer(n))
    }

    /// 120 beats per minute, the tempo of a score without tempo marks.
    pub fn default_tempo() -> (r: Bpm)
        ensures
            r.wf(),
            r.0.value() == 120real,
    {
        Bpm(Rational::from_integer(120))
    }

    /// A copy of the same tempo.
    pub fn copy(&self) -> (r: Bpm)
        ensures
            r.wf() == self.wf(),
            r.seconds_per_beat() == self.seconds_per_beat(),
            r.0.value() == self.0.value(),
    {
        Bpm(self.0.copy())
    }

    /// The duration of one beat in seconds.
    pub fn beat_length(&self) -> (r: Rational)
        requires
            self.wf(),
        ensures
            r.wf(),
            r.value() == self.seconds_per_beat(),
            r.value() > 0real,
    {
        let r = Rational::from_integer(60).div(&self.0);
        proof {
            let v = self.0.value();
            assert(60real / v > 0real) by (nonlinear_arith)
                requires
                    v > 0real,
            ;
        }
        r
    }
}

} // verus!
