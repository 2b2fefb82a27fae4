use num_bigint::BigInt;
use num_rational::BigRational;
use num_traits::ToPrimitive;
use karaoke::beats::iterate_beat_times;
use karaoke::measures::MeasureMap;
use karaoke::rational::Rational;
use karaoke::schema::BeatPosition;
use karaoke::schema::Bpm;
use karaoke::schema::MeasureLength;
use karaoke::tempo::TempoMap;

fn bp(n: i64) -> BeatPosition {
    BeatPosition(Rational::from_integer(n))
}

fn bpm(n: i64) -> Bpm {
    Bpm(Rational::from_integer(n))
}

fn secs(x: f64) -> Rational {
    let scaled = (x * 1000.0).round() as i64;
    Rational::new(scaled, 1000)
}

fn ticks(
    offset: f64,
    measures: MeasureMap,
    bpms: TempoMap,
    start: BeatPosition,
    n: usize,
) -> Vec<(bool, f64)> {
    let mut it = iterate_beat_times(secs(offset), measures, bpms, start);
    (0..n)
        .map(|_| {
            let (first, t) = it.next();
            (first, seconds(&t))
        })
        .collect()
}

fn seconds(r: &Rational) -> f64 {
    let n = BigInt::from_signed_bytes_le(&r.num);
    let d = BigInt::from_signed_bytes_le(&r.den);
    BigRational::new(n, d).to_f64().unwrap()
}

fn three_four_at_16() -> MeasureMap {
    MeasureMap::from_breakpoints(vec![(bp(16), MeasureLength::new(3, 4))]).unwrap()
}

fn tempo_changes() -> TempoMap {
    TempoMap::from_breakpoints(vec![
        (bp(8), bpm(240)),
        (bp(22), bpm(120)),
        (BeatPosition(Rational::new(51, 2)), bpm(240)),
    ])
    .unwrap()
}

#[test]
fn test_iterate_beat_times_01() {
    let got = ticks(0.0, MeasureMap::new(), TempoMap::new(), BeatPosition::zero(), 10);
    let expected: Vec<(bool, f64)> = (0..10).map(|i| (i % 4 == 0, i as f64 * 0.5)).collect();
    assert_eq!(got, expected);
}

#[test]
fn test_iterate_beat_times_02() {
    let got = ticks(2.5, three_four_at_16(), tempo_changes(), BeatPosition::zero(), 16 + 12);
    assert_eq!(
        got,
        vec![
            (true, 2.5),
            (false, 2.75),
            (false, 3.0),
            (false, 3.25),
            (true, 3.5),
            (false, 3.75),
            (false, 4.0),
            (false, 4.25),
            (true, 4.5),
            (false, 4.75),
            (false, 5.0),
            (false, 5.25),
            (true, 5.5),
            (false, 5.75),
            (false, 6.0),
            (false, 6.25),
            (true, 6.5),
            (false, 6.75),
            (false, 7.0),
            (true, 7.25),
            (false, 7.5),
            (false, 7.75),
            (true, 8.0),
            (false, 8.5),
            (false, 9.0),
            (true, 9.5),
            (false, 9.875),
            (false, 10.125),
        ]
    );
}

#[test]
fn test_iterate_beat_times_03() {
    let got = ticks(2.5, three_four_at_16(), tempo_changes(), bp(11), 16 + 12 - 11);
    assert_eq!(
        got,
        vec![
            (false, 5.25),
            (true, 5.5),
            (false, 5.75),
            (false, 6.0),
            (false, 6.25),
            (true, 6.5),
            (false, 6.75),
            (false, 7.0),
            (true, 7.25),
            (false, 7.5),
            (false, 7.75),
            (true, 8.0),
            (false, 8.5),
            (false, 9.0),
            (true, 9.5),
            (false, 9.875),
            (false, 10.125),
        ]
    );
}

#[test]
fn test_iterate_beat_times_04() {
    let bpms =
        TempoMap::from_breakpoints(vec![(bp(0), bpm(480)), (bp(8), bpm(240)), (bp(16), bpm(120))])
            .unwrap();
    let got = ticks(0.5, MeasureMap::new(), bpms, bp(12), 8);
    let expected = vec![
        (true, 2.5),
        (false, 2.75),
        (false, 3.0),
        (false, 3.25),
        (true, 3.5),
        (false, 4.0),
        (false, 4.5),
        (false, 5.0),
    ];
    assert_eq!(got, expected);
}

#[test]
fn starting_mid_score_matches_the_tail_from_zero() {
    let all = ticks(2.5, three_four_at_16(), tempo_changes(), BeatPosition::zero(), 40);
    for start in [5, 11, 16, 19, 23] {
        let tail = ticks(2.5, three_four_at_16(), tempo_changes(), bp(start), 40 - start as usize);
        assert_eq!(tail, all[start as usize..].to_vec());
    }
}

#[test]
fn short_measure_cuts_the_beat_at_its_end() {
    let measures = MeasureMap::from_breakpoints(vec![(bp(0), MeasureLength::new(5, 8))]).unwrap();
    let got = ticks(0.0, measures, TempoMap::new(), BeatPosition::zero(), 5);
    // Measures of two and a half beats: beats 0, 1, 2, then 2.5 opens the next.
    assert_eq!(got, vec![(true, 0.0), (false, 0.5), (false, 1.0), (true, 1.25), (false, 1.75)]);
}
