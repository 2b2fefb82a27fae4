use num_bigint::BigInt;
use num_rational::BigRational;
use num_traits::ToPrimitive;
use karaoke::measures::iterate_measures;
use karaoke::measures::MeasureMap;
use karaoke::rational::Rational;
use karaoke::schema::BeatPosition;
use karaoke::schema::Bpm;
use karaoke::schema::MeasureLength;
use karaoke::tempo::beat_to_time;
use karaoke::tempo::time_to_beat;
use karaoke::tempo::TempoMap;

fn bp(n: i64) -> BeatPosition {
    BeatPosition(Rational::from_integer(n))
}

fn bp_frac(n: i64, d: i64) -> BeatPosition {
    BeatPosition(Rational::new(n, d))
}

fn bpm(n: i64) -> Bpm {
    Bpm(Rational::from_integer(n))
}

fn seconds(r: &Rational) -> f64 {
    let n = BigInt::from_signed_bytes_le(&r.num);
    let d = BigInt::from_signed_bytes_le(&r.den);
    BigRational::new(n, d).to_f64().unwrap()
}

fn secs(x: f64) -> Rational {
    let scaled = (x * 1000.0).round() as i64;
    Rational::new(scaled, 1000)
}

fn take_measures(map: MeasureMap, n: usize) -> Vec<(BeatPosition, BeatPosition)> {
    let mut it = iterate_measures(map);
    (0..n).map(|_| it.next()).collect()
}

fn windows(bounds: &[i64]) -> Vec<(BeatPosition, BeatPosition)> {
    bounds.windows(2).map(|w| (bp(w[0]), bp(w[1]))).collect()
}

#[test]
fn test_iterate_measures_01() {
    let got = take_measures(MeasureMap::new(), 10);
    let bounds: Vec<i64> = (0..11).map(|i| i * 4).collect();
    assert_eq!(got, windows(&bounds));
}

#[test]
fn test_iterate_measures_02() {
    let measures = MeasureMap::from_breakpoints(vec![(bp(16), MeasureLength::new(3, 4))]).unwrap();
    let got = take_measures(measures, 10);
    let expected = windows(&[0, 4, 8, 12, 16, 19, 22, 25, 28, 31, 34]);
    assert_eq!(got, expected);
}

#[test]
fn test_iterate_measures_03() {
    let measures =
        MeasureMap::from_breakpoints(vec![(BeatPosition::zero(), MeasureLength::new(3, 4))])
            .unwrap();
    let got = take_measures(measures, 10);
    let bounds: Vec<i64> = (0..11).map(|i| i * 3).collect();
    assert_eq!(got, windows(&bounds));
}

fn scenario_tempo_map() -> TempoMap {
    TempoMap::from_breakpoints(vec![
        (bp(8), bpm(240)),
        (bp(16), bpm(120)),
        (bp_frac(41, 2), bpm(240)),
    ])
    .unwrap()
}

#[test]
fn test_beat_to_time_01() {
    let offset = secs(2.5);
    let bpms = scenario_tempo_map();
    let expected = [
        2.5, 2.75, 3.0, 3.25, 3.5, 3.75, 4.0, 4.25, 4.5, 4.75, 5.00, 5.25, 5.50, 5.75, 6.00, 6.25,
        6.5, 7.0, 7.5, 8.0, 8.5, 8.875, 9.125,
    ];
    for (beat, want) in expected.iter().enumerate() {
        let got = beat_to_time(&offset, &bpms, &bp(beat as i64));
        assert_eq!(seconds(&got), *want);
    }
}

#[test]
fn time_to_beat_inverts_beat_to_time_on_scenario() {
    let offset = secs(2.5);
    let bpms = scenario_tempo_map();
    for n in -3..60 {
        let pos = bp_frac(n, 2);
        let t = beat_to_time(&offset, &bpms, &pos);
        let back = time_to_beat(&offset, &bpms, &t);
        assert_eq!(back, pos.0);
    }
}

#[test]
fn time_to_beat_before_first_breakpoint() {
    let offset = secs(2.5);
    let bpms = scenario_tempo_map();
    let back = time_to_beat(&offset, &bpms, &secs(3.5));
    assert_eq!(back, Rational::from_integer(4));
}

#[test]
fn beat_to_time_without_tempo_marks_is_120_bpm() {
    let t = beat_to_time(&Rational::from_integer(0), &TempoMap::new(), &bp(7));
    assert_eq!(seconds(&t), 3.5);
    let b = time_to_beat(&Rational::from_integer(0), &TempoMap::new(), &secs(3.5));
    assert_eq!(b, Rational::from_integer(7));
}

#[test]
fn beat_to_time_is_monotonic_on_scenario() {
    let offset = secs(2.5);
    let bpms = scenario_tempo_map();
    let mut last = f64::MIN;
    for n in -8..100 {
        let t = seconds(&beat_to_time(&offset, &bpms, &bp_frac(n, 4)));
        assert!(t >= last);
        last = t;
    }
}

#[test]
fn tempo_map_rejects_unordered_breakpoints() {
    assert!(TempoMap::from_breakpoints(vec![(bp(8), bpm(120)), (bp(8), bpm(60))]).is_none());
    assert!(TempoMap::from_breakpoints(vec![(bp(8), bpm(120)), (bp(4), bpm(60))]).is_none());
}

#[test]
fn measure_breakpoint_inside_a_measure_cuts_it_short() {
    let measures = MeasureMap::from_breakpoints(vec![(bp(6), MeasureLength::new(3, 4))]).unwrap();
    let got = take_measures(measures, 4);
    assert_eq!(got, windows(&[0, 4, 6, 9, 12]));
}

#[test]
fn tempo_map_insert_replace_and_remove() {
    let mut bpms = TempoMap::new();
    bpms.insert(bp(16), bpm(120));
    bpms.insert(bp(8), bpm(240));
    bpms.insert(bp_frac(41, 2), bpm(240));
    let keys: Vec<BeatPosition> = bpms.entries.iter().map(|e| e.0.clone()).collect();
    assert_eq!(keys, vec![bp(8), bp(16), bp_frac(41, 2)]);
    bpms.insert(bp(16), bpm(60));
    assert_eq!(bpms.entries.len(), 3);
    assert_eq!(bpms.entries[1], (bp(16), bpm(60)));
    assert!(bpms.remove(bp(16)));
    assert!(!bpms.remove(bp(16)));
    assert_eq!(bpms.entries.len(), 2);
}

#[test]
fn breakpoint_in_force_at_a_beat() {
    let bpms = scenario_tempo_map();
    assert_eq!(bpms.breakpoint_at(&bp(3)), None);
    assert_eq!(bpms.breakpoint_at(&bp(8)), Some((bp(8), bpm(240))));
    assert_eq!(bpms.breakpoint_at(&bp(20)), Some((bp(16), bpm(120))));
    assert_eq!(bpms.breakpoint_at(&bp(100)), Some((bp_frac(41, 2), bpm(240))));
}

#[test]
fn measure_map_insert_and_remove() {
    let mut measures = MeasureMap::new();
    measures.insert(bp(16), MeasureLength::new(3, 4));
    measures.insert(bp(0), MeasureLength::new(2, 4));
    let got = take_measures(measures.clone(), 10);
    assert_eq!(got, windows(&[0, 2, 4, 6, 8, 10, 12, 14, 16, 19, 22]));
    let at = measures.breakpoint_at(&bp(17)).unwrap();
    assert_eq!(at.0, bp(16));
    assert!(measures.remove(bp(0)));
    let got = take_measures(measures, 5);
    assert_eq!(got, windows(&[0, 4, 8, 12, 16, 19]));
}

#[test]
fn breakpoint_inside_a_measure_that_starts_at_a_breakpoint_cuts_it() {
    let measures = MeasureMap::from_breakpoints(vec![
        (bp(0), MeasureLength::new(4, 4)),
        (bp(2), MeasureLength::new(3, 4)),
    ])
    .unwrap();
    assert_eq!(take_measures(measures, 4), windows(&[0, 2, 5, 8, 11]));
}

#[test]
fn measure_breakpoints_before_the_score_are_refused() {
    assert!(MeasureMap::from_breakpoints(vec![(bp(-4), MeasureLength::new(3, 4))]).is_none());
    assert!(MeasureMap::from_breakpoints(vec![(bp(4), MeasureLength::new(3, 4)), (bp(4), MeasureLength::new(2, 4))]).is_none());
}

#[test]
fn rationals_check_their_denominator() {
    assert!(Rational::new(3, 4).is_wf());
    assert!(!Rational { num: vec![1], den: vec![0] }.is_wf());
    assert!(!Rational { num: vec![1], den: vec![0xff] }.is_wf());
    assert!(Rational { num: vec![1], den: vec![0, 1] }.is_wf());
}
