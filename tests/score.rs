use karaoke::config::Config;
use karaoke::data_owner::DataOwner;
use karaoke::fonts::FontLoadError;
use karaoke::fonts::FontLoader;
use karaoke::fonts::ForceLoad;
use karaoke::rational::Rational;
use karaoke::schema::BeatLength;
use karaoke::schema::BeatPosition;
use karaoke::schema::Bpm;
use karaoke::schema::MeasureLength;
use karaoke::score::Score;
use karaoke::score::ScoreElement;
use karaoke::score::ScoreElementKind;
use karaoke::score::Track;

fn len(n: i64, d: i64) -> BeatLength {
    BeatLength(Rational::new(n, d))
}

fn el(kind: ScoreElementKind, n: i64, d: i64) -> ScoreElement {
    ScoreElement { kind, length: len(n, d) }
}

fn bp(n: i64, d: i64) -> BeatPosition {
    BeatPosition(Rational::new(n, d))
}

#[test]
fn notes_join_skips_and_ignore_rests() {
    let track = Track {
        start_beat: bp(2, 1),
        elements: vec![
            el(ScoreElementKind::Start, 1, 1),
            el(ScoreElementKind::Skip, 1, 2),
            el(ScoreElementKind::Stop, 1, 2),
            el(ScoreElementKind::Skip, 1, 1),
            el(ScoreElementKind::Start, 1, 4),
            el(ScoreElementKind::Start, 1, 4),
            el(ScoreElementKind::Skip, 1, 4),
        ],
        lyrics: None,
    };
    let notes = track.iterate_notes();
    let spans: Vec<(BeatPosition, BeatPosition)> = notes.iter().map(|n| (n.0.clone(), n.1.clone())).collect();
    assert_eq!(spans, vec![(bp(2, 1), bp(7, 2)), (bp(5, 1), bp(21, 4)), (bp(21, 4), bp(23, 4))]);
    assert_eq!(track.end_beat(), bp(23, 4));
    assert_eq!(*track.start_beat(), bp(2, 1));
}

#[test]
fn score_converts_with_its_own_tempo() {
    let mut score = Score::new("font.ttf".to_string());
    assert_eq!(score.beat_to_time(&bp(3, 1)), Rational::new(3, 2));
    score.offset = Rational::from_integer(1);
    assert_eq!(score.time_to_beat(&Rational::from_integer(2)), Rational::from_integer(2));
}

#[test]
fn measure_length_in_beats() {
    assert_eq!(MeasureLength::new(6, 8).beat_length(), len(3, 1));
    assert_eq!(MeasureLength::four().beat_length(), BeatLength::four());
    assert_eq!(Bpm::default_tempo().beat_length(), Rational::new(1, 2));
}

#[test]
fn rational_arithmetic_is_exact() {
    let a = Rational::new(1, 3);
    let b = Rational::new(1, 6);
    assert_eq!(a.add(&b), Rational::new(1, 2));
    assert_eq!(a.sub(&b), b);
    assert_eq!(a.mul(&b), Rational::new(1, 18));
    assert_eq!(a.div(&b), Rational::from_integer(2));
    let big = Rational::from_integer(i64::MAX).add(&Rational::from_integer(1));
    assert_eq!(big.sub(&Rational::from_integer(1)), Rational::from_integer(i64::MAX));
    let huge = big.mul(&big).mul(&big);
    assert_eq!(huge.div(&big).div(&big), big);
    assert!(b.lt(&a) && a.le(&a) && !a.lt(&b));
    assert_eq!(Rational::new(4, -6), Rational::new(-2, 3));
    assert_eq!(Rational::new(7, 2).floor_count(), Some(3));
    assert_eq!(Rational::new(-1, 2).floor_count(), None);
}

#[test]
fn font_loader_reads_once_and_retries_failures_on_demand() {
    let mut loader = FontLoader::new();
    let mut reads = 0;
    let ok = loader.get("a.ttf".to_string(), ForceLoad::False, |_: &String| {
        reads += 1;
        Ok(vec![1u8, 2, 3])
    });
    assert_eq!(ok, Ok(vec![1u8, 2, 3]));
    let again = loader.get("a.ttf".to_string(), ForceLoad::True, |_: &String| Ok(vec![9u8]));
    assert_eq!(again, Ok(vec![1u8, 2, 3]));
    assert_eq!(reads, 1);

    let err = || Err(FontLoadError::IOError("missing".to_string()));
    let failed = loader.get("b.ttf".to_string(), ForceLoad::False, |_: &String| err());
    assert_eq!(failed, Err(FontLoadError::IOError("missing".to_string())));
    let kept = loader.get("b.ttf".to_string(), ForceLoad::False, |_: &String| Ok(vec![7u8]));
    assert_eq!(kept, Err(FontLoadError::IOError("missing".to_string())));
    let retried = loader.get("b.ttf".to_string(), ForceLoad::True, |_: &String| Ok(vec![7u8]));
    assert_eq!(retried, Ok(vec![7u8]));
    assert_eq!(loader.faces.len(), 2);
}

#[test]
fn data_owner_and_config_hold_their_parts() {
    let owner = DataOwner::new(5u32, "widget");
    assert_eq!((owner.data, owner.widget), (5, "widget"));
    assert_eq!(Config::new("f.ttf".to_string()).font_path, "f.ttf");
}
