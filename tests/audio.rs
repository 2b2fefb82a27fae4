use karaoke::audio::command_is_wf;
use karaoke::audio::AudioCommand;
use karaoke::audio::AudioState;
use karaoke::audio::EngineAction;
use karaoke::audio::PlaybackEngine;
use karaoke::audio::SoundEffectSchedule;
use karaoke::rational::Rational;

fn r(n: i64, d: i64) -> Rational {
    Rational::new(n, d)
}

fn click(n: i64, d: i64, hz: i64) -> SoundEffectSchedule {
    SoundEffectSchedule { time: r(n, d), frequency: Rational::from_integer(hz) }
}

#[test]
fn seek_then_play_publishes_the_sought_time() {
    let mut e = PlaybackEngine::new();
    let action = e.process_command(AudioCommand::Seek(r(7, 2)));
    assert!(matches!(action, EngineAction::Seek(t) if t == r(7, 2)));
    e.process_command(AudioCommand::Play);
    let plan = e.run_period(4800, 48000, 2);
    assert_eq!(plan.state, AudioState::Playing { music_position: r(7, 2) });
    let plan = e.run_period(4800, 48000, 2);
    assert_eq!(plan.state, AudioState::Playing { music_position: r(71, 20) });
}

#[test]
fn seek_stops_playback_and_negative_seek_goes_to_start() {
    let mut e = PlaybackEngine::new();
    e.process_command(AudioCommand::Play);
    e.process_command(AudioCommand::Seek(r(-3, 1)));
    assert!(!e.playing);
    assert_eq!(e.playback_time, Rational::from_integer(0));
    assert_eq!(e.state(), AudioState::NotPlaying);
}

#[test]
fn each_click_fires_exactly_once() {
    let mut e = PlaybackEngine::new();
    e.process_command(AudioCommand::SetSoundEffectVolume(r(1, 2)));
    e.process_command(AudioCommand::SetSoundEffectSchedules(vec![
        click(0, 1, 880),
        click(1, 20, 440),
        click(1, 10, 440),
        click(3, 20, 440),
    ]));
    e.process_command(AudioCommand::Play);
    // Each period is 0.05 s: 4800 samples of two channels at 48 kHz.
    let mut fired = Vec::new();
    for _ in 0..5 {
        let plan = e.run_period(4800, 48000, 2);
        fired.extend(plan.bursts.iter().map(|b| (b.frequency.clone(), b.delay_frames)));
    }
    assert_eq!(
        fired,
        vec![
            (Rational::from_integer(880), 0),
            (Rational::from_integer(440), 2400),
            (Rational::from_integer(440), 2400),
            (Rational::from_integer(440), 2400),
        ]
    );
}

#[test]
fn clicks_wait_while_paused() {
    let mut e = PlaybackEngine::new();
    e.process_command(AudioCommand::SetSoundEffectSchedules(vec![click(1, 1, 440)]));
    let plan = e.run_period(4800, 48000, 2);
    assert!(plan.bursts.is_empty());
    assert_eq!(plan.state, AudioState::NotPlaying);
    assert_eq!(e.playback_time, Rational::from_integer(0));
}

#[test]
fn seek_drops_pending_clicks() {
    let mut e = PlaybackEngine::new();
    e.process_command(AudioCommand::SetSoundEffectSchedules(vec![click(1, 1, 440)]));
    e.process_command(AudioCommand::Seek(r(2, 1)));
    e.process_command(AudioCommand::Play);
    let plan = e.run_period(4800, 48000, 2);
    assert!(plan.bursts.is_empty());
}

#[test]
fn load_music_and_volumes() {
    let mut e = PlaybackEngine::new();
    let action = e.process_command(AudioCommand::LoadMusic("song.ogg".to_string()));
    assert!(matches!(action, EngineAction::LoadMusic(p) if p == "song.ogg"));
    e.process_command(AudioCommand::SetVolume(r(2, 5)));
    assert_eq!(e.music_volume, r(2, 5));
    e.process_command(AudioCommand::Pause);
    assert!(!e.playing);
}

#[test]
fn malformed_commands_are_recognised() {
    assert!(command_is_wf(&AudioCommand::Seek(r(1, 2))));
    assert!(!command_is_wf(&AudioCommand::Seek(Rational { num: vec![1], den: vec![] })));
    assert!(command_is_wf(&AudioCommand::Play));
}
