//! The decisions of the audio callback: commands from the control thread,
//! the playback clock, and when each scheduled metronome click starts.
//!
//! The callback around this engine owns the output device and the decoded
//! music; it hands each command and each output period to the engine and
//! carries out what comes back.
use crate::rational::Rational;
use vstd::prelude::*;

verus! {

/// A metronome click to play at `time` seconds of playback, at `frequency` hertz.
#[derive(Clone, Debug, PartialEq)]
pub struct SoundEffectSchedule {
    pub time: Rational,
    pub frequency: Rational,
}

/// What the control thread asks of the audio thread.
#[derive(Debug)]
pub enum AudioCommand {
    Play,
    Pause,
    /// Move playback to this many seconds, and stop.
    Seek(Rational),
    /// Decode and play the music file at this path.
    LoadMusic(String),
    SetVolume(Rational),
    /// Replace the clicks still to come.
    SetSoundEffectSchedules(Vec<SoundEffectSchedule>),
    SetSoundEffectVolume(Rational),
}

/// What the audio thread tells the control thread at the start of a period.
#[derive(Clone, Debug, PartialEq)]
pub enum AudioState {
    NotPlaying,
    Playing { music_position: Rational },
}

/// What the callback has to do for a command, beyond the engine's own state.
#[derive(Debug)]
pub enum EngineAction {
    Nothing,
    /// Silence the sounding clicks and move the music to this position.
    Seek(Rational),
    /// Decode the file at this path; on failure keep the current music.
    LoadMusic(String),
}

/// A click to synthesise: it starts `delay_frames` frames into the period.
#[derive(Clone, Debug, PartialEq)]
pub struct Burst {
    pub delay_frames: usize,
    pub frequency: Rational,
    pub volume: Rational,
}

/// The outcome of one output period.
#[derive(Debug)]
pub struct PeriodPlan {
    /// The state to publish.
    pub state: AudioState,
    /// The clicks that start in this period, in schedule order.
    pub bursts: Vec<Burst>,
}

/// The first index from `from` on whose time lies after `end`: the clicks
/// before it have started by `end`.
pub open spec fn fire_point(times: Seq<real>, from: int, end: real) -> int
    decreases times.len() - from,
{
    if from < 0 || from >= times.len() || times[from] > end {
        from
    } else {
        fire_point(times, from + 1, end)
    }
}

/// The number of whole frames in `seconds` at `rate` frames per second; none
/// before the start of the period.
pub open spec fn delay_frames(seconds: real, rate: int) -> int {
    if seconds <= 0real {
        0
    } else {
        (seconds * rate as real).floor()
    }
}

/// A command whose numbers are well-formed.
pub open spec fn command_wf(cmd: AudioCommand) -> bool {
    match cmd {
        AudioCommand::Seek(t) => t.wf(),
        AudioCommand::SetVolume(v) => v.wf(),
        AudioCommand::SetSoundEffectVolume(v) => v.wf(),
        AudioCommand::SetSoundEffectSchedules(list) => forall|i: int|
            0 <= i < list@.len() ==> (#[trigger] list@[i]).time.wf(),
        _ => true,
    }
}

/// The whole frames from `now` until `at`, at `rate` frames per second; zero
/// where `at` is not later than `now`. `at` lies at most `limit` frames after
/// `now`.
fn delay_in_frames(at: &Rational, now: &Rational, rate: u32, limit: usize) -> (r: usize)
    requires
        at.wf(),
        now.wf(),
        (at.value() - now.value()) * (rate as real) <= limit as real,
    ensures
        r as int == delay_frames(at.value() - now.value(), rate as int),
{
    let diff = at.sub(now);
    if diff.le(&Rational::from_integer(0)) {
        return 0;
    }
    let scaled = diff.mul(&Rational::from_count(rate as usize));
    proof {
        let x = diff.value();
        let y = rate as real;
        assert(x * y >= 0real) by (nonlinear_arith)
            requires
                x > 0real,
                y >= 0real,
        ;
    }
    match scaled.floor_count() {
        Some(k) => k,
        None => 0,
    }
}


/// `b` is the click that `entry` makes when the period starts at `now`.
pub open spec fn burst_for(b: Burst, entry: SoundEffectSchedule, now: Rational, volume: Rational, rate: int) -> bool {
    &&& b.delay_frames as int == delay_frames(entry.time.value() - now.value(), rate)
    &&& b.frequency.wf() == entry.frequency.wf()
    &&& b.frequency.value() == entry.frequency.value()
    &&& b.volume.value() == volume.value()
}

/// `new` is the engine `old` after command `cmd`.
pub open spec fn after_command(old: PlaybackEngine, cmd: AudioCommand, new: PlaybackEngine) -> bool {
    match cmd {
        AudioCommand::Play => new == (PlaybackEngine { playing: true, ..old }),
        AudioCommand::Pause => new == (PlaybackEngine { playing: false, ..old }),
        AudioCommand::Seek(t) => {
            &&& !new.playing
            &&& new.playback_time.value() == (if t.value() < 0real { 0real } else { t.value() })
            &&& new.schedules@.len() == 0
            &&& new.next_schedule == 0
            &&& new.music_volume == old.music_volume
            &&& new.sound_effect_volume == old.sound_effect_volume
        },
        AudioCommand::LoadMusic(_) => new == old,
        AudioCommand::SetVolume(v) => new == (PlaybackEngine { music_volume: v, ..old }),
        AudioCommand::SetSoundEffectSchedules(list) => {
            &&& new.schedules@ == list@
            &&& new.next_schedule == 0
            &&& new.playing == old.playing
            &&& new.playback_time == old.playback_time
            &&& new.music_volume == old.music_volume
            &&& new.sound_effect_volume == old.sound_effect_volume
        },
        AudioCommand::SetSoundEffectVolume(v) => new == (PlaybackEngine { sound_effect_volume: v, ..old }),
    }
}

/// `act` is what the callback has to do for `cmd`, given the engine `new`
/// after it.
pub open spec fn action_for(cmd: AudioCommand, new: PlaybackEngine, act: EngineAction) -> bool {
    match cmd {
        AudioCommand::Seek(_) => act matches EngineAction::Seek(t) && t.wf() && t.value() == new.playback_time.value(),
        AudioCommand::LoadMusic(path) => act == EngineAction::LoadMusic(path),
        _ => act is Nothing,
    }
}

/// `st` is the state that engine `e` publishes: not playing, or playing at
/// its clock.
pub open spec fn reports(st: AudioState, e: PlaybackEngine) -> bool {
    match st {
        AudioState::NotPlaying => !e.playing,
        AudioState::Playing { music_position } => e.playing && music_position.wf()
            && music_position.value() == e.playback_time.value(),
    }
}

/// A seek followed by a play publishes, at the next period, playback at the
/// time sought (at the start, for a time before it).
pub proof fn lemma_seek_then_play(e0: PlaybackEngine, t: Rational, e1: PlaybackEngine, e2: PlaybackEngine, st: AudioState)
    requires
        after_command(e0, AudioCommand::Seek(t), e1),
        after_command(e1, AudioCommand::Play, e2),
        reports(st, e2),
    ensures
        st matches AudioState::Playing { music_position } && music_position.value() == (
        if t.value() < 0real {
            0real
        } else {
            t.value()
        }),
{
}

/// Clicks start at most once and none is skipped: starting the clicks due by
/// `e1` and then those due by a later `e2` starts exactly the clicks that
/// starting those due by `e2` at once would.
pub proof fn lemma_clicks_fire_once(times: Seq<real>, from: int, e1: real, e2: real)
    requires
        0 <= from <= times.len(),
        e1 <= e2,
    ensures
        from <= fire_point(times, from, e1) <= fire_point(times, from, e2) <= times.len(),
        fire_point(times, fire_point(times, from, e1), e2) == fire_point(times, from, e2),
    decreases times.len() - from,
{
    if from < times.len() && times[from] <= e1 {
        lemma_clicks_fire_once(times, from + 1, e1, e2);
    } else if from < times.len() && times[from] <= e2 {
        lemma_fire_point_bounds(times, from + 1, e2);
    }
}

/// The clicks from `from` up to the fire point are all due by `end`.
pub proof fn lemma_fire_point_bounds(times: Seq<real>, from: int, end: real)
    requires
        0 <= from <= times.len(),
    ensures
        from <= fire_point(times, from, end) <= times.len(),
        forall|i: int| from <= i < fire_point(times, from, end) ==> #[trigger] times[i] <= end,
        fire_point(times, from, end) < times.len() ==> times[fire_point(times, from, end)] > end,
    decreases times.len() - from,
{
    if from < times.len() && times[from] <= end {
        lemma_fire_point_bounds(times, from + 1, end);
    }
}

/// Whether every click time in `list` is well-formed.
fn schedules_wf(list: &Vec<SoundEffectSchedule>) -> (r: bool)
    ensures
        r == forall|i: int| 0 <= i < list@.len() ==> (#[trigger] list@[i]).time.wf(),
{
    let mut i: usize = 0;
    while i < list.len()
        invariant
            i <= list@.len(),
            forall|k: int| 0 <= k < i ==> (#[trigger] list@[k]).time.wf(),
        decreases list@.len() - i,
    {
        if !list[i].time.is_wf() {
            assert(!list@[i as int].time.wf());
            return false;
        }
        i = i + 1;
    }
    true
}

/// Whether the numbers in `cmd` are well-formed.
pub fn command_is_wf(cmd: &AudioCommand) -> (r: bool)
    ensures
        r == command_wf(*cmd),
{
    match cmd {
        AudioCommand::Seek(t) => t.is_wf(),
        AudioCommand::SetVolume(v) => v.is_wf(),
        AudioCommand::SetSoundEffectVolume(v) => v.is_wf(),
        AudioCommand::SetSoundEffectSchedules(list) => schedules_wf(list),
        _ => true,
    }
}

/// The playback state of the audio thread.
pub struct PlaybackEngine {
    pub playing: bool,
    pub music_volume: Rational,
    pub sound_effect_volume: Rational,
    /// Seconds of playback at the start of the next period.
    pub playback_time: Rational,
    pub schedules: Vec<SoundEffectSchedule>,
    /// The index of the next click not yet started.
    pub next_schedule: usize,
}

impl PlaybackEngine {
    pub open spec fn wf(self) -> bool {
        &&& self.music_volume.wf()
        &&& self.sound_effect_volume.wf()
        &&& self.playback_time.wf()
        &&& self.playback_time.value() >= 0real
        &&& self.next_schedule <= self.schedules@.len()
        &&& forall|i: int| 0 <= i < self.schedules@.len() ==> (#[trigger] self.schedules@[i]).time.wf()
    }

    /// The times of the scheduled clicks.
    pub open spec fn schedule_times(self) -> Seq<real> {
        self.schedules@.map_values(|e: SoundEffectSchedule| e.time.value())
    }

    /// Stopped at the start, silent, with no clicks to play.
    pub fn new() -> (r: PlaybackEngine)
        ensures
            r.wf(),
            !r.playing,
            r.playback_time.value() == 0real,
            r.music_volume.value() == 0real,
            r.sound_effect_volume.value() == 0real,
            r.schedules@.len() == 0,
    {
        PlaybackEngine {
            playing: false,
            music_volume: Rational::from_integer(0),
            sound_effect_volume: Rational::from_integer(0),
            playback_time: Rational::from_integer(0),
            schedules: Vec::new(),
            next_schedule: 0,
        }
    }

    /// Carries out `cmd`. A seek to a time before the start goes to the start.
    pub fn process_command(&mut self, cmd: AudioCommand) -> (r: EngineAction)
        requires
            old(self).wf(),
            command_wf(cmd),
        ensures
            final(self).wf(),
            after_command(*old(self), cmd, *final(self)),
            action_for(cmd, *final(self), r),
    {
        match cmd {
            AudioCommand::Play => {
                self.playing = true;
                EngineAction::Nothing
            },
            AudioCommand::Pause => {
                self.playing = false;
                EngineAction::Nothing
            },
            AudioCommand::Seek(t) => {
                let zero = Rational::from_integer(0);
                let target = if t.lt(&zero) {
                    zero
                } else {
                    t
                };
                self.schedules = Vec::new();
                self.next_schedule = 0;
                let reported = target.copy();
                self.playback_time = target;
                self.playing = false;
                EngineAction::Seek(reported)
            },
            AudioCommand::LoadMusic(path) => EngineAction::LoadMusic(path),
            AudioCommand::SetVolume(v) => {
                self.music_volume = v;
                EngineAction::Nothing
            },
            AudioCommand::SetSoundEffectSchedules(list) => {
                self.schedules = list;
                self.next_schedule = 0;
                EngineAction::Nothing
            },
            AudioCommand::SetSoundEffectVolume(v) => {
                self.sound_effect_volume = v;
                EngineAction::Nothing
            },
        }
    }

    /// One output period of `out_len` samples at `sample_rate` frames per
    /// second and `channels` samples per frame: publishes the state, starts
    /// every click due by the end of the period, and moves the clock to that
    /// end while playing.
    pub fn run_period(&mut self, out_len: usize, sample_rate: u32, channels: u16) -> (plan: PeriodPlan)
        requires
            old(self).wf(),
            sample_rate > 0,
            channels > 0,
        ensures
            final(self).wf(),
            ({
                let end = final(self).playback_time.value();
                let first = old(self).next_schedule as int;
                &&& reports(plan.state, *old(self))
                &&& end == old(self).playback_time.value() + if old(self).playing {
                    out_len as real / (sample_rate as int * channels as int) as real
                } else {
                    0real
                }
                &&& final(self).next_schedule as int == fire_point(old(self).schedule_times(), first, end)
                &&& plan.bursts@.len() == final(self).next_schedule - first
                &&& forall|i: int| 0 <= i < plan.bursts@.len() ==> burst_for(#[trigger] plan.bursts@[i], old(self).schedules@[first + i], old(self).playback_time, old(self).sound_effect_volume, sample_rate as int)
                &&& final(self).playing == old(self).playing
                &&& final(self).music_volume == old(self).music_volume
                &&& final(self).sound_effect_volume == old(self).sound_effect_volume
                &&& final(self).schedules == old(self).schedules
            }),
    {
        let state = self.state();
        let frames_per_second = Rational::from_count(sample_rate as usize).mul(&Rational::from_count(channels as usize));
        let span = if self.playing {
            proof {
                assert(sample_rate as real * channels as real > 0real) by (nonlinear_arith)
                    requires
                        sample_rate > 0,
                        channels > 0,
                ;
            }
            Rational::from_count(out_len).div(&frames_per_second)
        } else {
            Rational::from_integer(0)
        };
        let end = self.playback_time.add(&span);
        proof {
            let (sr, ch, ol) = (sample_rate as real, channels as real, out_len as real);
            assert(sr * ch == (sample_rate as int * channels as int) as real) by (nonlinear_arith)
                requires
                    sr == sample_rate as real,
                    ch == channels as real,
            ;
            assert(ol / (sr * ch) >= 0real && (ol / (sr * ch)) * sr <= ol) by (nonlinear_arith)
                requires
                    sr >= 1real,
                    ch >= 1real,
                    ol >= 0real,
            ;
        }
        let ghost times = self.schedule_times();
        let ghost first = self.next_schedule as int;
        let n = self.schedules.len();
        let mut idx = self.next_schedule;
        let mut bursts: Vec<Burst> = Vec::new();
        while idx < n && self.schedules[idx].time.le(&end)
            invariant
                self.wf(),
                end.wf(),
                times == self.schedule_times(),
                n == self.schedules@.len(),
                first <= idx <= n,
                fire_point(times, idx as int, end.value()) == fire_point(times, first, end.value()),
                bursts@.len() == idx - first,
                forall|i: int| 0 <= i < bursts@.len() ==> burst_for(#[trigger] bursts@[i], self.schedules@[first + i], self.playback_time, self.sound_effect_volume, sample_rate as int),
                (end.value() - self.playback_time.value()) * (sample_rate as real) <= out_len as real,
                *self == *old(self),
            decreases n - idx,
        {
            let entry = &self.schedules[idx];
            assert(times[idx as int] == entry.time.value());
            proof {
                let (d, r) = (entry.time.value() - self.playback_time.value(), sample_rate as real);
                let e = end.value() - self.playback_time.value();
                assert(d * r <= e * r) by (nonlinear_arith)
                    requires
                        d <= e,
                        r >= 0real,
                ;
            }
            let delay = delay_in_frames(&entry.time, &self.playback_time, sample_rate, out_len);
            bursts.push(Burst { delay_frames: delay, frequency: entry.frequency.copy(), volume: self.sound_effect_volume.copy() });
            idx = idx + 1;
        }
        proof {
            if idx < n {
                assert(times[idx as int] == self.schedules@[idx as int].time.value());
            }
        }
        self.playback_time = end;
        self.next_schedule = idx;
        PeriodPlan { state, bursts }
    }

    /// The state to publish now.
    pub fn state(&self) -> (r: AudioState)
        requires
            self.wf(),
        ensures
            reports(r, *self),
    {
        if self.playing {
            AudioState::Playing { music_position: self.playback_time.copy() }
        } else {
            AudioState::NotPlaying
        }
    }
}

} // verus!
