//! Optional wall-clock stage timers. Durations of workers that overlap are not additive. With
//! several video workers, the video stages are summed across them.
use std::time::{Duration, Instant};
use vstd::prelude::*;

verus! {

/// What is timed.
#[derive(Clone, Copy, Debug, PartialEq, Eq, Structural)]
pub enum Stage {
    Setup,
    VideoParse,
    VideoDecode,
    VideoResize,
    AudioSource,
    AudioResample,
    AudioMel,
    ArrowPack,
    ArrowWrite,
    SendWait,
    ReceiveWait,
    FinalSync,
    VideoWindowWait,
    VideoReorderWait,
    AudioSourceWait,
}

/// How many stages there are.
pub const STAGES: usize = 15;

/// The place of a stage in a report.
pub open spec fn place_of(stage: Stage) -> int {
    match stage {
        Stage::Setup => 0,
        Stage::VideoParse => 1,
        Stage::VideoDecode => 2,
        Stage::VideoResize => 3,
        Stage::AudioSource => 4,
        Stage::AudioResample => 5,
        Stage::AudioMel => 6,
        Stage::ArrowPack => 7,
        Stage::ArrowWrite => 8,
        Stage::SendWait => 9,
        Stage::ReceiveWait => 10,
        Stage::FinalSync => 11,
        Stage::VideoWindowWait => 12,
        Stage::VideoReorderWait => 13,
        Stage::AudioSourceWait => 14,
    }
}

/// What a stage is called in a report.
pub open spec fn stage_text(stage: Stage) -> Seq<char> {
    match stage {
        Stage::Setup => "setup"@,
        Stage::VideoParse => "video_parse"@,
        Stage::VideoDecode => "video_decode"@,
        Stage::VideoResize => "video_resize"@,
        Stage::AudioSource => "audio_source"@,
        Stage::AudioResample => "audio_resample"@,
        Stage::AudioMel => "audio_mel"@,
        Stage::ArrowPack => "arrow_pack"@,
        Stage::ArrowWrite => "arrow_write"@,
        Stage::SendWait => "worker_send_wait"@,
        Stage::ReceiveWait => "collector_receive_wait"@,
        Stage::FinalSync => "final_sync"@,
        Stage::VideoWindowWait => "video_window_wait"@,
        Stage::VideoReorderWait => "video_reorder_wait"@,
        Stage::AudioSourceWait => "audio_source_wait"@,
    }
}

impl Stage {
    /// The place of the stage in a report.
    pub fn place(self) -> (place: usize)
        ensures
            place == place_of(self),
            place < STAGES,
    {
        match self {
            Stage::Setup => 0,
            Stage::VideoParse => 1,
            Stage::VideoDecode => 2,
            Stage::VideoResize => 3,
            Stage::AudioSource => 4,
            Stage::AudioResample => 5,
            Stage::AudioMel => 6,
            Stage::ArrowPack => 7,
            Stage::ArrowWrite => 8,
            Stage::SendWait => 9,
            Stage::ReceiveWait => 10,
            Stage::FinalSync => 11,
            Stage::VideoWindowWait => 12,
            Stage::VideoReorderWait => 13,
            Stage::AudioSourceWait => 14,
        }
    }

    /// What the stage is called in a report.
    pub fn name(self) -> (name: &'static str)
        ensures
            name@ == stage_text(self),
    {
        match self {
            Stage::Setup => "setup",
            Stage::VideoParse => "video_parse",
            Stage::VideoDecode => "video_decode",
            Stage::VideoResize => "video_resize",
            Stage::AudioSource => "audio_source",
            Stage::AudioResample => "audio_resample",
            Stage::AudioMel => "audio_mel",
            Stage::ArrowPack => "arrow_pack",
            Stage::ArrowWrite => "arrow_write",
            Stage::SendWait => "worker_send_wait",
            Stage::ReceiveWait => "collector_receive_wait",
            Stage::FinalSync => "final_sync",
            Stage::VideoWindowWait => "video_window_wait",
            Stage::VideoReorderWait => "video_reorder_wait",
            Stage::AudioSourceWait => "audio_source_wait",
        }
    }

    /// The stage at a place of a report.
    pub fn at(place: usize) -> (stage: Option<Stage>)
        ensures
            match stage {
                Some(stage) => place_of(stage) == place,
                None => place >= STAGES,
            },
    {
        match place {
            0 => Some(Stage::Setup),
            1 => Some(Stage::VideoParse),
            2 => Some(Stage::VideoDecode),
            3 => Some(Stage::VideoResize),
            4 => Some(Stage::AudioSource),
            5 => Some(Stage::AudioResample),
            6 => Some(Stage::AudioMel),
            7 => Some(Stage::ArrowPack),
            8 => Some(Stage::ArrowWrite),
            9 => Some(Stage::SendWait),
            10 => Some(Stage::ReceiveWait),
            11 => Some(Stage::FinalSync),
            12 => Some(Stage::VideoWindowWait),
            13 => Some(Stage::VideoReorderWait),
            14 => Some(Stage::AudioSourceWait),
            _ => None,
        }
    }
}

/// `std::time::Instant`: a reading of a clock that does not run backwards.
#[verifier::external_type_specification]
#[verifier::external_body]
pub struct ExInstant(Instant);

/// Calls `std::time::Instant::now`. Nothing is said of the reading.
#[verifier::external_body]
fn now() -> (reading: Instant) {
    Instant::now()
}

/// Calls `std::time::Instant::elapsed`. How long ago the reading was is up to the clock.
#[verifier::external_body]
fn since(reading: Instant) -> (elapsed: Duration) {
    reading.elapsed()
}

/// Calls `std::time::Duration::as_nanos`. The number is not tied to the duration, which came
/// from the clock and is opaque.
#[verifier::external_body]
fn whole_nanos(elapsed: Duration) -> (nanos: u128) {
    elapsed.as_nanos()
}

/// What a timer adds for `elapsed` nanoseconds of which `exclude` are charged elsewhere.
pub open spec fn charge(elapsed: u64, exclude: u64) -> int {
    if elapsed >= exclude {
        elapsed - exclude
    } else {
        0
    }
}

/// A counter after a timer added to it; it wraps around.
pub open spec fn counted(before: u64, elapsed: u64, exclude: u64) -> u64 {
    ((before + charge(elapsed, exclude)) % 0x1_0000_0000_0000_0000) as u64
}

/// The nanoseconds that each stage took. Where timing is off, nothing is ever counted.
pub struct Metrics {
    enabled: bool,
    values: Vec<u64>,
}

impl Metrics {
    /// Timing is on.
    pub closed spec fn on(&self) -> bool {
        self.enabled
    }

    /// The counters, in the order of a report.
    pub closed spec fn counters(&self) -> Seq<u64> {
        self.values@
    }

    /// There is a counter for each stage.
    pub open spec fn valid(&self) -> bool {
        self.counters().len() == STAGES
    }

    /// Counters at zero.
    pub fn new(enabled: bool) -> (metrics: Self)
        ensures
            metrics.valid(),
            metrics.on() == enabled,
            metrics.counters() == Seq::new(STAGES as nat, |i: int| 0u64),
    {
        let mut values: Vec<u64> = Vec::new();
        let mut i: usize = 0;
        while i < STAGES
            invariant
                i <= STAGES,
                values@ == Seq::new(i as nat, |i: int| 0u64),
            decreases STAGES - i,
        {
            values.push(0);
            i += 1;
            assert(values@ =~= Seq::new(i as nat, |i: int| 0u64));
        }
        Metrics { enabled, values }
    }

    /// Whether timing is on.
    pub fn enabled(&self) -> (on: bool)
        ensures
            on == self.on(),
    {
        self.enabled
    }

    /// Reads the clock, where timing is on.
    pub fn start(&self) -> (started: Option<Instant>)
        ensures
            started is Some <==> self.on(),
    {
        if self.enabled {
            Some(now())
        } else {
            None
        }
    }

    /// The nanoseconds that a stage took so far.
    pub fn nanos(&self, stage: Stage) -> (nanos: u64)
        requires
            self.valid(),
        ensures
            nanos == self.counters()[place_of(stage)],
    {
        self.values[stage.place()]
    }

    /// Counts `elapsed` nanoseconds for a stage, of which `exclude` are charged elsewhere.
    pub fn record(&mut self, stage: Stage, elapsed: u64, exclude: u64)
        requires
            old(self).valid(),
        ensures
            final(self).valid(),
            final(self).on() == old(self).on(),
            final(self).counters() == old(self).counters().update(
                place_of(stage),
                counted(old(self).counters()[place_of(stage)], elapsed, exclude),
            ),
    {
        let place: usize = stage.place();
        let before: u64 = self.values[place];
        let added: u64 = if elapsed >= exclude {
            elapsed - exclude
        } else {
            0
        };
        self.values.set(place, before.wrapping_add(added));
    }

    /// Counts the time since `start` for a stage.
    pub fn end(&mut self, stage: Stage, start: Option<Instant>)
        requires
            old(self).valid(),
        ensures
            final(self).valid(),
            final(self).on() == old(self).on(),
            start is None ==> final(self).counters() == old(self).counters(),
            start is Some ==> exists|elapsed: u64|
                final(self).counters() == old(self).counters().update(
                    place_of(stage),
                    #[trigger] counted(old(self).counters()[place_of(stage)], elapsed, 0),
                ),
    {
        self.end_excluding(stage, start, 0);
    }

    /// Counts the time since `start` for a stage, without `exclude` nanoseconds that are
    /// charged elsewhere.
    pub fn end_excluding(&mut self, stage: Stage, start: Option<Instant>, exclude: u64)
        requires
            old(self).valid(),
        ensures
            final(self).valid(),
            final(self).on() == old(self).on(),
            start is None ==> final(self).counters() == old(self).counters(),
            start is Some ==> exists|elapsed: u64|
                final(self).counters() == old(self).counters().update(
                    place_of(stage),
                    #[trigger] counted(old(self).counters()[place_of(stage)], elapsed, exclude),
                ),
    {
        if let Some(started) = start {
            let elapsed: u64 = #[verifier::truncate]
            (whole_nanos(since(started)) as u64);
            self.record(stage, elapsed, exclude);
        }
    }
}

/// Every stage has its own place and its own name in a report.
pub proof fn law_stages_are_told_apart(a: Stage, b: Stage)
    ensures
        0 <= place_of(a) && place_of(a) < 15,
        place_of(a) == place_of(b) ==> a == b,
        STAGES == 15,
{
}

/// The names of the stages, in the order of a report.
pub proof fn law_stage_names(stage: Stage)
    ensures
        stage_text(stage) == seq![
            "setup"@,
            "video_parse"@,
            "video_decode"@,
            "video_resize"@,
            "audio_source"@,
            "audio_resample"@,
            "audio_mel"@,
            "arrow_pack"@,
            "arrow_write"@,
            "worker_send_wait"@,
            "collector_receive_wait"@,
            "final_sync"@,
            "video_window_wait"@,
            "video_reorder_wait"@,
            "audio_source_wait"@,
        ][place_of(stage)],
        place_of(Stage::Setup) == 0 && place_of(Stage::VideoParse) == 1,
        place_of(Stage::VideoDecode) == 2 && place_of(Stage::VideoResize) == 3,
        place_of(Stage::AudioSource) == 4 && place_of(Stage::AudioResample) == 5,
        place_of(Stage::AudioMel) == 6 && place_of(Stage::ArrowPack) == 7,
        place_of(Stage::ArrowWrite) == 8 && place_of(Stage::SendWait) == 9,
        place_of(Stage::ReceiveWait) == 10 && place_of(Stage::FinalSync) == 11,
        place_of(Stage::VideoWindowWait) == 12 && place_of(Stage::VideoReorderWait) == 13,
        place_of(Stage::AudioSourceWait) == 14,
{
}

/// A counter grows by the time that is not charged elsewhere, and by nothing where all of it
/// is, as long as the sum can be held.
pub proof fn law_counters_add_up(before: u64, elapsed: u64, exclude: u64)
    ensures
        exclude <= elapsed && before + elapsed - exclude <= u64::MAX ==> counted(
            before,
            elapsed,
            exclude,
        ) == before + elapsed - exclude,
        elapsed <= exclude ==> counted(before, elapsed, exclude) == before,
        exclude <= elapsed && before + elapsed - exclude > u64::MAX ==> counted(
            before,
            elapsed,
            exclude,
        ) == before + elapsed - exclude - u64::MAX - 1,
{
}

} // verus!
