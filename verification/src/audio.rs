//! Audio streams: which ones are accepted, where each output sample reads its source, and
//! the bounded buffers between decoding, resampling and framing. The samples themselves are
//! of any type.
use std::collections::VecDeque;
use vstd::prelude::*;
use crate::media::{
    codec_of, Codec, CodecConfig, ConfigView, EntryShape, SampleInfo, Track, TrackView,
};

verus! {

/// The rate of the samples that features are computed from.
pub const TARGET_SAMPLE_RATE: u32 = 16_000;

/// Samples in one analysis window.
pub const N_FFT: usize = 400;

/// Samples from the start of one analysis window to the next.
pub const HOP_LENGTH: usize = 160;

/// Values of one frame.
pub const N_MELS: usize = 64;

/// Consumed source samples are released in blocks of this size.
pub const INPUT_DRAIN_SAMPLES: usize = 32_768;

/// Chunks of decoded samples that may wait between a decoding thread and the resampler.
pub const SOURCE_QUEUE_CHUNKS: usize = 32;

/// Taps of the resampler on either side of its centre.
pub const SINC_RADIUS: usize = 64;

/// Fractional positions of the resampler.
pub const SINC_PHASES: usize = 1024;

/// Taps of the resampler.
pub const SINC_TAPS: usize = 129;

/// What the header of a WAV file says.
#[derive(Clone, Copy, Debug, PartialEq, Eq, Structural)]
pub struct WavHeader {
    pub channels: u16,
    pub bits_per_sample: u16,
    /// Samples of all channels together.
    pub samples: u32,
    /// Samples of each channel.
    pub duration: u32,
}

/// Why a WAV file is refused.
#[derive(Clone, Copy, Debug, PartialEq, Eq, Structural)]
pub enum WavError {
    /// WAV channels must be 1..32.
    Channels,
    /// Incomplete WAV channel frame.
    IncompleteFrame,
    /// Unsupported WAV sample depth.
    Depth,
    /// WAV contains no samples.
    Empty,
}

/// What is wrong with a WAV file, if anything is.
pub open spec fn wav_fault(header: WavHeader) -> Option<WavError> {
    if !(1 <= header.channels <= 32) {
        Some(WavError::Channels)
    } else if header.samples as int % header.channels as int != 0 {
        Some(WavError::IncompleteFrame)
    } else if !(1 <= header.bits_per_sample <= 32) {
        Some(WavError::Depth)
    } else if header.duration == 0 {
        Some(WavError::Empty)
    } else {
        None
    }
}

/// What a WAV file is judged to be.
pub open spec fn wav_checked(header: WavHeader) -> Result<u32, WavError> {
    match wav_fault(header) {
        Some(fault) => Err(fault),
        None => Ok(header.duration),
    }
}

/// Judges the header of a WAV file, and gives how many samples each channel has.
pub fn check_wav(header: WavHeader) -> (res: Result<u32, WavError>)
    ensures
        res == wav_checked(header),
        res == match wav_fault(header) {
            Some(fault) => Err::<u32, WavError>(fault),
            None => Ok(header.duration),
        },
{
    if header.channels < 1 || header.channels > 32 {
        return Err(WavError::Channels);
    }
    if header.samples % header.channels as u32 != 0 {
        return Err(WavError::IncompleteFrame);
    }
    if header.bits_per_sample < 1 || header.bits_per_sample > 32 {
        return Err(WavError::Depth);
    }
    if header.duration == 0 {
        return Err(WavError::Empty);
    }
    Ok(header.duration)
}

/// How many frames `len` interleaved samples are, if they are whole ones.
pub fn whole_frames(len: usize, channels: usize) -> (frames: Option<usize>)
    requires
        channels > 0,
    ensures
        match frames {
            Some(frames) => frames * channels == len,
            None => len as int % channels as int != 0,
        },
{
    if len % channels == 0 {
        proof {
            vstd::arithmetic::div_mod::lemma_fundamental_div_mod(len as int, channels as int);
            assert((len as int / channels as int) * channels == channels * (len as int
                / channels as int)) by (nonlinear_arith);
        }
        Some(len / channels)
    } else {
        None
    }
}

/// What an AudioSpecificConfig says.
#[derive(Clone, Copy, Debug, PartialEq, Eq, Structural)]
pub struct AacFacts {
    pub object_type: u8,
    pub sample_rate: u32,
    pub channels: u16,
}

/// Extensions that double the rate or the channels of an AAC stream.
#[derive(Clone, Copy, Debug, PartialEq, Eq, Structural)]
pub struct AacExtensions {
    pub sbr: bool,
    pub ps: bool,
}

/// What `rusty_aac::parse_audio_specific_config` reads in an AudioSpecificConfig, where it
/// can read it.
pub uninterp spec fn aac_config(raw: Seq<u8>) -> Option<AacFacts>;

/// Calls `rusty_aac::parse_audio_specific_config`: object type, rate and channels, or nothing
/// where the bytes are no valid configuration. The result depends on the bytes alone.
#[verifier::external_body]
fn read_aac_config(raw: &[u8]) -> (facts: Option<AacFacts>)
    requires
        raw@.len() * 8 <= usize::MAX,
    ensures
        facts == aac_config(raw@),
{
    rusty_aac::parse_audio_specific_config(raw).ok().map(
        |c|
            AacFacts {
                object_type: c.object_type,
                sample_rate: c.sample_rate,
                channels: c.channels,
            },
    )
}

/// The extensions that a decoder made by `rusty_aac::AacDecoder::with_config_bytes` reports,
/// where one can be made.
pub uninterp spec fn aac_extensions(raw: Seq<u8>) -> Option<Option<AacExtensions>>;

/// Calls `rusty_aac::AacDecoder::with_config_bytes` and asks the decoder for its
/// `sbr_config`: which extensions are signalled, or nothing where no decoder can be made. The
/// result depends on the bytes alone.
#[verifier::external_body]
fn read_aac_extensions(raw: &[u8]) -> (extensions: Option<Option<AacExtensions>>)
    requires
        raw@.len() * 8 <= usize::MAX,
    ensures
        extensions == aac_extensions(raw@),
{
    rusty_aac::AacDecoder::with_config_bytes(raw).ok().map(
        |d| d.sbr_config().map(|s| AacExtensions { sbr: s.sbr_present, ps: s.ps_present }),
    )
}

/// Why an AAC track is refused.
#[derive(Clone, Copy, Debug, PartialEq, Eq, Structural)]
pub enum AacError {
    /// MP4 audio codec unsupported: only AAC-LC is supported.
    Codec,
    /// Missing AAC sample entry.
    MissingEntry,
    /// Missing AAC config.
    MissingConfig,
    /// The AAC config cannot be read.
    ConfigUnreadable,
    /// Only AAC-LC supported; HE-AAC/SBR is unsupported.
    NotLowComplexity,
    /// AAC channel configuration unsupported.
    Channels,
    /// Discontinuous AAC timeline unsupported.
    Discontinuous,
}

/// The decoding time of sample `count`, if those before it follow each other without a gap.
pub open spec fn duration_before(samples: Seq<SampleInfo>, count: nat) -> nat
    decreases count,
{
    if count == 0 {
        0
    } else {
        duration_before(samples, (count - 1) as nat) + samples[count - 1].duration as nat
    }
}

/// The samples follow each other without a gap, and are presented as they are decoded.
pub open spec fn is_continuous(samples: Seq<SampleInfo>) -> bool {
    forall|i: int|
        0 <= i < samples.len() ==> (#[trigger] samples[i]).dts == duration_before(samples, i as nat)
            && samples[i].cts_offset == 0
}

/// Whether the samples follow each other without a gap.
pub fn check_continuous(samples: &Vec<SampleInfo>) -> (continuous: bool)
    ensures
        continuous == is_continuous(samples@),
{
    let mut expected: u128 = 0;
    let mut i: usize = 0;
    while i < samples.len()
        invariant
            i <= samples@.len(),
            expected == duration_before(samples@, i as nat),
            expected <= i * 0xFFFF_FFFF,
            forall|k: int|
                0 <= k < i ==> (#[trigger] samples@[k]).dts == duration_before(samples@, k as nat)
                    && samples@[k].cts_offset == 0,
        decreases samples@.len() - i,
    {
        let sample = samples[i];
        if sample.dts as u128 != expected || sample.cts_offset != 0 {
            assert(!(samples@[i as int].dts == duration_before(samples@, i as nat)
                && samples@[i as int].cts_offset == 0));
            return false;
        }
        expected = expected + sample.duration as u128;
        i += 1;
    }
    true
}

/// What an accepted AAC track delivers.
#[derive(Clone, Copy, Debug, PartialEq, Eq, Structural)]
pub struct AacFormat {
    pub sample_rate: u32,
    pub channels: u16,
}

/// Judges what was read in an AAC configuration.
pub open spec fn format_of(facts: Option<AacFacts>, extensions: Option<Option<AacExtensions>>) -> Result<
    AacFormat,
    AacError,
> {
    match (facts, extensions) {
        (Some(facts), Some(extensions)) => if facts.object_type != 2 || (
        extensions matches Some(e) && (e.sbr || e.ps)) {
            Err(AacError::NotLowComplexity)
        } else if !(1 <= facts.channels <= 6) {
            Err(AacError::Channels)
        } else {
            Ok(AacFormat { sample_rate: facts.sample_rate, channels: facts.channels })
        },
        _ => Err(AacError::ConfigUnreadable),
    }
}

/// Judges what was read in an AAC configuration.
pub fn check_aac_config(facts: Option<AacFacts>, extensions: Option<Option<AacExtensions>>) -> (res:
    Result<AacFormat, AacError>)
    ensures
        res == format_of(facts, extensions),
{
    match (facts, extensions) {
        (Some(facts), Some(extensions)) => {
            let extended: bool = match extensions {
                Some(e) => e.sbr || e.ps,
                None => false,
            };
            if facts.object_type != 2 || extended {
                return Err(AacError::NotLowComplexity);
            }
            if facts.channels < 1 || facts.channels > 6 {
                return Err(AacError::Channels);
            }
            Ok(AacFormat { sample_rate: facts.sample_rate, channels: facts.channels })
        },
        _ => Err(AacError::ConfigUnreadable),
    }
}

/// What an AAC track delivers, or why it is refused. A configuration whose bits a machine
/// word cannot count is not read.
pub open spec fn aac_format(track: TrackView) -> Result<AacFormat, AacError> {
    if codec_of(track) != Some(Codec::Aac) {
        Err(AacError::Codec)
    } else if track.shape != Some(EntryShape::Audio) {
        Err(AacError::MissingEntry)
    } else {
        match track.config {
            ConfigView::Aac(raw) => if raw.len() * 8 > usize::MAX {
                Err(AacError::ConfigUnreadable)
            } else {
                match format_of(aac_config(raw), aac_extensions(raw)) {
                    Err(error) => Err(error),
                    Ok(format) => if is_continuous(track.samples) {
                        Ok(format)
                    } else {
                        Err(AacError::Discontinuous)
                    },
                }
            },
            _ => Err(AacError::MissingConfig),
        }
    }
}

/// Judges an AAC track: only AAC-LC without extensions, of up to six channels, whose access
/// units form a continuous timeline.
pub fn check_aac(track: &Track) -> (res: Result<AacFormat, AacError>)
    ensures
        res == aac_format(track@),
{
    if track.codecs.len() == 0 || track.codecs[0] != Codec::Aac {
        return Err(AacError::Codec);
    }
    match track.shape {
        Some(EntryShape::Audio) => {},
        _ => {
            return Err(AacError::MissingEntry);
        },
    }
    let raw = match &track.config {
        CodecConfig::Aac(raw) => raw,
        _ => {
            return Err(AacError::MissingConfig);
        },
    };
    if raw.len() > usize::MAX / 8 {
        return Err(AacError::ConfigUnreadable);
    }
    let facts = read_aac_config(raw.as_slice());
    let extensions = read_aac_extensions(raw.as_slice());
    match check_aac_config(facts, extensions) {
        Err(error) => Err(error),
        Ok(format) => {
            if check_continuous(&track.samples) {
                Ok(format)
            } else {
                Err(AacError::Discontinuous)
            }
        },
    }
}

/// Why an audio timeline is refused.
#[derive(Clone, Copy, Debug, PartialEq, Eq, Structural)]
pub enum AudioError {
    /// Source audio sample rate must be 8000..192000 Hz.
    SampleRate,
    /// Empty audio timeline.
    Empty,
    /// Audio ended before declared duration.
    EndedEarly { read: usize, declared: usize },
}

/// How many output samples `len` source samples after a delay are.
pub open spec fn output_samples(rate: u32, len: usize, delay: usize) -> int {
    len * 16_000 / (rate as int) + delay
}

/// Where the samples of an audio stream come from.
#[derive(Clone, Copy, Debug, PartialEq, Eq, Structural)]
pub struct AudioPlan {
    /// Samples per second of the source.
    pub rate: u32,
    /// Samples of the source.
    pub source_len: usize,
    /// Output samples before the source starts.
    pub delay: usize,
    /// Output samples in all.
    pub total: usize,
}

/// The plan for `len` source samples at `rate` after `delay` output samples of silence, or why
/// there is none.
pub open spec fn audio_planned(rate: u32, len: usize, delay: usize) -> Result<
    AudioPlan,
    AudioError,
> {
    let total = output_samples(rate, len, delay);
    if !(8_000 <= rate <= 192_000) {
        Err(AudioError::SampleRate)
    } else if total == 0 {
        Err(AudioError::Empty)
    } else {
        Ok(AudioPlan { rate, source_len: len, delay, total: total as usize })
    }
}

/// A plan that was made from a rate, a length and a delay.
pub open spec fn plan_made(plan: AudioPlan) -> bool {
    &&& 8_000 <= plan.rate <= 192_000
    &&& plan.total == output_samples(plan.rate, plan.source_len, plan.delay)
    &&& plan.total > 0
}

impl AudioPlan {
    /// Plans the output of `len` source samples at `rate`, after `delay` output samples of
    /// silence.
    pub fn new(rate: u32, len: usize, delay: usize) -> (res: Result<AudioPlan, AudioError>)
        requires
            len * 16_000 <= u64::MAX,
            8_000 <= rate ==> output_samples(rate, len, delay) <= usize::MAX,
        ensures
            res == audio_planned(rate, len, delay),
            match res {
                Ok(plan) => {
                    &&& plan_made(plan)
                    &&& plan.rate == rate
                    &&& plan.source_len == len
                    &&& plan.delay == delay
                },
                Err(AudioError::SampleRate) => !(8_000 <= rate <= 192_000),
                Err(AudioError::Empty) => 8_000 <= rate <= 192_000 && output_samples(
                    rate,
                    len,
                    delay,
                ) == 0,
                Err(_) => false,
            },
    {
        if rate < 8_000 || rate > 192_000 {
            return Err(AudioError::SampleRate);
        }
        let played: u64 = len as u64 * 16_000 / rate as u64;
        assert(played == len * 16_000 / (rate as int));
        let total: usize = played as usize + delay;
        if total == 0 {
            return Err(AudioError::Empty);
        }
        Ok(AudioPlan { rate, source_len: len, delay, total })
    }
}

/// What one output sample is made from: the source sample at its centre and the fractional
/// position between that one and the next.
#[derive(Clone, Copy, Debug, PartialEq, Eq, Structural)]
pub struct Reading {
    pub center: u64,
    pub phase: usize,
}

/// The nearest of the fractional positions to `rest / 16000`, the last one being the most.
pub open spec fn phase_of(rest: int) -> int {
    let nearest = (2 * rest * 1024 + 16_000) / 32_000;
    if nearest <= 1023 {
        nearest
    } else {
        1023
    }
}

/// What output sample `pos` is made from; before the source starts and after it ends there
/// is silence.
pub open spec fn reading_of(plan: AudioPlan, pos: int) -> Option<Reading> {
    if pos < plan.delay || pos >= plan.total {
        None
    } else {
        let scaled = (pos - plan.delay) * plan.rate;
        Some(
            Reading {
                center: (scaled / 16_000) as u64,
                phase: phase_of(scaled % 16_000) as usize,
            },
        )
    }
}

/// What output sample `pos` is made from.
pub fn place_output(plan: &AudioPlan, pos: usize) -> (reading: Option<Reading>)
    requires
        plan.total * 192_000 <= u64::MAX,
        plan.rate <= 192_000,
    ensures
        reading == reading_of(*plan, pos as int),
        reading matches Some(r) ==> r.phase < SINC_PHASES,
{
    if pos < plan.delay || pos >= plan.total {
        return None;
    }
    let played: u64 = (pos - plan.delay) as u64;
    assert(played * plan.rate <= plan.total * 192_000) by (nonlinear_arith)
        requires
            0 <= played <= plan.total,
            0 <= plan.rate <= 192_000,
    ;
    let scaled: u64 = played * plan.rate as u64;
    let rest: u64 = scaled % 16_000;
    let nearest: u64 = (2 * rest * 1024 + 16_000) / 32_000;
    Some(Reading { center: scaled / 16_000, phase: nearest.min(1023) as usize })
}

/// An output sample reads inside the source: its centre is one of the source's samples, and
/// later output samples never read earlier source samples.
pub proof fn law_readings_stay_inside(plan: AudioPlan, a: int, b: int)
    requires
        plan_made(plan),
        plan.total * 192_000 <= u64::MAX,
        0 <= a <= b,
        reading_of(plan, a) is Some,
        reading_of(plan, b) is Some,
    ensures
        reading_of(plan, b)->Some_0.center < plan.source_len,
        reading_of(plan, a)->Some_0.center <= reading_of(plan, b)->Some_0.center,
{
    let rate = plan.rate as int;
    let len = plan.source_len as int;
    let p = a - plan.delay;
    let q = b - plan.delay;
    let whole = len * 16_000 / rate;
    assert(q < whole);
    assert(q * rate < len * 16_000) by (nonlinear_arith)
        requires
            q < whole,
            whole == len * 16_000 / rate,
            rate > 0,
            len >= 0,
            q >= 0,
    ;
    assert(p * rate <= q * rate) by (nonlinear_arith)
        requires
            p <= q,
            rate > 0,
    ;
    assert(0 <= p * rate) by (nonlinear_arith)
        requires
            0 <= p,
            rate > 0,
    ;
    assert(q * rate <= plan.total * 192_000) by (nonlinear_arith)
        requires
            0 <= q <= plan.total,
            0 <= rate <= 192_000,
    ;
}

/// The first source sample that a reading may need; what stands before it is not read again.
pub open spec fn first_needed(center: u64) -> int {
    if center >= SINC_RADIUS {
        center - SINC_RADIUS
    } else {
        0
    }
}

/// The first source sample that a reading may need.
pub fn keep_from(center: u64) -> (first: u64)
    ensures
        first == first_needed(center),
{
    if center >= SINC_RADIUS as u64 {
        center - SINC_RADIUS as u64
    } else {
        0
    }
}

/// What a source window holds.
pub struct WindowView<T> {
    /// All samples that came in.
    pub heard: Seq<T>,
    /// How many of them were released.
    pub base: int,
    pub source_len: usize,
    pub ended: bool,
}

/// More samples have to come in before the sample at `center` can be read.
pub open spec fn wanting<T>(v: WindowView<T>, center: u64) -> bool {
    !v.ended && v.heard.len() < v.source_len && v.heard.len() < center + SINC_RADIUS + 1
}

/// The window after more samples came in.
pub open spec fn fed<T>(v: WindowView<T>, chunk: Seq<T>) -> WindowView<T> {
    WindowView { heard: v.heard + chunk, ..v }
}

/// The window after what stands before `keep` was released, where it makes a block.
pub open spec fn released<T>(v: WindowView<T>, keep: int) -> WindowView<T> {
    WindowView {
        base: if keep - v.base >= INPUT_DRAIN_SAMPLES {
            if keep <= v.heard.len() {
                keep
            } else {
                v.heard.len() as int
            }
        } else {
            v.base
        },
        ..v
    }
}

/// The source sample that tap `tap` of a reading at `center` sees.
pub open spec fn tapped<T>(v: WindowView<T>, center: int, tap: int) -> Option<T> {
    let place = center + tap - SINC_RADIUS;
    if 0 <= place < v.source_len && place < v.heard.len() {
        Some(v.heard[place])
    } else {
        None
    }
}

/// The middle tap of a reading sees the source sample at its centre, each tap the sample after
/// that of the tap before it, and none sees a sample before the start or past the declared end
/// of the source.
pub proof fn law_taps_surround_the_center<T>(v: WindowView<T>, center: int, tap: int)
    requires
        0 <= center,
        0 <= tap,
    ensures
        center < v.heard.len() && center < v.source_len ==> tapped(v, center, 64) == Some(
            v.heard[center],
        ),
        tapped(v, center + 1, tap) == tapped(v, center, tap + 1),
        center + tap < 64 || center + tap - 64 >= v.source_len || center + tap - 64
            >= v.heard.len() ==> tapped(v, center, tap) is None,
        center + tap >= 64 && center + tap - 64 < v.source_len && center + tap - 64 < v.heard.len()
            ==> tapped(v, center, tap) == Some(v.heard[center + tap - 64]),
{
}

/// The source sample at the centre of a reading.
pub open spec fn centered<T>(v: WindowView<T>, center: int) -> Option<T> {
    if center < v.heard.len() {
        Some(v.heard[center])
    } else {
        None
    }
}

/// At the source's own rate a reading is the sample at its centre, which is what the middle tap
/// sees of the declared samples.
pub proof fn law_center_is_the_middle_tap<T>(v: WindowView<T>, center: int)
    requires
        0 <= center,
    ensures
        center < v.source_len ==> centered(v, center) == tapped(v, center, 64),
        center < v.heard.len() ==> centered(v, center) == Some(v.heard[center]),
        center >= v.heard.len() ==> centered(v, center) is None,
{
}

/// How the end of a source is judged.
pub open spec fn end_of_source<T>(v: WindowView<T>) -> Result<(), AudioError> {
    if v.heard.len() >= v.source_len {
        Ok(())
    } else {
        Err(AudioError::EndedEarly { read: v.heard.len() as usize, declared: v.source_len })
    }
}

/// A source may end exactly where as many samples came in as it declared.
pub proof fn law_source_ends_as_declared<T>(v: WindowView<T>)
    requires
        v.heard.len() <= usize::MAX,
    ensures
        end_of_source(v) is Ok <==> v.source_len <= v.heard.len(),
        v.heard.len() < v.source_len ==> end_of_source(v) == Err::<(), AudioError>(
            AudioError::EndedEarly { read: v.heard.len() as usize, declared: v.source_len },
        ),
{
}

/// The part of a source's samples that readings still need.
pub struct SourceWindow<T> {
    input: Vec<T>,
    base: usize,
    read: usize,
    ended: bool,
    source_len: usize,
    heard: Ghost<Seq<T>>,
}

impl<T> View for SourceWindow<T> {
    type V = WindowView<T>;

    closed spec fn view(&self) -> WindowView<T> {
        WindowView {
            heard: self.heard@,
            base: self.base as int,
            source_len: self.source_len,
            ended: self.ended,
        }
    }
}

impl<T: Copy> SourceWindow<T> {
    /// What is held is what came in and was not released.
    pub closed spec fn valid(&self) -> bool {
        &&& self.base <= self.heard@.len()
        &&& self.read == self.heard@.len()
        &&& self.input@ == self.heard@.skip(self.base as int)
    }

    /// A window on a source of `source_len` samples that nothing came in from yet.
    pub fn new(source_len: usize) -> (window: Self)
        ensures
            window.valid(),
            window@ == (WindowView::<T> {
                heard: Seq::empty(),
                base: 0,
                source_len,
                ended: false,
            }),
    {
        let window = SourceWindow {
            input: Vec::new(),
            base: 0,
            read: 0,
            ended: false,
            source_len,
            heard: Ghost(Seq::empty()),
        };
        assert(window.input@ =~= window.heard@.skip(0));
        window
    }

    /// How many samples are held.
    pub fn held(&self) -> (count: usize)
        requires
            self.valid(),
        ensures
            count == self@.heard.len() - self@.base,
    {
        self.input.len()
    }

    /// Whether more samples have to come in before the sample at `center` can be read.
    pub fn wants(&self, center: u64) -> (more: bool)
        requires
            self.valid(),
            center + SINC_RADIUS + 1 <= u64::MAX,
        ensures
            more == wanting(self@, center),
    {
        !self.ended && self.read < self.source_len && (self.read as u64) < center
            + SINC_RADIUS as u64 + 1
    }

    /// Takes in the next samples.
    pub fn feed(&mut self, chunk: &[T])
        requires
            old(self).valid(),
            old(self)@.heard.len() + chunk@.len() <= usize::MAX,
        ensures
            final(self).valid(),
            final(self)@ == fed(old(self)@, chunk@),
    {
        let ghost before = *self;
        let count: usize = chunk.len();
        let mut i: usize = 0;
        while i < count
            invariant
                i <= count == chunk@.len(),
                self.input@ == before.input@ + chunk@.take(i as int),
                self.base == before.base,
                self.read == before.read,
                self.ended == before.ended,
                self.source_len == before.source_len,
                self.heard@ == before.heard@,
            decreases count - i,
        {
            self.input.push(chunk[i]);
            i += 1;
            assert(self.input@ =~= before.input@ + chunk@.take(i as int));
        }
        self.read = self.read + count;
        proof {
            self.heard = Ghost(self.heard@ + chunk@);
            assert(chunk@.take(i as int) =~= chunk@);
            assert(self.input@ =~= self.heard@.skip(self.base as int));
        }
    }

    /// Notes that the source has no more samples; it must have had as many as it declared.
    pub fn end(&mut self) -> (res: Result<(), AudioError>)
        requires
            old(self).valid(),
        ensures
            final(self).valid(),
            final(self)@ == (WindowView { ended: true, ..old(self)@ }),
            res == end_of_source(old(self)@),
            res == if old(self)@.heard.len() >= old(self)@.source_len {
                Ok::<(), AudioError>(())
            } else {
                Err(
                    AudioError::EndedEarly {
                        read: old(self)@.heard.len() as usize,
                        declared: old(self)@.source_len,
                    },
                )
            },
    {
        self.ended = true;
        if self.read >= self.source_len {
            Ok(())
        } else {
            Err(AudioError::EndedEarly { read: self.read, declared: self.source_len })
        }
    }

    /// The source sample that tap `tap` of a reading at `center` sees: none before the start
    /// or after the declared end of the source, nor where the source gave none.
    pub fn tap(&self, center: u64, tap: usize) -> (sample: Option<T>)
        requires
            self.valid(),
            tap < SINC_TAPS,
            center + SINC_TAPS <= u64::MAX,
            self@.base <= first_needed(center),
        ensures
            sample == tapped(self@, center as int, tap as int),
            sample == ({
                let place = center + tap - SINC_RADIUS;
                if 0 <= place < self@.source_len && place < self@.heard.len() {
                    Some(self@.heard[place])
                } else {
                    None
                }
            }),
    {
        let shifted: u64 = center + tap as u64;
        if shifted < SINC_RADIUS as u64 {
            return None;
        }
        let place: u64 = shifted - SINC_RADIUS as u64;
        if place >= self.source_len as u64 {
            return None;
        }
        let index: usize = place as usize - self.base;
        if index < self.input.len() {
            assert(self.input@[index as int] == self.heard@[place as int]);
            Some(self.input[index])
        } else {
            None
        }
    }

    /// The source sample at the centre of a reading.
    pub fn center_sample(&self, center: u64) -> (sample: Option<T>)
        requires
            self.valid(),
            center <= usize::MAX,
            self@.base <= center,
        ensures
            sample == centered(self@, center as int),
            sample == if center < self@.heard.len() {
                Some(self@.heard[center as int])
            } else {
                None
            },
    {
        let index: usize = center as usize - self.base;
        if index < self.input.len() {
            assert(self.input@[index as int] == self.heard@[center as int]);
            Some(self.input[index])
        } else {
            None
        }
    }

    /// Releases what stands before `keep`, once it makes a block.
    pub fn release(&mut self, keep: u64)
        requires
            old(self).valid(),
        ensures
            final(self).valid(),
            final(self)@ == released(old(self)@, keep as int),
    {
        if keep < self.base as u64 || keep - (self.base as u64) < INPUT_DRAIN_SAMPLES as u64 {
            return;
        }
        let ghost before = *self;
        let gap: u64 = keep - self.base as u64;
        let count: usize = if gap <= self.input.len() as u64 {
            gap as usize
        } else {
            self.input.len()
        };
        let rest: Vec<T> = self.input.split_off(count);
        self.input = rest;
        self.base = self.base + count;
        proof {
            assert(self.input@ =~= self.heard@.skip(self.base as int));
        }
    }
}

/// No more came in than a reading at `center` needs and one chunk of `most` samples on top.
pub open spec fn within_chunk<T>(v: WindowView<T>, center: u64, most: nat) -> bool {
    v.heard.len() <= center + SINC_RADIUS + most
}

/// The buffer stays bounded, however long the source is. Samples only come in where a reading
/// wants them, so no more than a chunk of them is ever early; that stays true for later
/// readings; and once a reading has released what it does not need, less is held than a
/// block, the taps and one chunk together.
pub proof fn law_window_is_bounded<T>(
    v: WindowView<T>,
    center: u64,
    later: u64,
    chunk: Seq<T>,
    most: nat,
)
    requires
        0 <= v.base <= v.heard.len(),
        v.base <= first_needed(center),
        center <= later,
        chunk.len() <= most,
    ensures
        wanting(v, center) ==> within_chunk(fed(v, chunk), center, most),
        within_chunk(v, center, most) ==> within_chunk(v, later, most),
        within_chunk(v, center, most) ==> ({
            let after = released(v, first_needed(center));
            &&& after.heard.len() - after.base < INPUT_DRAIN_SAMPLES + SINC_TAPS + most
            &&& v.base <= after.base <= first_needed(later)
        }),
{
}

/// What is left of a priming run after chunks of these lengths.
pub open spec fn priming_left<T>(priming: nat, chunks: Seq<Seq<T>>) -> nat
    decreases chunks.len(),
{
    if chunks.len() == 0 {
        priming
    } else {
        let left = priming_left(priming, chunks.drop_last());
        let n = chunks.last().len();
        if left <= n {
            0
        } else {
            (left - n) as nat
        }
    }
}

/// What is left of a chunk when `left` samples of priming are still to be dropped.
pub open spec fn trimmed<T>(left: nat, chunk: Seq<T>) -> Seq<T> {
    if left < chunk.len() {
        chunk.skip(left as int)
    } else {
        Seq::empty()
    }
}

/// Drops the samples at the start of a stream that its encoder put there.
pub struct Priming {
    pub left: usize,
}

impl Priming {
    /// What is left of a chunk, if anything is.
    pub fn trim<T: Copy>(&mut self, chunk: &[T]) -> (rest: Option<Vec<T>>)
        ensures
            final(self).left == priming_left(old(self).left as nat, seq![chunk@]),
            final(self).left == if old(self).left <= chunk@.len() {
                0
            } else {
                old(self).left - chunk@.len()
            },
            match rest {
                Some(rest) => old(self).left < chunk@.len() && rest@ == trimmed(
                    old(self).left as nat,
                    chunk@,
                ),
                None => old(self).left >= chunk@.len(),
            },
    {
        proof {
            reveal_with_fuel(priming_left, 2);
            assert(seq![chunk@].drop_last() =~= Seq::<Seq<T>>::empty());
        }
        let count: usize = chunk.len();
        let skip: usize = self.left.min(count);
        self.left = self.left - skip;
        if skip >= count {
            return None;
        }
        let mut rest: Vec<T> = Vec::new();
        let mut i: usize = skip;
        while i < count
            invariant
                skip <= i <= count == chunk@.len(),
                rest@ == chunk@.subrange(skip as int, i as int),
            decreases count - i,
        {
            rest.push(chunk[i]);
            i += 1;
            assert(rest@ =~= chunk@.subrange(skip as int, i as int));
        }
        assert(rest@ =~= chunk@.skip(skip as int));
        Some(rest)
    }
}

/// All samples of the chunks, one after the other.
pub open spec fn joined<T>(chunks: Seq<Seq<T>>) -> Seq<T>
    decreases chunks.len(),
{
    if chunks.len() == 0 {
        Seq::empty()
    } else {
        joined(chunks.drop_last()) + chunks.last()
    }
}

/// The chunks without the priming at their start.
pub open spec fn trimmed_all<T>(priming: nat, chunks: Seq<Seq<T>>) -> Seq<T>
    decreases chunks.len(),
{
    if chunks.len() == 0 {
        Seq::empty()
    } else {
        trimmed_all(priming, chunks.drop_last()) + trimmed(
            priming_left(priming, chunks.drop_last()),
            chunks.last(),
        )
    }
}

/// Priming is dropped exactly once, wherever the chunks are cut: what remains is the whole
/// stream without its first `priming` samples.
pub proof fn law_priming_is_dropped_once<T>(priming: nat, chunks: Seq<Seq<T>>)
    ensures
        trimmed_all(priming, chunks) == if priming <= joined(chunks).len() {
            joined(chunks).skip(priming as int)
        } else {
            Seq::empty()
        },
        priming_left(priming, chunks) == if priming <= joined(chunks).len() {
            0
        } else {
            (priming - joined(chunks).len()) as nat
        },
    decreases chunks.len(),
{
    if chunks.len() > 0 {
        law_priming_is_dropped_once(priming, chunks.drop_last());
        let before = joined(chunks.drop_last());
        let all = joined(chunks);
        if priming <= before.len() {
            assert(all.skip(priming as int) =~= before.skip(priming as int) + chunks.last());
            assert(trimmed(0, chunks.last()) =~= chunks.last());
        } else if priming <= all.len() {
            let left = (priming - before.len()) as nat;
            assert(trimmed_all(priming, chunks) =~= all.skip(priming as int));
        }
    } else {
        assert(trimmed_all(priming, chunks) =~= joined(chunks).skip(0));
    }
}

/// How many hops start inside `total` samples.
pub open spec fn hops_inside(total: int) -> int {
    (total + HOP_LENGTH - 1) / (HOP_LENGTH as int)
}

/// How many of `frames` hops from `next_frame` on start inside `total` samples.
pub open spec fn valid_hops(next_frame: int, frames: int, total: int) -> int {
    let left = hops_inside(total) - next_frame;
    if left <= 0 {
        0
    } else if left <= frames {
        left
    } else {
        frames
    }
}

/// How many of `frames` hops from `next_frame` on start inside `total` samples.
pub fn count_valid(next_frame: usize, frames: usize, total: usize) -> (valid: usize)
    requires
        (next_frame + frames) * HOP_LENGTH <= usize::MAX,
    ensures
        valid == valid_hops(next_frame as int, frames as int, total as int),
{
    let mut valid: usize = 0;
    let mut i: usize = 0;
    while i < frames
        invariant
            i <= frames,
            (next_frame + frames) * HOP_LENGTH <= usize::MAX,
            valid == valid_hops(next_frame as int, i as int, total as int),
            valid <= i,
        decreases frames - i,
    {
        if (next_frame + i) * HOP_LENGTH < total {
            valid += 1;
        }
        i += 1;
    }
    valid
}

/// Hop `k` is counted as valid exactly where it starts inside the samples, and consecutive
/// epochs together count every such hop once.
pub proof fn law_valid_hops_add_up(next_frame: int, first: int, second: int, total: int)
    requires
        0 <= next_frame,
        0 <= first,
        0 <= second,
        0 <= total,
    ensures
        valid_hops(next_frame, first + second, total) == valid_hops(next_frame, first, total)
            + valid_hops(next_frame + first, second, total),
        valid_hops(next_frame, 1, total) == if next_frame * 160 < total {
            1int
        } else {
            0int
        },
{
}

/// Analysis window number `frame` of the samples.
pub open spec fn window_at<T>(heard: Seq<T>, frame: int) -> Seq<T> {
    heard.subrange(frame * HOP_LENGTH, frame * HOP_LENGTH + N_FFT)
}

/// How many samples window number `frame` lacks of `heard` samples.
pub open spec fn lacking(heard: int, frame: int) -> int {
    if heard - frame * HOP_LENGTH >= N_FFT {
        0
    } else {
        N_FFT - (heard - frame * HOP_LENGTH)
    }
}

/// With what a window lacks it is just complete, and it lacks nothing exactly where all of it is
/// there.
pub proof fn law_window_lacks_its_end(heard: int, frame: int)
    ensures
        lacking(heard, frame) >= 0,
        lacking(heard, frame) == 0 <==> frame * 160 + 400 <= heard,
        lacking(heard, frame) > 0 ==> heard + lacking(heard, frame) == frame * 160 + 400,
{
}

/// Analysis windows are 400 samples long, and each starts 160 samples after the one before it.
pub proof fn law_windows_are_a_hop_apart<T>(heard: Seq<T>, frame: int, i: int)
    requires
        0 <= frame,
        frame * 160 + 400 <= heard.len(),
    ensures
        window_at(heard, frame).len() == 400,
        0 <= i < 400 ==> window_at(heard, frame)[i] == heard[frame * 160 + i],
{
}

/// The samples that the next analysis windows are cut from. Windows start a hop apart.
pub struct FrameBuffer<T> {
    samples: VecDeque<T>,
    frame: usize,
    heard: Ghost<Seq<T>>,
}

impl<T: Copy> FrameBuffer<T> {
    /// All samples that came in.
    pub closed spec fn heard(&self) -> Seq<T> {
        self.heard@
    }

    /// The number of the next window.
    pub closed spec fn frame(&self) -> int {
        self.frame as int
    }

    /// What is held is what came in from the start of the next window on.
    pub closed spec fn valid(&self) -> bool {
        &&& self.frame * HOP_LENGTH <= self.heard@.len()
        &&& self.samples@ == self.heard@.skip(self.frame * HOP_LENGTH)
    }

    /// A buffer that nothing came into yet.
    pub fn new() -> (buffer: Self)
        ensures
            buffer.valid(),
            buffer.heard() == Seq::<T>::empty(),
            buffer.frame() == 0,
    {
        let buffer = FrameBuffer { samples: VecDeque::new(), frame: 0, heard: Ghost(Seq::empty()) };
        assert(buffer.samples@ =~= buffer.heard@.skip(0));
        buffer
    }

    /// How many samples the next window still lacks.
    pub fn missing(&self) -> (count: usize)
        requires
            self.valid(),
        ensures
            count == lacking(self.heard().len() as int, self.frame()),
            count == if self.heard().len() - self.frame() * HOP_LENGTH >= N_FFT {
                0
            } else {
                N_FFT - (self.heard().len() - self.frame() * HOP_LENGTH)
            },
    {
        let held: usize = self.samples.len();
        if held >= N_FFT {
            0
        } else {
            N_FFT - held
        }
    }

    /// Takes in the next sample.
    pub fn push(&mut self, sample: T)
        requires
            old(self).valid(),
        ensures
            final(self).valid(),
            final(self).heard() == old(self).heard().push(sample),
            final(self).frame() == old(self).frame(),
    {
        self.samples.push_back(sample);
        proof {
            self.heard = Ghost(self.heard@.push(sample));
            assert(self.samples@ =~= self.heard@.skip(self.frame * HOP_LENGTH));
        }
    }

    /// The next window, which is a hop after the one before it.
    pub fn window(&mut self) -> (window: Vec<T>)
        requires
            old(self).valid(),
            old(self).heard().len() - old(self).frame() * HOP_LENGTH >= N_FFT,
            old(self).frame() < usize::MAX,
        ensures
            final(self).valid(),
            window@ == window_at(old(self).heard(), old(self).frame()),
            window@ == old(self).heard().subrange(
                old(self).frame() * HOP_LENGTH,
                old(self).frame() * HOP_LENGTH + N_FFT,
            ),
            final(self).heard() == old(self).heard(),
            final(self).frame() == old(self).frame() + 1,
    {
        let ghost start = self.frame * HOP_LENGTH;
        let ghost all = self.heard@;
        let mut window: Vec<T> = Vec::new();
        let mut i: usize = 0;
        while i < N_FFT
            invariant
                i <= N_FFT,
                self.samples@ == all.skip(start),
                0 <= start,
                start + N_FFT <= all.len(),
                self.frame == old(self).frame,
                self.heard@ == all,
                window@ == all.subrange(start, start + i),
            decreases N_FFT - i,
        {
            window.push(self.samples[i]);
            i += 1;
            assert(window@ =~= all.subrange(start, start + i));
        }
        let mut dropped: usize = 0;
        while dropped < HOP_LENGTH
            invariant
                dropped <= HOP_LENGTH,
                0 <= start,
                start + N_FFT <= all.len(),
                self.samples@ == all.skip(start + dropped),
                self.frame == old(self).frame,
                self.heard@ == all,
            decreases HOP_LENGTH - dropped,
        {
            let _ = self.samples.pop_front();
            dropped += 1;
            assert(self.samples@ =~= all.skip(start + dropped));
        }
        self.frame += 1;
        window
    }
}

/// The length of an audio stream in milliseconds, rounded up.
pub fn duration_ms(total: usize) -> (ms: u64)
    requires
        total * 1000 <= u64::MAX,
    ensures
        ms == crate::arith::ceil_div(total * 1000, 16_000),
{
    crate::arith::divide_up(total as u64 * 1000, 16_000)
}

/// A WAV file is accepted, with the samples of each channel, exactly where it has one to
/// thirty-two channels, whole frames, one to thirty-two bits per sample, and some sample.
/// Otherwise the first of these that fails is named.
pub proof fn law_wav_accepts_whole_frames(header: WavHeader, frames: int)
    ensures
        wav_checked(header) is Ok ==> {
            &&& 1 <= header.channels && header.channels <= 32
            &&& 1 <= header.bits_per_sample && header.bits_per_sample <= 32
            &&& header.duration > 0
            &&& wav_checked(header)->Ok_0 == header.duration
        },
        1 <= header.channels && header.channels <= 32 && header.samples == frames * header.channels
            && 1 <= header.bits_per_sample && header.bits_per_sample <= 32 && header.duration > 0
            ==> wav_checked(header) == Ok::<u32, WavError>(header.duration),
        header.channels == 1 && 1 <= header.bits_per_sample && header.bits_per_sample <= 32
            && header.duration > 0 ==> wav_checked(header) == Ok::<u32, WavError>(header.duration),
        header.channels > 0 && frames * header.channels < header.samples && header.samples < (
        frames + 1) * header.channels ==> wav_checked(header) is Err,
        wav_checked(header) == Err::<u32, WavError>(WavError::Channels) <==> (header.channels == 0
            || header.channels > 32),
        wav_checked(header) == Err::<u32, WavError>(WavError::Depth) ==> (header.bits_per_sample
            == 0 || header.bits_per_sample > 32),
        wav_checked(header) == Err::<u32, WavError>(WavError::Empty) ==> header.duration == 0,
        wav_checked(header) == Err::<u32, WavError>(WavError::IncompleteFrame) ==> header.samples
            != frames * header.channels,
{
    let n = header.channels as int;
    let all = header.samples as int;
    if n > 0 {
        vstd::arithmetic::div_mod::lemma_fundamental_div_mod(all, n);
        if all == frames * n {
            vstd::arithmetic::div_mod::lemma_mod_multiples_basic(frames, n);
        }
        if frames * n < all && all < (frames + 1) * n {
            assert((frames + 1) * n == frames * n + n) by (nonlinear_arith);
            vstd::arithmetic::div_mod::lemma_fundamental_div_mod_converse(
                all,
                n,
                frames,
                all - frames * n,
            );
        }
    }
}

/// Output sample `pos` of a plan is silent before the delay is over and after the last one.
/// Every other one is read at the source position that its time falls on: its centre is the
/// last source sample at or before that position, and its phase the nearest of 1024 steps to
/// the rest of the way, halves going up and the last step being the most.
pub proof fn law_reading_stands_at_source_position(plan: AudioPlan, pos: int)
    requires
        plan.rate <= 192_000,
        plan.total * 192_000 <= u64::MAX,
        0 <= pos,
    ensures
        pos < plan.delay || plan.total <= pos ==> reading_of(plan, pos) is None,
        plan.delay <= pos && pos < plan.total ==> {
            &&& reading_of(plan, pos) is Some
            &&& ({
                let center = reading_of(plan, pos)->Some_0.center as int;
                let phase = reading_of(plan, pos)->Some_0.phase as int;
                let position = (pos - plan.delay) * plan.rate;
                let rest = position - center * 16_000;
                &&& center * 16_000 <= position
                &&& position < (center + 1) * 16_000
                &&& 0 <= phase && phase <= 1023
                &&& (2 * phase - 1) * 16_000 <= 2048 * rest
                &&& phase < 1023 ==> 2048 * rest < (2 * phase + 1) * 16_000
            })
        },
{
    if plan.delay <= pos && pos < plan.total {
        let played = pos - plan.delay;
        let position = played * plan.rate;
        assert(0 <= position <= plan.total * 192_000) by (nonlinear_arith)
            requires
                0 <= played <= plan.total,
                0 <= plan.rate <= 192_000,
                position == played * plan.rate,
        ;
        let center = position / 16_000;
        let rest = position % 16_000;
        assert(0 <= center <= u64::MAX);
        assert(position == center * 16_000 + rest && 0 <= rest < 16_000);
        let nearest = (2 * rest * 1024 + 16_000) / 32_000;
        assert(nearest * 32_000 <= 2 * rest * 1024 + 16_000 < nearest * 32_000 + 32_000);
        assert(0 <= phase_of(rest) <= 1023);
        assert(reading_of(plan, pos) == Some(
            Reading { center: center as u64, phase: phase_of(rest) as usize },
        ));
    }
}

/// An accepted plan has a rate from 8000 to 192000, and plays the longest run of output
/// samples after its delay that its source covers; a rate outside of these, and only that, is
/// refused as such, and an empty timeline as empty.
pub proof fn law_plan_plays_the_source(rate: u32, len: usize, delay: usize)
    requires
        rate > 0,
        len * 16_000 / rate as int + delay <= usize::MAX,
    ensures
        audio_planned(rate, len, delay) == Err::<AudioPlan, AudioError>(AudioError::SampleRate)
            <==> (rate < 8_000 || rate > 192_000),
        audio_planned(rate, len, delay) matches Ok(plan) ==> {
            let played = plan.total - plan.delay;
            &&& plan.rate == rate && plan.source_len == len && plan.delay == delay
            &&& played >= 0
            &&& played * rate <= len * 16_000
            &&& len * 16_000 < (played + 1) * rate
            &&& plan.total > 0
        },
        8_000 <= rate && rate <= 192_000 ==> (audio_planned(rate, len, delay) is Err <==> (delay
            == 0 && len * 16_000 < rate)),
        audio_planned(rate, len, delay) matches Err(e) ==> e == AudioError::SampleRate || e
            == AudioError::Empty,
{
    let n = len * 16_000;
    let q = n / rate as int;
    vstd::arithmetic::div_mod::lemma_fundamental_div_mod(n, rate as int);
    assert(rate * q == q * rate && (q + 1) * rate == q * rate + rate) by (nonlinear_arith);
    assert(q >= 0) by (nonlinear_arith)
        requires
            q == n / rate as int,
            n >= 0,
            rate > 0,
    ;
    if q == 0 {
        assert(q * rate == 0) by (nonlinear_arith)
            requires
                q == 0,
        ;
    } else {
        assert(q * rate >= rate) by (nonlinear_arith)
            requires
                q >= 1,
                rate > 0,
        ;
    }
}

/// Features are cut from 16 kHz samples: windows of 25 ms start 10 ms apart, and an output
/// sample sees its centre and 64 source samples on either side, at one of 1024 phases.
pub proof fn law_frame_geometry()
    ensures
        TARGET_SAMPLE_RATE == 16_000,
        HOP_LENGTH * 100 == TARGET_SAMPLE_RATE,
        N_FFT * 40 == TARGET_SAMPLE_RATE,
        N_MELS == 64,
        SINC_TAPS == 64 + 1 + 64,
        SINC_RADIUS == 64,
        SINC_PHASES == 1024,
        INPUT_DRAIN_SAMPLES == 32_768,
        SOURCE_QUEUE_CHUNKS == 32,
{
}

/// A reading at `center` sees the source samples from 64 before it to 64 after it. None of
/// them stands before the first that is needed, and that one is seen.
pub proof fn law_first_needed_is_first_seen(center: u64, place: int)
    ensures
        0 <= place && center - 64 <= place && place <= center + 64 ==> first_needed(center)
            <= place,
        0 <= first_needed(center),
        center - 64 <= first_needed(center) && first_needed(center) <= center,
{
}

/// A reading wants more samples exactly while the source goes on and some declared sample that
/// the reading sees did not come in.
pub proof fn law_reading_wants_what_it_sees<T>(v: WindowView<T>, center: u64, place: int)
    ensures
        !wanting(v, center) && !v.ended && place <= center + 64 && place < v.source_len ==> place
            < v.heard.len(),
        wanting(v, center) ==> !v.ended && v.heard.len() <= center + 64 && v.heard.len()
            < v.source_len,
        v.ended ==> !wanting(v, center),
{
}

/// Samples that come in are appended; releasing forgets none that came in, lets go only of
/// what stands before `keep`, and only in blocks of at least 32768.
pub proof fn law_window_loses_only_consumed<T>(v: WindowView<T>, chunk: Seq<T>, keep: int)
    requires
        0 <= v.base <= v.heard.len(),
    ensures
        fed(v, chunk).heard == v.heard + chunk,
        fed(v, chunk).base == v.base && fed(v, chunk).ended == v.ended,
        fed(v, chunk).source_len == v.source_len,
        released(v, keep).heard == v.heard && released(v, keep).ended == v.ended,
        released(v, keep).source_len == v.source_len,
        released(v, keep).base == v.base || released(v, keep).base <= keep,
        v.base <= released(v, keep).base && released(v, keep).base <= v.heard.len(),
        keep - v.base < 32_768 ==> released(v, keep).base == v.base,
        keep - v.base >= 32_768 ==> released(v, keep).base == keep || released(v, keep).base
            == v.heard.len(),
{
}

/// Samples are continuous exactly where the first is due at zero, each is due when the one
/// before it ends, and each is presented when it is due.
pub proof fn law_continuous_samples_abut(samples: Seq<SampleInfo>)
    ensures
        is_continuous(samples) <==> {
            &&& samples.len() > 0 ==> samples[0].dts == 0
            &&& forall|i: int|
                0 < i < samples.len() ==> (#[trigger] samples[i]).dts == samples[i - 1].dts
                    + samples[i - 1].duration
            &&& forall|i: int| 0 <= i < samples.len() ==> (#[trigger] samples[i]).cts_offset == 0
        },
{
    if is_continuous(samples) {
        assert(samples.len() > 0 ==> samples[0].dts == duration_before(samples, 0));
        assert forall|i: int| 0 < i < samples.len() implies (#[trigger] samples[i]).dts
            == samples[i - 1].dts + samples[i - 1].duration by {
            assert(samples[i - 1].dts == duration_before(samples, (i - 1) as nat));
        }
    }
    if (samples.len() > 0 ==> samples[0].dts == 0) && (forall|i: int|
        0 < i < samples.len() ==> (#[trigger] samples[i]).dts == samples[i - 1].dts + samples[i
            - 1].duration) {
        assert forall|i: int| 0 <= i < samples.len() implies (#[trigger] samples[i]).dts
            == duration_before(samples, i as nat) by {
            lemma_abutting(samples, i);
        }
    }
}

proof fn lemma_abutting(samples: Seq<SampleInfo>, i: int)
    requires
        0 <= i < samples.len(),
        samples[0].dts == 0,
        forall|k: int|
            0 < k < samples.len() ==> (#[trigger] samples[k]).dts == samples[k - 1].dts + samples[k
                - 1].duration,
    ensures
        samples[i].dts == duration_before(samples, i as nat),
    decreases i,
{
    if i > 0 {
        lemma_abutting(samples, i - 1);
        assert(samples[i].dts == samples[i - 1].dts + samples[i - 1].duration);
    }
}

/// An AAC configuration is accepted, with its own rate and channels, exactly where it can be
/// read, is of object type two, signals neither extension, and has one to six channels.
pub proof fn law_aac_is_low_complexity(
    facts: Option<AacFacts>,
    extensions: Option<Option<AacExtensions>>,
)
    ensures
        format_of(facts, extensions) matches Ok(format) ==> {
            &&& facts is Some && extensions is Some
            &&& facts->Some_0.object_type == 2
            &&& extensions->Some_0 matches Some(e) ==> !e.sbr && !e.ps
            &&& 1 <= facts->Some_0.channels && facts->Some_0.channels <= 6
            &&& format.sample_rate == facts->Some_0.sample_rate
            &&& format.channels == facts->Some_0.channels
        },
        facts is Some && extensions is Some && facts->Some_0.object_type == 2 && (
        extensions->Some_0 matches Some(e) ==> !e.sbr && !e.ps) && 1 <= facts->Some_0.channels
            && facts->Some_0.channels <= 6 ==> format_of(facts, extensions) is Ok,
        format_of(facts, extensions) == Err::<AacFormat, AacError>(AacError::ConfigUnreadable)
            <==> (facts is None || extensions is None),
        format_of(facts, extensions) == Err::<AacFormat, AacError>(AacError::Channels) ==> (
        facts->Some_0.channels == 0 || facts->Some_0.channels > 6) && facts->Some_0.object_type
            == 2,
        format_of(facts, extensions) matches Err(e) ==> e == AacError::ConfigUnreadable || e
            == AacError::Channels || e == AacError::NotLowComplexity,
{
}

/// A track is accepted exactly where its first sample description is one of AAC sound with a
/// configuration that is accepted and its samples are continuous, and it then delivers what
/// the configuration says.
pub proof fn law_accepted_aac_track(track: TrackView, raw: Seq<u8>)
    ensures
        aac_format(track) matches Ok(format) ==> {
            &&& track.codecs.len() > 0 && track.codecs[0] == Codec::Aac
            &&& track.shape == Some(EntryShape::Audio)
            &&& track.config is Aac
            &&& is_continuous(track.samples)
            &&& track.config == ConfigView::Aac(raw) ==> format_of(
                aac_config(raw),
                aac_extensions(raw),
            ) == Ok::<AacFormat, AacError>(format)
        },
        track.codecs.len() > 0 && track.codecs[0] == Codec::Aac && track.shape == Some(
            EntryShape::Audio,
        ) && track.config == ConfigView::Aac(raw) && raw.len() * 8 <= usize::MAX && is_continuous(
            track.samples,
        ) ==> aac_format(track) == format_of(aac_config(raw), aac_extensions(raw)),
        aac_format(track) == Err::<AacFormat, AacError>(AacError::Codec) <==> !(track.codecs.len()
            > 0 && track.codecs[0] == Codec::Aac),
        aac_format(track) == Err::<AacFormat, AacError>(AacError::Discontinuous)
            ==> !is_continuous(track.samples),
{
}

} // verus!
