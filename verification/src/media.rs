//! MP4 movies as plain values, and the presentation timeline of a track.
use vstd::prelude::*;
use crate::arith::clamp_i64;

verus! {

/// What a track carries.
#[derive(Clone, Copy, Debug, PartialEq, Eq, Structural)]
pub enum TrackKind {
    Video,
    Audio,
    Other,
}

/// How a track is coded.
#[derive(Clone, Copy, Debug, PartialEq, Eq, Structural)]
pub enum Codec {
    H264,
    H265,
    Aac,
    Other,
}

/// One entry of an edit list. The rate is the bit pattern of a double.
#[derive(Clone, Copy, Debug, PartialEq, Eq, Structural)]
pub struct Edit {
    pub segment_duration: u64,
    pub media_time: i64,
    pub rate_bits: u64,
}

/// The bit pattern of the rate at which media plays as it was recorded.
pub const UNIT_RATE_BITS: u64 = 0x3FF0_0000_0000_0000;

/// One sample of a track.
#[derive(Clone, Copy, Debug, PartialEq, Eq, Structural)]
pub struct SampleInfo {
    pub offset: u64,
    pub size: u32,
    pub dts: u64,
    pub duration: u32,
    pub cts_offset: i32,
    pub is_sync: bool,
}

/// The colours that a container announces.
#[derive(Clone, Copy, Debug, PartialEq, Eq, Structural)]
pub enum ColourInfo {
    Nclx { matrix: u16, transfer: u16, full_range: bool },
    Other,
}

/// The decoder configuration in a sample description.
#[derive(Debug)]
pub enum CodecConfig {
    /// An avcC record.
    Avc(Vec<u8>),
    /// An hvcC record.
    Hevc(Vec<u8>),
    /// An AudioSpecificConfig.
    Aac(Vec<u8>),
    Other,
}

/// What a decoder configuration holds.
pub enum ConfigView {
    Avc(Seq<u8>),
    Hevc(Seq<u8>),
    Aac(Seq<u8>),
    Other,
}

impl View for CodecConfig {
    type V = ConfigView;

    open spec fn view(&self) -> ConfigView {
        match *self {
            CodecConfig::Avc(raw) => ConfigView::Avc(raw@),
            CodecConfig::Hevc(raw) => ConfigView::Hevc(raw@),
            CodecConfig::Aac(raw) => ConfigView::Aac(raw@),
            CodecConfig::Other => ConfigView::Other,
        }
    }
}

/// What kind of sample description a track has.
#[derive(Clone, Copy, Debug, PartialEq, Eq, Structural)]
pub enum EntryShape {
    Video { width: u16, height: u16, colour: Option<ColourInfo> },
    Audio,
    Other,
}

/// What a track holds.
pub struct TrackView {
    pub kind: TrackKind,
    pub timescale: u32,
    pub duration: u64,
    pub edits: Seq<Edit>,
    /// How each sample description is coded.
    pub codecs: Seq<Codec>,
    /// The first sample description.
    pub shape: Option<EntryShape>,
    pub config: ConfigView,
    pub samples: Seq<SampleInfo>,
}

/// A track of a movie.
pub struct Track {
    pub kind: TrackKind,
    pub timescale: u32,
    pub duration: u64,
    pub edits: Vec<Edit>,
    pub codecs: Vec<Codec>,
    pub shape: Option<EntryShape>,
    pub config: CodecConfig,
    pub samples: Vec<SampleInfo>,
}

impl View for Track {
    type V = TrackView;

    open spec fn view(&self) -> TrackView {
        TrackView {
            kind: self.kind,
            timescale: self.timescale,
            duration: self.duration,
            edits: self.edits@,
            codecs: self.codecs@,
            shape: self.shape,
            config: self.config@,
            samples: self.samples@,
        }
    }
}

/// A movie: its own timescale and its tracks.
pub struct Movie {
    pub timescale: u32,
    pub tracks: Vec<Track>,
}

/// The tracks as plain values.
pub open spec fn track_views(tracks: Seq<Track>) -> Seq<TrackView> {
    tracks.map_values(|track: Track| track@)
}

/// `mp4io::Mp4`: a parsed MP4 file that borrows the bytes it was read from.
#[verifier::external_type_specification]
#[verifier::external_body]
pub struct ExMp4<'a>(mp4io::Mp4<'a>);

/// `mp4io::Error`: why a file could not be parsed.
#[verifier::external_type_specification]
#[verifier::external_body]
pub struct ExMp4Error(mp4io::Error);

/// What `mp4io::Mp4::parse_with_limits` finds in the bytes of a file that it accepts, under a
/// ceiling on the bytes of the sample index: the movie's timescale and its tracks.
pub uninterp spec fn movie_in(data: Seq<u8>, max_index_bytes: usize) -> (u32, Seq<TrackView>);

/// The tracks that an `mp4io::Mp4` holds.
pub uninterp spec fn tracks_held(mp4: mp4io::Mp4<'_>) -> Seq<TrackView>;

/// How many samples the tracks have together.
pub open spec fn sample_total(tracks: Seq<TrackView>) -> nat
    decreases tracks.len(),
{
    if tracks.len() == 0 {
        0
    } else {
        sample_total(tracks.drop_last()) + tracks.last().samples.len()
    }
}

/// The least that one sample takes in a sample index: three numbers of eight, four and eight
/// bytes, three more of four, and a flag.
pub const SAMPLE_RECORD_BYTES: usize = 33;

/// The sample index of the tracks stays within a ceiling.
pub open spec fn index_fits(tracks: Seq<TrackView>, max_index_bytes: usize) -> bool {
    sample_total(tracks) * SAMPLE_RECORD_BYTES <= max_index_bytes
}

/// Calls `mp4io::Mp4::parse_with_limits` in its strict mode, with a ceiling on the bytes of
/// the sample index. What is found in an accepted file depends on its bytes alone, and its
/// sample index fits the ceiling. Which other files are refused is not stated: the parser
/// also refuses one for which the allocator has no room, and it counts a record with the
/// padding that the machine gives it.
#[verifier::external_body]
fn parse_mp4<'a>(data: &'a [u8], max_index_bytes: usize) -> (res: Result<
    mp4io::Mp4<'a>,
    mp4io::Error,
>)
    ensures
        res matches Ok(mp4) ==> tracks_held(mp4) == movie_in(data@, max_index_bytes).1,
        res matches Ok(mp4) ==> timescale_held(mp4) == movie_in(data@, max_index_bytes).0,
        res matches Ok(mp4) ==> index_fits(tracks_held(mp4), max_index_bytes),
{
    let limits = mp4io::Limits::default().with_max_index_bytes(max_index_bytes);
    mp4io::Mp4::parse_with_limits(data, mp4io::Strictness::Strict, limits)
}

/// The movie timescale that an `mp4io::Mp4` holds.
pub uninterp spec fn timescale_held(mp4: mp4io::Mp4<'_>) -> u32;

/// Calls `mp4io::Mp4::timescale`: the movie timescale.
#[verifier::external_body]
fn mp4_timescale(mp4: &mp4io::Mp4<'_>) -> (timescale: u32)
    ensures
        timescale == timescale_held(*mp4),
{
    mp4.timescale()
}

/// Calls `mp4io::Mp4::tracks`: how many tracks there are.
#[verifier::external_body]
fn mp4_track_count(mp4: &mp4io::Mp4<'_>) -> (count: usize)
    ensures
        count == tracks_held(*mp4).len(),
{
    mp4.tracks().len()
}

/// Calls `mp4io::Track::kind`: whether a track carries pictures, sound or something else.
#[verifier::external_body]
fn mp4_track_kind(mp4: &mp4io::Mp4<'_>, i: usize) -> (kind: TrackKind)
    requires
        i < tracks_held(*mp4).len(),
    ensures
        kind == tracks_held(*mp4)[i as int].kind,
{
    match mp4.tracks()[i].kind() {
        mp4io::TrackKind::Video => TrackKind::Video,
        mp4io::TrackKind::Audio => TrackKind::Audio,
        _ => TrackKind::Other,
    }
}

/// Calls `mp4io::Track::timescale`: the timescale of a track.
#[verifier::external_body]
fn mp4_track_timescale(mp4: &mp4io::Mp4<'_>, i: usize) -> (timescale: u32)
    requires
        i < tracks_held(*mp4).len(),
    ensures
        timescale == tracks_held(*mp4)[i as int].timescale,
{
    mp4.tracks()[i].timescale()
}

/// Calls `mp4io::Track::duration`: the duration of a track in its own timescale.
#[verifier::external_body]
fn mp4_track_duration(mp4: &mp4io::Mp4<'_>, i: usize) -> (duration: u64)
    requires
        i < tracks_held(*mp4).len(),
    ensures
        duration == tracks_held(*mp4)[i as int].duration,
{
    mp4.tracks()[i].duration()
}

/// Calls `mp4io::Track::edits`: the edit list of a track, each rate as its bit pattern.
#[verifier::external_body]
fn mp4_track_edits(mp4: &mp4io::Mp4<'_>, i: usize) -> (edits: Vec<Edit>)
    requires
        i < tracks_held(*mp4).len(),
    ensures
        edits@ == tracks_held(*mp4)[i as int].edits,
{
    mp4.tracks()[i].edits().iter().map(
        |e|
            Edit {
                segment_duration: e.segment_duration,
                media_time: e.media_time,
                rate_bits: e.media_rate.to_bits(),
            },
    ).collect()
}

/// Calls `mp4io::Track::sample_entries`: the codec of each sample description of a track.
#[verifier::external_body]
fn mp4_track_codecs(mp4: &mp4io::Mp4<'_>, i: usize) -> (codecs: Vec<Codec>)
    requires
        i < tracks_held(*mp4).len(),
    ensures
        codecs@ == tracks_held(*mp4)[i as int].codecs,
{
    mp4.tracks()[i].sample_entries().iter().map(
        |e|
            match e.codec() {
                mp4io::Codec::H264 => Codec::H264,
                mp4io::Codec::H265 => Codec::H265,
                mp4io::Codec::Aac => Codec::Aac,
                _ => Codec::Other,
            },
    ).collect()
}

/// Calls `mp4io::Track::sample_entry`: whether the first sample description of a track is one
/// of pictures, with its size and colours, one of sound, or another.
#[verifier::external_body]
fn mp4_track_shape(mp4: &mp4io::Mp4<'_>, i: usize) -> (shape: Option<EntryShape>)
    requires
        i < tracks_held(*mp4).len(),
    ensures
        shape == tracks_held(*mp4)[i as int].shape,
{
    mp4.tracks()[i].sample_entry().map(|e| match e {
        mp4io::SampleEntry::Video(v) => EntryShape::Video {
            width: v.width,
            height: v.height,
            colour: v.colour_info.as_ref().map(|c| match *c {
                mp4io::ColourInfo::Nclx { matrix_coefficients: matrix, transfer_characteristics: transfer, full_range, .. } =>
                    ColourInfo::Nclx { matrix, transfer, full_range },
                _ => ColourInfo::Other,
            }),
        },
        mp4io::SampleEntry::Audio(_) => EntryShape::Audio,
        _ => EntryShape::Other,
    })
}

/// Calls `mp4io::Track::sample_entry`: the decoder configuration in the first sample
/// description of a track.
#[verifier::external_body]
fn mp4_track_config(mp4: &mp4io::Mp4<'_>, i: usize) -> (config: CodecConfig)
    requires
        i < tracks_held(*mp4).len(),
    ensures
        config@ == tracks_held(*mp4)[i as int].config,
{
    let config = match mp4.tracks()[i].sample_entry() {
        Some(mp4io::SampleEntry::Video(v)) => &v.config,
        Some(mp4io::SampleEntry::Audio(a)) => &a.config,
        _ => return CodecConfig::Other,
    };
    match config {
        mp4io::CodecConfig::Avc(c) => CodecConfig::Avc(c.raw.clone()),
        mp4io::CodecConfig::Hevc(c) => CodecConfig::Hevc(c.raw.clone()),
        mp4io::CodecConfig::Aac(c) => CodecConfig::Aac(c.decoder_specific.clone()),
        _ => CodecConfig::Other,
    }
}

/// Calls `mp4io::Track::sample_table`: where each sample of a track is and when it is due.
#[verifier::external_body]
fn mp4_track_samples(mp4: &mp4io::Mp4<'_>, i: usize) -> (samples: Vec<SampleInfo>)
    requires
        i < tracks_held(*mp4).len(),
    ensures
        samples@ == tracks_held(*mp4)[i as int].samples,
{
    mp4.tracks()[i].sample_table().iter().map(
        |s|
            SampleInfo {
                offset: s.offset,
                size: s.size,
                dts: s.dts,
                duration: s.duration,
                cts_offset: s.cts_offset,
                is_sync: s.is_sync,
            },
    ).collect()
}

/// The most bytes that the sample index of a movie may take.
pub const MAX_INDEX_BYTES: usize = 16 * 1024 * 1024;

/// Why a file is not a movie that can be read.
pub enum MovieError {
    /// The boxes of the file are not in order.
    Malformed(mp4io::Error),
}

/// The movie that a parser found, or why it found none.
pub fn movie_of(parsed: Result<mp4io::Mp4<'_>, mp4io::Error>) -> (res: Result<Movie, MovieError>)
    ensures
        match parsed {
            Ok(mp4) => {
                &&& res is Ok
                &&& res->Ok_0.timescale == timescale_held(mp4)
                &&& track_views(res->Ok_0.tracks@) == tracks_held(mp4)
            },
            Err(error) => res == Err::<Movie, MovieError>(MovieError::Malformed(error)),
        },
{
    let mp4 = match parsed {
        Ok(mp4) => mp4,
        Err(error) => {
            return Err(MovieError::Malformed(error));
        },
    };
    let count: usize = mp4_track_count(&mp4);
    let mut tracks: Vec<Track> = Vec::new();
    let mut i: usize = 0;
    while i < count
        invariant
            i <= count == tracks_held(mp4).len(),
            track_views(tracks@) == tracks_held(mp4).take(i as int),
        decreases count - i,
    {
        let track = Track {
            kind: mp4_track_kind(&mp4, i),
            timescale: mp4_track_timescale(&mp4, i),
            duration: mp4_track_duration(&mp4, i),
            edits: mp4_track_edits(&mp4, i),
            codecs: mp4_track_codecs(&mp4, i),
            shape: mp4_track_shape(&mp4, i),
            config: mp4_track_config(&mp4, i),
            samples: mp4_track_samples(&mp4, i),
        };
        assert(track@ == tracks_held(mp4)[i as int]);
        let ghost before = tracks@;
        tracks.push(track);
        i += 1;
        assert(track_views(tracks@) =~= track_views(before).push(track@));
        assert(tracks_held(mp4).take(i as int) =~= tracks_held(mp4).take(i - 1).push(track@));
    }
    assert(tracks_held(mp4).take(i as int) =~= tracks_held(mp4));
    Ok(Movie { timescale: mp4_timescale(&mp4), tracks })
}

/// Reads the movie in the bytes of a file, whose sample index may take `MAX_INDEX_BYTES`.
/// Whether a file within that ceiling is accepted is left to `mp4io::Mp4::parse_with_limits`;
/// what becomes of either answer, `movie_of` says.
pub fn read_movie(data: &[u8]) -> (res: Result<Movie, MovieError>)
    ensures
        res matches Ok(movie) ==> {
            &&& (movie.timescale, track_views(movie.tracks@)) == movie_in(data@, MAX_INDEX_BYTES)
            &&& index_fits(track_views(movie.tracks@), MAX_INDEX_BYTES)
        },
{
    movie_of(parse_mp4(data, MAX_INDEX_BYTES))
}

/// How the first sample description of a track is coded.
pub open spec fn codec_of(track: TrackView) -> Option<Codec> {
    if track.codecs.len() > 0 {
        Some(track.codecs[0])
    } else {
        None
    }
}

/// The track carries pictures in this coding.
pub open spec fn is_video_in(track: TrackView, codec: Codec) -> bool {
    track.kind == TrackKind::Video && codec_of(track) == Some(codec)
}

/// The first track that carries pictures in the given coding.
pub fn find_video(movie: &Movie, codec: Codec) -> (found: Option<usize>)
    ensures
        match found {
            Some(i) => {
                &&& i < movie.tracks@.len()
                &&& is_video_in(movie.tracks@[i as int]@, codec)
                &&& forall|j: int| 0 <= j < i ==> !is_video_in(#[trigger] movie.tracks@[j]@, codec)
            },
            None => forall|j: int|
                0 <= j < movie.tracks@.len() ==> !is_video_in(#[trigger] movie.tracks@[j]@, codec),
        },
{
    let mut i: usize = 0;
    while i < movie.tracks.len()
        invariant
            i <= movie.tracks@.len(),
            forall|j: int| 0 <= j < i ==> !is_video_in(#[trigger] movie.tracks@[j]@, codec),
        decreases movie.tracks@.len() - i,
    {
        let track = &movie.tracks[i];
        if track.kind == TrackKind::Video && track.codecs.len() > 0 && track.codecs[0] == codec {
            return Some(i);
        }
        i += 1;
    }
    None
}

/// How many of the tracks are of the given kind.
pub open spec fn count_kind(tracks: Seq<Track>, kind: TrackKind) -> nat {
    tracks.filter(|track: Track| track.kind == kind).len()
}

/// More than one track is of a kind of which one can be used.
#[derive(Clone, Copy, Debug, PartialEq, Eq, Structural)]
pub struct SeveralTracks;

/// The one track of the given kind, if there is one.
pub fn only_track(movie: &Movie, kind: TrackKind) -> (res: Result<Option<usize>, SeveralTracks>)
    ensures
        match res {
            Ok(None) => count_kind(movie.tracks@, kind) == 0,
            Ok(Some(i)) => {
                &&& count_kind(movie.tracks@, kind) == 1
                &&& i < movie.tracks@.len()
                &&& movie.tracks@[i as int].kind == kind
            },
            Err(_) => count_kind(movie.tracks@, kind) > 1,
        },
{
    let ghost test = |track: Track| track.kind == kind;
    let mut found: Option<usize> = None;
    let mut several: bool = false;
    let mut i: usize = 0;
    proof {
        reveal(Seq::filter);
        assert(movie.tracks@.take(0).filter(test).len() == 0);
    }
    while i < movie.tracks.len()
        invariant
            i <= movie.tracks@.len(),
            test == (|track: Track| track.kind == kind),
            several <==> movie.tracks@.take(i as int).filter(test).len() > 1,
            match found {
                None => movie.tracks@.take(i as int).filter(test).len() == 0,
                Some(k) => {
                    &&& movie.tracks@.take(i as int).filter(test).len() >= 1
                    &&& k < i
                    &&& movie.tracks@[k as int].kind == kind
                },
            },
        decreases movie.tracks@.len() - i,
    {
        proof {
            reveal(Seq::filter);
            let now = movie.tracks@.take(i + 1);
            assert(now.drop_last() =~= movie.tracks@.take(i as int));
            assert(now.last() == movie.tracks@[i as int]);
        }
        if movie.tracks[i].kind == kind {
            if found.is_some() {
                several = true;
            } else {
                found = Some(i);
            }
        }
        i += 1;
    }
    assert(movie.tracks@.take(i as int) =~= movie.tracks@);
    if several {
        Err(SeveralTracks)
    } else {
        Ok(found)
    }
}

/// Why a track's timeline is refused.
#[derive(Clone, Copy, Debug, PartialEq, Eq, Structural)]
pub enum TimelineError {
    /// Invalid MP4 timescale.
    InvalidTimescale,
    /// Multiple sample descriptions are unsupported.
    SeveralDescriptions,
    /// Complex MP4 edit lists are unsupported.
    ComplexEdits,
    /// Non-unit MP4 edit rates are unsupported.
    NonUnitRate,
    /// Unsupported empty MP4 edit.
    EmptyEdit,
    /// Invalid MP4 media time.
    InvalidMediaTime,
    /// Multiple active MP4 edits are unsupported.
    SeveralActiveEdits,
}

/// How long a track plays.
#[derive(Clone, Copy, Debug, PartialEq, Eq, Structural)]
pub enum PlayTime {
    /// This long, in the movie's timescale.
    Segment(u64),
    /// From the start of the edit to the end of the media.
    ToEnd,
}

/// Where the media of a track stands on the movie's timeline.
#[derive(Clone, Copy, Debug, PartialEq, Eq, Structural)]
pub struct Timeline {
    /// Media before this time, in the track's timescale, is not played.
    pub skip: i64,
    /// Media starts this late, in the movie's timescale.
    pub delay: u64,
    pub play: PlayTime,
}

/// What is wrong with edit `i` of a list.
pub open spec fn edit_fault(edits: Seq<Edit>, i: int) -> Option<TimelineError> {
    if edits[i].rate_bits != UNIT_RATE_BITS {
        Some(TimelineError::NonUnitRate)
    } else if edits[i].media_time == -1 {
        if i == 0 && edits.len() == 2 {
            None
        } else {
            Some(TimelineError::EmptyEdit)
        }
    } else if edits[i].media_time < 0 {
        Some(TimelineError::InvalidMediaTime)
    } else {
        None
    }
}

/// The timeline under an edit that plays media after a delay.
pub open spec fn edited(edit: Edit, delay: u64) -> Timeline {
    Timeline {
        skip: edit.media_time,
        delay,
        play: if edit.segment_duration > 0 {
            PlayTime::Segment(edit.segment_duration)
        } else {
            PlayTime::ToEnd
        },
    }
}

/// The timeline of a track, or why it is refused: no edits, one edit that plays media, or
/// an empty edit followed by one that plays media.
pub open spec fn timeline_of(track: TrackView, movie_scale: u32) -> Result<
    Timeline,
    TimelineError,
> {
    let edits = track.edits;
    if track.timescale == 0 || movie_scale == 0 {
        Err(TimelineError::InvalidTimescale)
    } else if track.codecs.len() != 1 {
        Err(TimelineError::SeveralDescriptions)
    } else if edits.len() == 0 {
        Ok(Timeline { skip: 0, delay: 0, play: PlayTime::ToEnd })
    } else if edits.len() > 2 {
        Err(TimelineError::ComplexEdits)
    } else if let Some(fault) = edit_fault(edits, 0) {
        Err(fault)
    } else if edits.len() == 1 {
        Ok(edited(edits[0], 0))
    } else if let Some(fault) = edit_fault(edits, 1) {
        Err(fault)
    } else if edits[0].media_time != -1 {
        Err(TimelineError::SeveralActiveEdits)
    } else {
        Ok(edited(edits[1], edits[0].segment_duration))
    }
}

impl Timeline {
    /// The timeline of a track.
    pub fn for_track(track: &Track, movie_scale: u32) -> (res: Result<Timeline, TimelineError>)
        ensures
            res == timeline_of(track@, movie_scale),
    {
        if track.timescale == 0 || movie_scale == 0 {
            return Err(TimelineError::InvalidTimescale);
        }
        if track.codecs.len() != 1 {
            return Err(TimelineError::SeveralDescriptions);
        }
        let count: usize = track.edits.len();
        if count > 2 {
            return Err(TimelineError::ComplexEdits);
        }
        let mut timeline = Timeline { skip: 0, delay: 0, play: PlayTime::ToEnd };
        if count == 0 {
            return Ok(timeline);
        }
        let mut active: usize = 0;
        let mut i: usize = 0;
        while i < count
            invariant
                i <= count == track.edits@.len(),
                1 <= count <= 2,
                track.timescale > 0,
                movie_scale > 0,
                track.codecs@.len() == 1,
                active <= i,
                i >= 1 ==> edit_fault(track.edits@, 0) is None,
                i >= 2 ==> edit_fault(track.edits@, 1) is None,
                i == 0 ==> active == 0 && timeline.delay == 0,
                i == 1 ==> if track.edits@[0].media_time == -1 {
                    active == 0 && timeline.delay == track.edits@[0].segment_duration
                } else {
                    active == 1 && timeline == edited(track.edits@[0], 0)
                },
                i == 2 ==> if track.edits@[0].media_time == -1 {
                    active == 1 && timeline == edited(
                        track.edits@[1],
                        track.edits@[0].segment_duration,
                    )
                } else {
                    active == 2
                },
            decreases count - i,
        {
            let edit = track.edits[i];
            if edit.rate_bits != UNIT_RATE_BITS {
                return Err(TimelineError::NonUnitRate);
            }
            if edit.media_time == -1 {
                if i != 0 || count != 2 {
                    return Err(TimelineError::EmptyEdit);
                }
                timeline.delay = edit.segment_duration;
            } else {
                if edit.media_time < 0 {
                    return Err(TimelineError::InvalidMediaTime);
                }
                active += 1;
                timeline.skip = edit.media_time;
                timeline.play = if edit.segment_duration > 0 {
                    PlayTime::Segment(edit.segment_duration)
                } else {
                    PlayTime::ToEnd
                };
            }
            i += 1;
        }
        if active != 1 {
            return Err(TimelineError::SeveralActiveEdits);
        }
        Ok(timeline)
    }
}

/// Why the bytes of a sample cannot be had.
#[derive(Clone, Copy, Debug, PartialEq, Eq, Structural)]
pub enum SampleError {
    /// There is no such sample.
    Missing,
    /// The sample starts beyond what memory can address.
    OffsetTooLarge,
    /// The sample ends beyond what memory can address.
    RangeOverflow,
    /// The sample ends beyond the end of the file.
    Truncated,
}

/// The bytes of a sample in its file, and when it is presented in the track's timescale.
#[derive(Clone, Copy, Debug, PartialEq, Eq, Structural)]
pub struct Placement {
    pub start: usize,
    pub end: usize,
    pub cts: i64,
    pub is_sync: bool,
}

/// When a sample is presented: its decoding time, held to the range of `i64`, plus its
/// composition offset, held to that range again.
pub open spec fn cts_of(sample: SampleInfo) -> int {
    clamp_i64(clamp_i64(sample.dts as int) + sample.cts_offset)
}

/// Where a sample is in a file of `len` bytes.
pub open spec fn placement_of(samples: Seq<SampleInfo>, index: int, len: int) -> Result<
    Placement,
    SampleError,
> {
    if index >= samples.len() {
        Err(SampleError::Missing)
    } else {
        let sample = samples[index];
        if sample.offset > usize::MAX {
            Err(SampleError::OffsetTooLarge)
        } else if sample.offset + sample.size > usize::MAX {
            Err(SampleError::RangeOverflow)
        } else if sample.offset + sample.size > len {
            Err(SampleError::Truncated)
        } else {
            Ok(
                Placement {
                    start: sample.offset as usize,
                    end: (sample.offset + sample.size) as usize,
                    cts: cts_of(sample) as i64,
                    is_sync: sample.is_sync,
                },
            )
        }
    }
}

/// Where a sample of a track is in a file of `len` bytes.
pub fn place_sample(samples: &Vec<SampleInfo>, index: usize, len: usize) -> (res: Result<
    Placement,
    SampleError,
>)
    ensures
        res == placement_of(samples@, index as int, len as int),
        res matches Ok(place) ==> place.start <= place.end <= len,
{
    if index >= samples.len() {
        return Err(SampleError::Missing);
    }
    let sample = samples[index];
    if sample.offset > usize::MAX as u64 {
        return Err(SampleError::OffsetTooLarge);
    }
    let start: usize = sample.offset as usize;
    let end: usize = match start.checked_add(sample.size as usize) {
        Some(end) => end,
        None => {
            return Err(SampleError::RangeOverflow);
        },
    };
    if end > len {
        return Err(SampleError::Truncated);
    }
    let dts: i64 = if sample.dts > i64::MAX as u64 {
        i64::MAX
    } else {
        sample.dts as i64
    };
    let offset: i64 = sample.cts_offset as i64;
    let cts: i64 = match dts.checked_add(offset) {
        Some(cts) => cts,
        None => i64::MAX,
    };
    Ok(Placement { start, end, cts, is_sync: sample.is_sync })
}

/// A track is accepted exactly where both timescales are positive, it has one sample
/// description, and its edits all play at their own speed and are none, one that plays media,
/// or an empty one and then one that plays media. Without edits the media plays from its start
/// to its end; with them, what the last edit names plays, after as long as the empty one is.
pub proof fn law_timeline_plays_the_edits(track: TrackView, movie_scale: u32)
    ensures
        ({
            let edits = track.edits;
            let n = edits.len();
            let res = timeline_of(track, movie_scale);
            let scaled = track.timescale > 0 && movie_scale > 0;
            let unit = |i: int| edits[i].rate_bits == 0x3ff0_0000_0000_0000;
            let accepted = scaled && track.codecs.len() == 1 && (n == 0 || (n == 1 && unit(0)
                && edits[0].media_time >= 0) || (n == 2 && unit(0) && unit(1)
                && edits[0].media_time == -1 && edits[1].media_time >= 0));
            &&& res is Ok <==> accepted
            &&& accepted && n == 0 ==> res->Ok_0.skip == 0 && res->Ok_0.delay == 0
                && res->Ok_0.play == PlayTime::ToEnd
            &&& accepted && n > 0 ==> {
                let last = edits[n - 1];
                &&& res->Ok_0.skip == last.media_time
                &&& n == 1 ==> res->Ok_0.delay == 0
                &&& n == 2 ==> res->Ok_0.delay == edits[0].segment_duration
                &&& last.segment_duration == 0 ==> res->Ok_0.play == PlayTime::ToEnd
                &&& last.segment_duration > 0 ==> res->Ok_0.play == PlayTime::Segment(
                    last.segment_duration,
                )
            }
            &&& res == Err::<Timeline, TimelineError>(TimelineError::InvalidTimescale) <==> !scaled
            &&& res == Err::<Timeline, TimelineError>(TimelineError::SeveralDescriptions)
                <==> scaled && track.codecs.len() != 1
            &&& res == Err::<Timeline, TimelineError>(TimelineError::ComplexEdits) <==> scaled
                && track.codecs.len() == 1 && n > 2
            &&& scaled && track.codecs.len() == 1 && 1 <= n && n <= 2 && !unit(0) ==> res == Err::<
                Timeline,
                TimelineError,
            >(TimelineError::NonUnitRate)
            &&& scaled && track.codecs.len() == 1 && n == 1 && unit(0) && edits[0].media_time == -1
                ==> res == Err::<Timeline, TimelineError>(TimelineError::EmptyEdit)
            &&& scaled && track.codecs.len() == 1 && 1 <= n && n <= 2 && unit(0)
                && edits[0].media_time < -1 ==> res == Err::<Timeline, TimelineError>(
                TimelineError::InvalidMediaTime,
            )
            &&& scaled && track.codecs.len() == 1 && n == 2 && unit(0) && unit(1)
                && edits[0].media_time >= 0 && edits[1].media_time >= 0 ==> res == Err::<
                Timeline,
                TimelineError,
            >(TimelineError::SeveralActiveEdits)
        }),
{
}

/// A sample is placed exactly where there is one and its bytes lie inside the file; they are
/// those that the index names, and the sample is presented its composition offset after it is
/// decoded, where that time can be told.
pub proof fn law_sample_lies_in_the_file(samples: Seq<SampleInfo>, index: int, len: int)
    requires
        0 <= index,
        0 <= len <= usize::MAX,
    ensures
        ({
            let res = placement_of(samples, index, len);
            let s = samples[index];
            &&& res is Ok <==> index < samples.len() && s.offset + s.size <= len
            &&& res matches Ok(place) ==> {
                &&& place.start == s.offset
                &&& place.end - place.start == s.size
                &&& place.is_sync == s.is_sync
                &&& i64::MIN <= s.dts + s.cts_offset && s.dts + s.cts_offset <= i64::MAX && s.dts
                    <= i64::MAX ==> place.cts == s.dts + s.cts_offset
                &&& s.dts > i64::MAX && s.cts_offset >= 0 ==> place.cts == i64::MAX
                &&& s.dts <= i64::MAX && s.dts + s.cts_offset > i64::MAX ==> place.cts == i64::MAX
                &&& s.dts > i64::MAX && s.cts_offset < 0 ==> place.cts == i64::MAX + s.cts_offset
            }
            &&& res == Err::<Placement, SampleError>(SampleError::Missing) <==> index
                >= samples.len()
        }),
{
}

/// A track carries pictures in a coding by its kind and its first sample description.
pub proof fn law_video_by_first_description(track: TrackView, codec: Codec)
    ensures
        is_video_in(track, codec) <==> track.kind == TrackKind::Video && track.codecs.len() > 0
            && track.codecs[0] == codec,
{
}

/// Tracks are counted one by one, by their own kind.
pub proof fn law_tracks_are_counted(tracks: Seq<Track>, more: Track, kind: TrackKind)
    ensures
        count_kind(Seq::empty(), kind) == 0,
        count_kind(tracks.push(more), kind) == count_kind(tracks, kind) + if more.kind == kind {
            1int
        } else {
            0int
        },
{
    reveal(Seq::filter);
    assert(tracks.push(more).drop_last() =~= tracks);
}

/// A sample index may take sixteen mebibytes, at no less than thirty-three bytes for each
/// sample of each track.
pub proof fn law_index_ceiling(tracks: Seq<TrackView>, more: TrackView)
    ensures
        MAX_INDEX_BYTES == 16_777_216,
        sample_total(Seq::empty()) == 0,
        sample_total(tracks.push(more)) == sample_total(tracks) + more.samples.len(),
        index_fits(tracks, MAX_INDEX_BYTES) <==> sample_total(tracks) * 33 <= 16_777_216,
{
    assert(tracks.push(more).drop_last() =~= tracks);
}

/// A track stands for its own fields.
pub proof fn law_track_stands_for_itself(track: Track)
    ensures
        track@.kind == track.kind,
        track@.timescale == track.timescale,
        track@.duration == track.duration,
        track@.edits == track.edits@,
        track@.codecs == track.codecs@,
        track@.shape == track.shape,
        track@.samples == track.samples@,
        track.config matches CodecConfig::Avc(raw) ==> track@.config == ConfigView::Avc(raw@),
        track.config matches CodecConfig::Hevc(raw) ==> track@.config == ConfigView::Hevc(raw@),
        track.config matches CodecConfig::Aac(raw) ==> track@.config == ConfigView::Aac(raw@),
        track.config is Other ==> track@.config is Other,
{
}

} // verus!
