//! H.264 parameter sets: those of an avcC record, those inside a stream, and what a sequence
//! parameter set says of the pictures.
use vstd::prelude::*;
use crate::color::{
    agree_on_color, agreed_color, law_accepted_colors_are_uniform,
    law_uniform_colors_are_accepted, lemma_not_no_track, resolve_color, resolved_color,
    size_supported, unit_color, ColorError, SignalledColor, UnitColor,
};
use crate::media::{
    find_video, is_video_in, Codec, CodecConfig, ColourInfo, ConfigView, EntryShape, Movie, Track,
    TrackView,
};
use crate::nal::{
    annexb, annexb_of, fault_from, frames_from, header_fault, law_header_rules,
    law_stored_units_are_found, lemma_frames_inside, length_prefixed, prefix_limit, unit_bytes,
    Frame, HeaderRule, NalError,
};
use crate::video::{avcc_to_annexb, Color};
use crate::hevc_config::HvccError;
use crate::video_parallel::{annexb_parameter_sets, avcc_sets};

verus! {

/// A NAL unit's payload without its emulation prevention bytes: of every `00 00 03` the last
/// byte is left out.
pub open spec fn rbsp_of(data: Seq<u8>) -> Seq<u8>
    decreases data.len(),
{
    if data.len() == 0 {
        Seq::empty()
    } else if data.len() > 2 && data[0] == 0 && data[1] == 0 && data[2] == 3 {
        seq![0u8, 0u8] + rbsp_of(data.skip(3))
    } else {
        seq![data[0]] + rbsp_of(data.skip(1))
    }
}

/// The payloads of the units that are not empty and have their forbidden bit clear.
pub open spec fn payloads_of(units: Seq<Seq<u8>>) -> Seq<Seq<u8>> {
    units.filter(|unit: Seq<u8>| unit.len() > 0 && unit[0] & 0x80 == 0).map_values(
        |unit: Seq<u8>| rbsp_of(unit.skip(1)),
    )
}

/// The bytes of each list.
pub open spec fn byte_views(lists: Seq<Vec<u8>>) -> Seq<Seq<u8>> {
    lists.map_values(|list: Vec<u8>| list@)
}

/// What an avcC record announces: how many bytes a NAL length takes, and the payloads of its
/// parameter sets.
pub struct AvccSets {
    pub length_size: usize,
    pub sps: Vec<Vec<u8>>,
    pub pps: Vec<Vec<u8>>,
}

/// An avcC record can be read.
pub open spec fn avcc_readable(raw: Seq<u8>) -> bool {
    &&& raw.len() >= 7
    &&& raw[0] == 1
    &&& raw[4] & 3 != 2
    &&& avcc_sets(raw) is Some
}

/// Calls `rust_h264::nal::parse_avcc_config`: the length size in the low bits of the fifth
/// byte and the payloads of the parameter sets, where the version is one, the length size is
/// not three and the record holds all that it announces. Of a refusal only that it comes is
/// stated, not its wording.
#[verifier::external_body]
fn read_avcc(raw: &[u8]) -> (res: Result<AvccSets, &'static str>)
    ensures
        match res {
            Ok(sets) => {
                &&& avcc_readable(raw@)
                &&& sets.length_size == (raw@[4] & 3) + 1
                &&& byte_views(sets.sps@) == payloads_of(avcc_sets(raw@)->Some_0.0)
                &&& byte_views(sets.pps@) == payloads_of(avcc_sets(raw@)->Some_0.1)
            },
            Err(_) => !avcc_readable(raw@),
        },
{
    rust_h264::nal::parse_avcc_config(raw).map(
        |config|
            AvccSets {
                length_size: config.length_size,
                sps: config.sps_nals.iter().map(|nal| nal.rbsp.to_vec()).collect(),
                pps: config.pps_nals.iter().map(|nal| nal.rbsp.to_vec()).collect(),
            },
    )
}

/// Why an avcC record cannot be used.
#[derive(Clone, Copy, Debug, PartialEq, Eq, Structural)]
pub enum AvccError {
    /// The record cannot be read.
    Unreadable,
    /// avcC must contain SPS and PPS.
    MissingSets,
}

/// Reads the parameter sets of an avcC record, and refuses one without a sequence or without
/// a picture parameter set.
pub fn parameter_sets(raw: &[u8]) -> (res: Result<AvccSets, AvccError>)
    ensures
        match res {
            Ok(sets) => {
                &&& avcc_readable(raw@)
                &&& sets.length_size == (raw@[4] & 3) + 1
                &&& byte_views(sets.sps@) == payloads_of(avcc_sets(raw@)->Some_0.0)
                &&& byte_views(sets.pps@) == payloads_of(avcc_sets(raw@)->Some_0.1)
                &&& sets.sps@.len() > 0
                &&& sets.pps@.len() > 0
                &&& sets.length_size == 1 || sets.length_size == 2 || sets.length_size == 4
            },
            Err(AvccError::Unreadable) => !avcc_readable(raw@),
            Err(AvccError::MissingSets) => avcc_readable(raw@) && (payloads_of(
                avcc_sets(raw@)->Some_0.0,
            ).len() == 0 || payloads_of(avcc_sets(raw@)->Some_0.1).len() == 0),
        },
{
    match read_avcc(raw) {
        Err(_) => Err(AvccError::Unreadable),
        Ok(sets) => {
            assert(byte_views(sets.sps@).len() == sets.sps@.len());
            assert(byte_views(sets.pps@).len() == sets.pps@.len());
            proof {
                let sizes = raw@[4];
                assert(sizes & 3 <= 3) by (bit_vector);
            }
            if sets.sps.len() == 0 || sets.pps.len() == 0 {
                Err(AvccError::MissingSets)
            } else {
                Ok(sets)
            }
        },
    }
}

/// What a NAL unit inside a stream is.
#[derive(Clone, Copy, Debug, PartialEq, Eq, Structural)]
pub enum UnitKind {
    Sps,
    Pps,
    Other,
}

/// A NAL unit inside a stream: what it is, and its payload.
pub struct StreamUnit {
    pub kind: UnitKind,
    pub rbsp: Vec<u8>,
}

/// What a NAL unit with this header byte is.
pub open spec fn kind_of(header: u8) -> UnitKind {
    if header & 31 == 7 {
        UnitKind::Sps
    } else if header & 31 == 8 {
        UnitKind::Pps
    } else {
        UnitKind::Other
    }
}

/// The units are those of an access unit, in order.
pub open spec fn are_units_of(units: Seq<StreamUnit>, data: Seq<u8>, frames: Seq<Frame>) -> bool {
    &&& units.len() == frames.len()
    &&& forall|i: int|
        #![trigger units[i]]
        0 <= i < units.len() ==> {
            &&& units[i].kind == kind_of(data[frames[i].start as int])
            &&& units[i].rbsp@ == rbsp_of(unit_bytes(data, frames[i]).skip(1))
        }
}

/// Calls `rust_h264::nal::parse_avcc` on a well-formed access unit: its NAL units in order,
/// each with its type and its payload. Malformed access units are left out.
#[verifier::external_body]
fn read_units(data: &[u8], length_size: usize) -> (units: Vec<StreamUnit>)
    requires
        length_size == 1 || length_size == 2 || length_size == 4,
        fault_from(data@, 0, length_size as nat, HeaderRule::Avc) is None,
    ensures
        are_units_of(
            units@,
            data@,
            frames_from(data@, 0, length_size as nat, HeaderRule::Avc),
        ),
{
    rust_h264::nal::parse_avcc(data, length_size).iter().map(
        |nal|
            StreamUnit {
                kind: match nal.nal_unit_type {
                    rust_h264::nal::NalUnitType::Sps => UnitKind::Sps,
                    rust_h264::nal::NalUnitType::Pps => UnitKind::Pps,
                    _ => UnitKind::Other,
                },
                rbsp: nal.rbsp.to_vec(),
            },
    ).collect()
}

/// Whether two byte lists are equal.
fn same_bytes(a: &Vec<u8>, b: &Vec<u8>) -> (same: bool)
    ensures
        same == (a@ == b@),
{
    if a.len() != b.len() {
        return false;
    }
    let mut i: usize = 0;
    while i < a.len()
        invariant
            i <= a@.len() == b@.len(),
            forall|j: int| 0 <= j < i ==> a@[j] == b@[j],
        decreases a@.len() - i,
    {
        if a[i] != b[i] {
            assert(a@[i as int] != b@[i as int]);
            return false;
        }
        i += 1;
    }
    assert(a@ =~= b@);
    true
}

/// Whether one of the lists holds just these bytes.
fn holds_bytes(lists: &Vec<Vec<u8>>, bytes: &Vec<u8>) -> (found: bool)
    ensures
        found == byte_views(lists@).contains(bytes@),
{
    let mut i: usize = 0;
    while i < lists.len()
        invariant
            i <= lists@.len(),
            forall|j: int| 0 <= j < i ==> (#[trigger] lists@[j])@ != bytes@,
        decreases lists@.len() - i,
    {
        if same_bytes(&lists[i], bytes) {
            assert(byte_views(lists@)[i as int] == bytes@);
            return true;
        }
        i += 1;
    }
    assert forall|j: int| 0 <= j < byte_views(lists@).len() implies byte_views(lists@)[j]
        != bytes@ by {
        assert(lists@[j]@ != bytes@);
    }
    false
}

/// The unit at `i` is no parameter set, or one that the configuration announces.
pub open spec fn announced(units: Seq<StreamUnit>, sps: Seq<Seq<u8>>, pps: Seq<Seq<u8>>, i: int) -> bool {
    match units[i].kind {
        UnitKind::Sps => sps.contains(units[i].rbsp@),
        UnitKind::Pps => pps.contains(units[i].rbsp@),
        UnitKind::Other => true,
    }
}

/// Whether every parameter set among the units is one that the configuration announces.
pub fn all_announced(units: &Vec<StreamUnit>, sets: &AvccSets) -> (all: bool)
    ensures
        all <==> forall|i: int|
            0 <= i < units@.len() ==> #[trigger] announced(
                units@,
                byte_views(sets.sps@),
                byte_views(sets.pps@),
                i,
            ),
{
    let mut i: usize = 0;
    while i < units.len()
        invariant
            i <= units@.len(),
            forall|j: int|
                0 <= j < i ==> #[trigger] announced(
                    units@,
                    byte_views(sets.sps@),
                    byte_views(sets.pps@),
                    j,
                ),
        decreases units@.len() - i,
    {
        let unit = &units[i];
        let known: bool = match unit.kind {
            UnitKind::Sps => holds_bytes(&sets.sps, &unit.rbsp),
            UnitKind::Pps => holds_bytes(&sets.pps, &unit.rbsp),
            UnitKind::Other => true,
        };
        if !known {
            assert(!announced(units@, byte_views(sets.sps@), byte_views(sets.pps@), i as int));
            return false;
        }
        i += 1;
    }
    true
}

/// The parameter set in the frame, if it is one, has a payload that the configuration
/// announces.
pub open spec fn frame_announced(
    data: Seq<u8>,
    frame: Frame,
    sps: Seq<Seq<u8>>,
    pps: Seq<Seq<u8>>,
) -> bool {
    match kind_of(data[frame.start as int]) {
        UnitKind::Sps => sps.contains(rbsp_of(unit_bytes(data, frame).skip(1))),
        UnitKind::Pps => pps.contains(rbsp_of(unit_bytes(data, frame).skip(1))),
        UnitKind::Other => true,
    }
}

/// Every parameter set in an access unit has a payload that the configuration announces.
pub open spec fn unit_announced(data: Seq<u8>, sets: AvccSets) -> bool {
    let frames = frames_from(data, 0, sets.length_size as nat, HeaderRule::Avc);
    forall|i: int|
        0 <= i < frames.len() ==> frame_announced(
            data,
            #[trigger] frames[i],
            byte_views(sets.sps@),
            byte_views(sets.pps@),
        )
}

/// Whether a well-formed access unit brings no parameter set but those that the
/// configuration announces.
pub fn sets_unchanged(data: &[u8], sets: &AvccSets) -> (unchanged: bool)
    requires
        sets.length_size == 1 || sets.length_size == 2 || sets.length_size == 4,
        fault_from(data@, 0, sets.length_size as nat, HeaderRule::Avc) is None,
    ensures
        unchanged == unit_announced(data@, *sets),
{
    let units = read_units(data, sets.length_size);
    let all = all_announced(&units, sets);
    proof {
        let frames = frames_from(data@, 0, sets.length_size as nat, HeaderRule::Avc);
        let sps = byte_views(sets.sps@);
        let pps = byte_views(sets.pps@);
        assert forall|i: int| 0 <= i < frames.len() implies announced(units@, sps, pps, i)
            == frame_announced(data@, #[trigger] frames[i], sps, pps) by {
            assert(units@[i].kind == kind_of(data@[frames[i].start as int]));
        }
        if all {
            assert forall|i: int| 0 <= i < frames.len() implies frame_announced(
                data@,
                #[trigger] frames[i],
                sps,
                pps,
            ) by {
                assert(announced(units@, sps, pps, i));
            }
        } else {
            let i = choose|i: int|
                0 <= i < units@.len() && !#[trigger] announced(units@, sps, pps, i);
            assert(!frame_announced(data@, frames[i], sps, pps));
        }
    }
    all
}

/// Why an access unit is not handed to the decoder.
#[derive(Clone, Copy, Debug, PartialEq, Eq, Structural)]
pub enum UnitError {
    /// It is malformed.
    Malformed(NalError),
    /// Midstream H.264 parameter-set changes unsupported.
    SetsChanged,
}

/// The Annex-B form of an access unit for a decoder that was given `sets`. Malformed units
/// and units that bring other parameter sets are refused.
pub fn prepare_unit(data: &[u8], sets: &AvccSets) -> (res: Result<Vec<u8>, UnitError>)
    requires
        sets.length_size == 1 || sets.length_size == 2 || sets.length_size == 4,
    ensures
        ({
            let converted = annexb_of(data@, sets.length_size as nat, HeaderRule::Avc);
            match res {
                Ok(out) => converted == Ok::<Seq<u8>, NalError>(out@) && unit_announced(
                    data@,
                    *sets,
                ),
                Err(UnitError::Malformed(fault)) => converted == Err::<Seq<u8>, NalError>(fault),
                Err(UnitError::SetsChanged) => converted is Ok && !unit_announced(data@, *sets),
            }
        }),
{
    match avcc_to_annexb(data, sets.length_size) {
        Err(fault) => Err(UnitError::Malformed(fault)),
        Ok(out) => {
            if sets_unchanged(data, sets) {
                Ok(out)
            } else {
                Err(UnitError::SetsChanged)
            }
        },
    }
}

/// What a sequence parameter set says of the pictures.
#[derive(Clone, Copy, Debug, PartialEq, Eq, Structural)]
pub struct SpsFacts {
    pub extra_luma_bits: u32,
    pub extra_chroma_bits: u32,
    pub chroma_format: u32,
    pub progressive: bool,
    pub width: u32,
    pub height: u32,
    pub matrix: u8,
    pub transfer: u8,
    pub full_range: bool,
}

/// What `rust_h264::sps::parse_sps` reads in the payload of a sequence parameter set, where
/// it can read it.
pub uninterp spec fn h264_sps(rbsp: Seq<u8>) -> Option<SpsFacts>;

/// Calls `rust_h264::sps::parse_sps`: what the payload says of the pictures, with the size
/// as `rust_h264::sps::Sps::width` and `height` crop it, or nothing where it cannot be read.
/// The result depends on the payload alone.
#[verifier::external_body]
fn read_sps(rbsp: &[u8]) -> (facts: Option<SpsFacts>)
    ensures
        facts == h264_sps(rbsp@),
{
    rust_h264::sps::parse_sps(rbsp).ok().map(
        |s|
            SpsFacts {
                extra_luma_bits: s.bit_depth_luma_minus8,
                extra_chroma_bits: s.bit_depth_chroma_minus8,
                chroma_format: s.chroma_format_idc,
                progressive: s.frame_mbs_only_flag,
                width: s.width(),
                height: s.height(),
                matrix: s.matrix_coefficients,
                transfer: s.transfer_characteristics,
                full_range: s.video_full_range_flag,
            },
    )
}

/// The colours of a clip by one of its sequence parameter sets.
pub open spec fn sps_color(
    facts: Option<SpsFacts>,
    width: u16,
    height: u16,
    container: Option<ColourInfo>,
) -> Result<Color, ColorError> {
    match facts {
        None => Err(ColorError::SpsUnreadable),
        Some(s) => if s.extra_luma_bits != 0 || s.extra_chroma_bits != 0 || s.chroma_format != 1
            || !s.progressive {
            Err(ColorError::UnsupportedFormat)
        } else if !size_supported(s.width, s.height) {
            Err(ColorError::TooLarge)
        } else if s.width != width || s.height != height {
            Err(ColorError::DimensionsDisagree)
        } else {
            resolved_color(
                SignalledColor {
                    matrix: s.matrix as u16,
                    transfer: s.transfer as u16,
                    full: s.full_range,
                },
                container,
            )
        },
    }
}

/// Judges what was read in a sequence parameter set against the sample entry.
pub fn check_sps(
    facts: Option<SpsFacts>,
    width: u16,
    height: u16,
    container: Option<ColourInfo>,
) -> (res: Result<Color, ColorError>)
    ensures
        res == sps_color(facts, width, height, container),
{
    let s = match facts {
        Some(s) => s,
        None => {
            return Err(ColorError::SpsUnreadable);
        },
    };
    if s.extra_luma_bits != 0 || s.extra_chroma_bits != 0 || s.chroma_format != 1
        || !s.progressive {
        return Err(ColorError::UnsupportedFormat);
    }
    if s.width == 0 || s.height == 0 || s.width > 4096 || s.height > 2160 {
        return Err(ColorError::TooLarge);
    }
    if s.width != width as u32 || s.height != height as u32 {
        return Err(ColorError::DimensionsDisagree);
    }
    resolve_color(
        SignalledColor {
            matrix: s.matrix as u16,
            transfer: s.transfer as u16,
            full: s.full_range,
        },
        container,
    )
}

/// The colours of an H.264 track.
pub open spec fn track_color(track: TrackView) -> Result<Color, ColorError> {
    match track.shape {
        Some(EntryShape::Video { width, height, colour }) => match track.config {
            ConfigView::Avc(raw) => if !avcc_readable(raw) {
                Err(ColorError::AvccUnreadable)
            } else {
                let units = payloads_of(avcc_sets(raw)->Some_0.0).map_values(
                    |rbsp: Seq<u8>| unit_color(sps_color(h264_sps(rbsp), width, height, colour)),
                );
                match agreed_color(units) {
                    Ok(Some(color)) => Ok(color),
                    Ok(None) => Err(ColorError::MissingSps),
                    Err(error) => Err(error),
                }
            },
            _ => Err(ColorError::MissingConfig),
        },
        _ => Err(ColorError::MissingEntry),
    }
}

/// The colour matrix and range of a movie's first H.264 track.
pub fn video_color(movie: &Movie) -> (res: Result<Color, ColorError>)
    ensures
        match res {
            Err(ColorError::NoTrack) => forall|j: int|
                0 <= j < movie.tracks@.len() ==> !is_video_in(
                    #[trigger] movie.tracks@[j]@,
                    Codec::H264,
                ),
            _ => exists|i: int|
                0 <= i < movie.tracks@.len() && is_video_in(
                    #[trigger] movie.tracks@[i]@,
                    Codec::H264,
                ) && (forall|j: int|
                    0 <= j < i ==> !is_video_in(#[trigger] movie.tracks@[j]@, Codec::H264))
                    && res == track_color(movie.tracks@[i]@),
        },
{
    let i: usize = match find_video(movie, Codec::H264) {
        Some(i) => i,
        None => {
            return Err(ColorError::NoTrack);
        },
    };
    let track = &movie.tracks[i];
    assert(is_video_in(movie.tracks@[i as int]@, Codec::H264));
    let (width, height, colour) = match track.shape {
        Some(EntryShape::Video { width, height, colour }) => (width, height, colour),
        _ => {
            return Err(ColorError::MissingEntry);
        },
    };
    let raw = match &track.config {
        CodecConfig::Avc(raw) => raw,
        _ => {
            return Err(ColorError::MissingConfig);
        },
    };
    let sets = match read_avcc(raw.as_slice()) {
        Ok(sets) => sets,
        Err(_) => {
            return Err(ColorError::AvccUnreadable);
        },
    };
    let ghost all = byte_views(sets.sps@).map_values(
        |rbsp: Seq<u8>| unit_color(sps_color(h264_sps(rbsp), width, height, colour)),
    );
    let mut units: Vec<UnitColor> = Vec::new();
    let mut k: usize = 0;
    while k < sets.sps.len()
        invariant
            k <= sets.sps@.len() == all.len(),
            all == byte_views(sets.sps@).map_values(
                |rbsp: Seq<u8>| unit_color(sps_color(h264_sps(rbsp), width, height, colour)),
            ),
            units@ == all.take(k as int),
        decreases sets.sps@.len() - k,
    {
        let facts = read_sps(sets.sps[k].as_slice());
        let unit = match check_sps(facts, width, height, colour) {
            Ok(color) => UnitColor::Is(color),
            Err(error) => UnitColor::Refused(error),
        };
        assert(unit == all[k as int]);
        units.push(unit);
        k += 1;
        assert(units@ =~= all.take(k as int));
    }
    assert(units@ =~= all);
    let res = agree_on_color(&units);
    assert(res == track_color(movie.tracks@[i as int]@));
    proof {
        assert forall|u: int| 0 <= u < all.len() implies all[u] != UnitColor::Refused(
            ColorError::NoTrack,
        ) by {}
        lemma_not_no_track(all);
    }
    res
}

/// Why a track cannot be decoded.
#[derive(Clone, Copy, Debug, PartialEq, Eq, Structural)]
pub enum SetupError {
    /// The track is missing its sample entry.
    MissingEntry,
    /// The selected video track did not have a video sample entry.
    NotVideo,
    /// The sample entry has no decoder configuration of this coding.
    MissingConfig,
    /// The avcC configuration cannot be read.
    Unreadable,
    /// avcC must contain SPS and PPS.
    MissingSets,
    /// The hvcC configuration cannot be read.
    Hvcc(HvccError),
}

/// What a decoder of an H.264 track needs: the size of its pictures, the parameter sets, and
/// those sets as the stream that the decoder starts with.
pub struct AvcSetup {
    pub width: usize,
    pub height: usize,
    pub sets: AvccSets,
    pub stream: Vec<u8>,
}

/// Why an H.264 track cannot be decoded, if it cannot.
pub open spec fn avc_setup_fault(track: TrackView) -> Option<SetupError> {
    match track.shape {
        None => Some(SetupError::MissingEntry),
        Some(EntryShape::Video { .. }) => match track.config {
            ConfigView::Avc(raw) => if !avcc_readable(raw) {
                Some(SetupError::Unreadable)
            } else if payloads_of(avcc_sets(raw)->Some_0.0).len() == 0 || payloads_of(
                avcc_sets(raw)->Some_0.1,
            ).len() == 0 {
                Some(SetupError::MissingSets)
            } else {
                None
            },
            _ => Some(SetupError::MissingConfig),
        },
        Some(_) => Some(SetupError::NotVideo),
    }
}

/// Collects what a decoder of an H.264 track needs.
pub fn prepare_avc(track: &Track) -> (res: Result<AvcSetup, SetupError>)
    ensures
        match res {
            Err(error) => avc_setup_fault(track@) == Some(error),
            Ok(setup) => {
                &&& avc_setup_fault(track@) is None
                &&& track@.shape matches Some(EntryShape::Video { width, height, .. })
                &&& track@.config matches ConfigView::Avc(raw)
                &&& avcc_sets(raw) matches Some((sps, pps))
                &&& setup.width == width
                &&& setup.height == height
                &&& setup.sets.length_size == (raw[4] & 3) + 1
                &&& setup.sets.length_size == 1 || setup.sets.length_size == 2
                    || setup.sets.length_size == 4
                &&& byte_views(setup.sets.sps@) == payloads_of(sps)
                &&& byte_views(setup.sets.pps@) == payloads_of(pps)
                &&& setup.stream@ == annexb(sps + pps)
            },
        },
{
    let (width, height) = match track.shape {
        None => {
            return Err(SetupError::MissingEntry);
        },
        Some(EntryShape::Video { width, height, colour: _ }) => (width as usize, height as usize),
        Some(_) => {
            return Err(SetupError::NotVideo);
        },
    };
    let raw = match &track.config {
        CodecConfig::Avc(raw) => raw,
        _ => {
            return Err(SetupError::MissingConfig);
        },
    };
    let sets = match parameter_sets(raw.as_slice()) {
        Ok(sets) => sets,
        Err(AvccError::Unreadable) => {
            return Err(SetupError::Unreadable);
        },
        Err(AvccError::MissingSets) => {
            return Err(SetupError::MissingSets);
        },
    };
    match annexb_parameter_sets(raw.as_slice()) {
        Ok(stream) => Ok(AvcSetup { width, height, sets, stream }),
        Err(_) => Err(SetupError::Unreadable),
    }
}

/// An avcC record can be read exactly where it has seven bytes, version one, lengths that do
/// not take three bytes, and all the parameter sets that it announces.
pub proof fn law_readable_record(raw: Seq<u8>)
    ensures
        avcc_readable(raw) <==> raw.len() >= 7 && raw[0] == 1 && raw[4] % 4 != 2 && avcc_sets(
            raw,
        ) is Some,
{
    if raw.len() >= 7 {
        let b = raw[4];
        assert(b & 3 == b % 4) by (bit_vector);
    }
}

/// A unit is a sequence parameter set by type seven, and a picture parameter set by type
/// eight. An access unit brings no foreign parameter set exactly where the payload of every
/// such unit is one that the configuration announces as such.
pub proof fn law_foreign_sets_are_found(units: Seq<Seq<u8>>, sets: AvccSets)
    requires
        sets.length_size == 1 || sets.length_size == 2 || sets.length_size == 4,
        length_prefixed(units, sets.length_size as nat).len() <= usize::MAX,
        forall|i: int|
            #![trigger units[i]]
            0 <= i < units.len() ==> 0 < units[i].len() < prefix_limit(sets.length_size as nat)
                && units[i][0] < 128 && units[i][0] % 32 != 0,
    ensures
        unit_announced(length_prefixed(units, sets.length_size as nat), sets) <==> forall|i: int|
            #![trigger units[i]]
            0 <= i < units.len() ==> {
                &&& units[i][0] % 32 == 7 ==> byte_views(sets.sps@).contains(
                    rbsp_of(units[i].skip(1)),
                )
                &&& units[i][0] % 32 == 8 ==> byte_views(sets.pps@).contains(
                    rbsp_of(units[i].skip(1)),
                )
            },
{
    let size = sets.length_size as nat;
    let data = length_prefixed(units, size);
    let frames = frames_from(data, 0, size, HeaderRule::Avc);
    let sps = byte_views(sets.sps@);
    let pps = byte_views(sets.pps@);
    assert forall|i: int| 0 <= i < units.len() implies {
        &&& 0 < #[trigger] units[i].len() < prefix_limit(size)
        &&& header_fault(units[i], HeaderRule::Avc) is None
    } by {
        law_header_rules(units[i]);
    }
    law_stored_units_are_found(units, size, HeaderRule::Avc);
    lemma_frames_inside(data, 0, size, HeaderRule::Avc);
    assert forall|i: int| 0 <= i < units.len() implies frame_announced(
        data,
        #[trigger] frames[i],
        sps,
        pps,
    ) == {
        &&& units[i][0] % 32 == 7 ==> sps.contains(rbsp_of(units[i].skip(1)))
        &&& units[i][0] % 32 == 8 ==> pps.contains(rbsp_of(units[i].skip(1)))
    } by {
        assert(unit_bytes(data, frames[i]) == units[i]);
        assert(unit_bytes(data, frames[i])[0] == data[frames[i].start as int]);
        let b = units[i][0];
        assert(b & 31 == b % 32) by (bit_vector);
    }
    if unit_announced(data, sets) {
        assert forall|i: int| #![trigger units[i]] 0 <= i < units.len() implies {
            &&& units[i][0] % 32 == 7 ==> sps.contains(rbsp_of(units[i].skip(1)))
            &&& units[i][0] % 32 == 8 ==> pps.contains(rbsp_of(units[i].skip(1)))
        } by {
            assert(frame_announced(data, frames[i], sps, pps));
        }
    } else {
        let i = choose|i: int|
            0 <= i < frames.len() && !frame_announced(data, #[trigger] frames[i], sps, pps);
        assert(units[i].len() > 0);
    }
}

/// An H.264 parameter set is refused for what first applies: that it cannot be read, that it
/// is not progressive, of eight bits and with chroma halved both ways, that its size is zero
/// or beyond 4096 by 2160, or that it is not the size of the sample entry. Otherwise its
/// colours decide.
pub proof fn law_h264_set_is_eight_bit_progressive(
    facts: SpsFacts,
    width: u16,
    height: u16,
    container: Option<ColourInfo>,
)
    ensures
        sps_color(None, width, height, container) == Err::<Color, ColorError>(
            ColorError::SpsUnreadable,
        ),
        ({
            let s = facts;
            let res = sps_color(Some(s), width, height, container);
            let plain = s.extra_luma_bits == 0 && s.extra_chroma_bits == 0 && s.chroma_format == 1
                && s.progressive;
            let sized = 1 <= s.width && s.width <= 4096 && 1 <= s.height && s.height <= 2160;
            let same = s.width == width && s.height == height;
            &&& !plain ==> res == Err::<Color, ColorError>(ColorError::UnsupportedFormat)
            &&& plain && !sized ==> res == Err::<Color, ColorError>(ColorError::TooLarge)
            &&& plain && sized && !same ==> res == Err::<Color, ColorError>(
                ColorError::DimensionsDisagree,
            )
            &&& plain && sized && same ==> res == resolved_color(
                SignalledColor {
                    matrix: s.matrix as u16,
                    transfer: s.transfer as u16,
                    full: s.full_range,
                },
                container,
            )
        }),
{
}

/// An H.264 track can be set up exactly where it has a video sample entry with an avcC record
/// that can be read and holds both kinds of parameter set.
pub proof fn law_avc_setup(track: TrackView, raw: Seq<u8>)
    ensures
        avc_setup_fault(track) == Some(SetupError::MissingEntry) <==> track.shape is None,
        avc_setup_fault(track) == Some(SetupError::NotVideo) <==> track.shape is Some && !(
        track.shape matches Some(EntryShape::Video { .. })),
        (track.shape matches Some(EntryShape::Video { .. })) && !(track.config is Avc)
            ==> avc_setup_fault(track) == Some(SetupError::MissingConfig),
        (track.shape matches Some(EntryShape::Video { .. })) && track.config == ConfigView::Avc(raw)
            ==> {
            let fault = avc_setup_fault(track);
            &&& !avcc_readable(raw) ==> fault == Some(SetupError::Unreadable)
            &&& avcc_readable(raw) ==> {
                let (sps, pps) = avcc_sets(raw)->Some_0;
                let held = |units: Seq<Seq<u8>>|
                    exists|i: int|
                        0 <= i < units.len() && (#[trigger] units[i]).len() > 0 && units[i][0]
                            < 128;
                &&& held(sps) && held(pps) ==> fault is None
                &&& !held(sps) || !held(pps) ==> fault == Some(SetupError::MissingSets)
            }
        },
{
    if track.config == ConfigView::Avc(raw) && avcc_readable(raw) {
        let (sps, pps) = avcc_sets(raw)->Some_0;
        lemma_payloads(sps);
        lemma_payloads(pps);
    }
}

/// Some payload is there exactly where some unit has a valid first byte.
proof fn lemma_payloads(units: Seq<Seq<u8>>)
    ensures
        payloads_of(units).len() > 0 <==> exists|i: int|
            0 <= i < units.len() && (#[trigger] units[i]).len() > 0 && units[i][0] < 128,
{
    let good = |unit: Seq<u8>| unit.len() > 0 && unit[0] & 0x80 == 0;
    let kept = units.filter(good);
    if exists|i: int|
        0 <= i < units.len() && (#[trigger] units[i]).len() > 0 && units[i][0] < 128 {
        let i = choose|i: int|
            0 <= i < units.len() && (#[trigger] units[i]).len() > 0 && units[i][0] < 128;
        let b = units[i][0];
        assert(b < 128 ==> b & 0x80 == 0) by (bit_vector);
        units.lemma_filter_contains(good, i);
    }
    if kept.len() > 0 {
        units.lemma_filter_pred(good, 0);
        assert(kept.contains(kept[0]));
        units.lemma_filter_contains_rev(good, kept[0]);
        let i = choose|i: int| 0 <= i < units.len() && units[i] == kept[0];
        let b = units[i][0];
        assert(b & 0x80 == 0 ==> b < 128) by (bit_vector);
    }
}

/// The colours of an H.264 track are those that all its sequence parameter sets agree on: where
/// the track is accepted, every set that can be a unit at all is accepted with the same colours;
/// and where every such set is, and there is one, the track is.
pub proof fn law_track_colors_agree(
    track: TrackView,
    raw: Seq<u8>,
    width: u16,
    height: u16,
    colour: Option<ColourInfo>,
    color: Color,
    i: int,
)
    requires
        track.shape == Some(EntryShape::Video { width, height, colour }),
        track.config == ConfigView::Avc(raw),
        avcc_readable(raw),
        0 <= i < avcc_sets(raw)->Some_0.0.len(),
        avcc_sets(raw)->Some_0.0[i].len() > 0,
        avcc_sets(raw)->Some_0.0[i][0] < 128,
    ensures
        ({
            let sps = avcc_sets(raw)->Some_0.0;
            &&& track_color(track) == Ok::<Color, ColorError>(color) ==> sps_color(
                h264_sps(rbsp_of(sps[i].skip(1))),
                width,
                height,
                colour,
            ) == Ok::<Color, ColorError>(color)
            &&& (forall|k: int|
                0 <= k < sps.len() && (#[trigger] sps[k]).len() > 0 && sps[k][0] < 128
                    ==> sps_color(h264_sps(rbsp_of(sps[k].skip(1))), width, height, colour) == Ok::<
                    Color,
                    ColorError,
                >(color)) ==> track_color(track) == Ok::<Color, ColorError>(color)
        }),
{
    let sps = avcc_sets(raw)->Some_0.0;
    let good = |unit: Seq<u8>| unit.len() > 0 && unit[0] & 0x80 == 0;
    let kept = sps.filter(good);
    let said = |rbsp: Seq<u8>| unit_color(sps_color(h264_sps(rbsp), width, height, colour));
    let payloads = payloads_of(sps);
    let units = payloads.map_values(said);
    let b = sps[i][0];
    assert(b < 128 ==> b & 0x80 == 0) by (bit_vector);
    sps.lemma_filter_contains(good, i);
    let p = choose|p: int| 0 <= p < kept.len() && kept[p] == sps[i];
    assert(payloads[p] == rbsp_of(sps[i].skip(1)));
    assert(units[p] == said(payloads[p]));
    if track_color(track) == Ok::<Color, ColorError>(color) {
        law_accepted_colors_are_uniform(units, color, p);
    }
    if forall|k: int|
        0 <= k < sps.len() && (#[trigger] sps[k]).len() > 0 && sps[k][0] < 128 ==> sps_color(
            h264_sps(rbsp_of(sps[k].skip(1))),
            width,
            height,
            colour,
        ) == Ok::<Color, ColorError>(color) {
        assert forall|q: int| 0 <= q < units.len() implies #[trigger] units[q] == UnitColor::Silent
            || units[q] == UnitColor::Is(color) by {
            sps.lemma_filter_pred(good, q);
            assert(kept.contains(kept[q]));
            sps.lemma_filter_contains_rev(good, kept[q]);
            let k = choose|k: int| 0 <= k < sps.len() && sps[k] == kept[q];
            let c = sps[k][0];
            assert(c & 0x80 == 0 ==> c < 128) by (bit_vector);
            assert(payloads[q] == rbsp_of(sps[k].skip(1)));
        }
        law_uniform_colors_are_accepted(units, color, p);
    }
}

/// An H.264 track without a video sample entry, without an avcC record or with one that cannot
/// be read is refused as such.
pub proof fn law_track_without_colors(track: TrackView, raw: Seq<u8>)
    ensures
        !(track.shape matches Some(EntryShape::Video { .. })) ==> track_color(track) == Err::<
            Color,
            ColorError,
        >(ColorError::MissingEntry),
        (track.shape matches Some(EntryShape::Video { .. })) && !(track.config is Avc)
            ==> track_color(track) == Err::<Color, ColorError>(ColorError::MissingConfig),
        (track.shape matches Some(EntryShape::Video { .. })) && track.config == ConfigView::Avc(raw)
            && !avcc_readable(raw) ==> track_color(track) == Err::<Color, ColorError>(
            ColorError::AvccUnreadable,
        ),
{
}

} // verus!
