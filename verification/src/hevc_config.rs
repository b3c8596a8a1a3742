//! H.265 parameter sets: the hvcC record, the stream that it stands for, and what a sequence
//! parameter set says of the pictures.
use vstd::prelude::*;
use vstd::slice::slice_subrange;
use crate::avc_config::SetupError;
use crate::color::{
    agree_on_color, agreed_color, law_accepted_colors_are_uniform,
    law_uniform_colors_are_accepted, lemma_not_no_track, resolve_color, resolved_color,
    size_supported, unit_color, ColorError, SignalledColor, UnitColor,
};
use crate::media::{
    find_video, is_video_in, Codec, CodecConfig, ColourInfo, ConfigView, EntryShape, Movie, Track,
    TrackView,
};
use crate::nal::{annexb, lemma_annexb_push, push_unit, start_code};
use crate::video::Color;
use crate::video_hevc::{parse_unit_header, unit_header};

verus! {

/// Why an hvcC record is refused.
#[derive(Clone, Copy, Debug, PartialEq, Eq, Structural)]
pub enum HvccError {
    /// The record is shorter than its fixed part.
    TruncatedRecord,
    /// The configuration version is not the one that is known.
    UnsupportedVersion(u8),
    /// NAL lengths take a number of bytes that is not supported.
    UnsupportedLengthSize(usize),
    /// The record ends inside an array header.
    TruncatedArrayHeader,
    /// The record ends inside a NAL length.
    TruncatedLength,
    /// A NAL unit is empty or runs past the end of the record.
    TruncatedPayload,
    /// No array holds a parameter set.
    NoParameterSets,
}

/// The sixteen-bit number at `pos`, high byte first.
pub open spec fn be16(raw: Seq<u8>, pos: int) -> int {
    raw[pos] * 256 + raw[pos + 1]
}

/// `count` parameter sets of one array from `pos` on, and where they end.
pub open spec fn hvcc_units_from(raw: Seq<u8>, pos: int, count: nat) -> Result<
    (Seq<Seq<u8>>, int),
    HvccError,
>
    decreases count,
{
    if count == 0 {
        Ok((Seq::empty(), pos))
    } else if pos + 2 > raw.len() {
        Err(HvccError::TruncatedLength)
    } else {
        let n = be16(raw, pos);
        if n == 0 || pos + 2 + n > raw.len() {
            Err(HvccError::TruncatedPayload)
        } else {
            match hvcc_units_from(raw, pos + 2 + n, (count - 1) as nat) {
                Err(e) => Err(e),
                Ok((rest, end)) => Ok((seq![raw.subrange(pos + 2, pos + 2 + n)] + rest, end)),
            }
        }
    }
}

/// The parameter sets of `arrays` arrays from `pos` on, and where they end.
pub open spec fn hvcc_arrays_from(raw: Seq<u8>, pos: int, arrays: nat) -> Result<
    (Seq<Seq<u8>>, int),
    HvccError,
>
    decreases arrays,
{
    if arrays == 0 {
        Ok((Seq::empty(), pos))
    } else if pos + 3 > raw.len() {
        Err(HvccError::TruncatedArrayHeader)
    } else {
        match hvcc_units_from(raw, pos + 3, be16(raw, pos + 1) as nat) {
            Err(e) => Err(e),
            Ok((units, end)) => match hvcc_arrays_from(raw, end, (arrays - 1) as nat) {
                Err(e) => Err(e),
                Ok((rest, last)) => Ok((units + rest, last)),
            },
        }
    }
}

/// The parameter sets of an hvcC record and how many bytes a NAL length takes beside it.
pub open spec fn hvcc_sets(raw: Seq<u8>) -> Result<(Seq<Seq<u8>>, usize), HvccError> {
    if raw.len() <= 23 {
        Err(HvccError::TruncatedRecord)
    } else if raw[0] != 1 {
        Err(HvccError::UnsupportedVersion(raw[0]))
    } else if (raw[21] & 3) + 1 == 3 {
        Err(HvccError::UnsupportedLengthSize(3))
    } else {
        match hvcc_arrays_from(raw, 23, raw[22] as nat) {
            Err(e) => Err(e),
            Ok((units, _)) => if units.len() == 0 {
                Err(HvccError::NoParameterSets)
            } else {
                Ok((units, ((raw[21] & 3) + 1) as usize))
            },
        }
    }
}

/// Appends the parameter sets of one array and gives the place after them.
fn append_units(
    out: &mut Vec<u8>,
    raw: &[u8],
    from: usize,
    count: usize,
    units: Ghost<Seq<Seq<u8>>>,
) -> (end: Result<usize, HvccError>)
    requires
        old(out)@ == annexb(units@),
        from <= raw@.len(),
    ensures
        match end {
            Err(e) => hvcc_units_from(raw@, from as int, count as nat) == Err::<
                (Seq<Seq<u8>>, int),
                HvccError,
            >(e),
            Ok(end) => {
                &&& hvcc_units_from(raw@, from as int, count as nat) matches Ok((sets, place))
                &&& end == place
                &&& end <= raw@.len()
                &&& final(out)@ == annexb(units@ + sets)
            },
        },
{
    let total: usize = raw.len();
    let mut pos: usize = from;
    let mut left: usize = count;
    let ghost mut done: Seq<Seq<u8>> = Seq::empty();
    assert(units@ + done =~= units@);
    while left > 0
        invariant
            from <= pos <= total == raw@.len(),
            out@ == annexb(units@ + done),
            hvcc_units_from(raw@, from as int, count as nat) == match hvcc_units_from(
                raw@,
                pos as int,
                left as nat,
            ) {
                Err(e) => Err::<(Seq<Seq<u8>>, int), HvccError>(e),
                Ok((rest, end)) => Ok((done + rest, end)),
            },
        decreases left,
    {
        if total - pos < 2 {
            return Err(HvccError::TruncatedLength);
        }
        let n: usize = raw[pos] as usize * 256 + raw[pos + 1] as usize;
        if n == 0 || n > total - pos - 2 {
            return Err(HvccError::TruncatedPayload);
        }
        push_unit(out, raw, pos + 2, n);
        proof {
            let unit = raw@.subrange(pos + 2, pos + 2 + n);
            lemma_annexb_push(units@ + done, unit);
            assert((units@ + done).push(unit) =~= units@ + done.push(unit));
            if let Ok((rest, end)) = hvcc_units_from(raw@, pos + 2 + n, (left - 1) as nat) {
                assert(done + (seq![unit] + rest) =~= done.push(unit) + rest);
            }
            done = done.push(unit);
        }
        pos = pos + 2 + n;
        left -= 1;
    }
    assert(done + Seq::<Seq<u8>>::empty() =~= done);
    Ok(pos)
}

/// The parameter sets of an hvcC record as an Annex-B stream, and how many bytes a NAL
/// length takes in the samples beside it.
pub fn hvcc_parameter_sets(raw: &[u8]) -> (res: Result<(Vec<u8>, usize), HvccError>)
    ensures
        match res {
            Ok((out, length_size)) => {
                &&& hvcc_sets(raw@) matches Ok((units, size))
                &&& out@ == annexb(units)
                &&& length_size == size
                &&& length_size == 1 || length_size == 2 || length_size == 4
            },
            Err(e) => hvcc_sets(raw@) == Err::<(Seq<Seq<u8>>, usize), HvccError>(e),
        },
{
    let total: usize = raw.len();
    if total <= 23 {
        return Err(HvccError::TruncatedRecord);
    }
    if raw[0] != 1 {
        return Err(HvccError::UnsupportedVersion(raw[0]));
    }
    let sizes: u8 = raw[21];
    let low: u8 = sizes & 3;
    assert(sizes & 3 <= 3) by (bit_vector);
    let length_size: usize = low as usize + 1;
    if length_size == 3 {
        return Err(HvccError::UnsupportedLengthSize(length_size));
    }
    let mut out: Vec<u8> = Vec::new();
    let mut pos: usize = 23;
    let mut left: u8 = raw[22];
    let ghost mut done: Seq<Seq<u8>> = Seq::empty();
    while left > 0
        invariant
            pos <= total == raw@.len(),
            out@ == annexb(done),
            hvcc_arrays_from(raw@, 23, raw@[22] as nat) == match hvcc_arrays_from(
                raw@,
                pos as int,
                left as nat,
            ) {
                Err(e) => Err::<(Seq<Seq<u8>>, int), HvccError>(e),
                Ok((rest, end)) => Ok((done + rest, end)),
            },
            hvcc_arrays_from(raw@, 23, raw@[22] as nat) matches Err(e) ==> hvcc_sets(raw@) == Err::<
                (Seq<Seq<u8>>, usize),
                HvccError,
            >(e),
        decreases left,
    {
        if total - pos < 3 {
            return Err(HvccError::TruncatedArrayHeader);
        }
        let count: usize = raw[pos + 1] as usize * 256 + raw[pos + 2] as usize;
        match append_units(&mut out, raw, pos + 3, count, Ghost(done)) {
            Err(e) => {
                return Err(e);
            },
            Ok(end) => {
                proof {
                    let sets = hvcc_units_from(raw@, pos + 3, count as nat)->Ok_0.0;
                    if let Ok((rest, last)) = hvcc_arrays_from(raw@, end as int, (left - 1) as nat) {
                        assert(done + (sets + rest) =~= (done + sets) + rest);
                    }
                    done = done + sets;
                }
                pos = end;
            },
        }
        left -= 1;
    }
    assert(done + Seq::<Seq<u8>>::empty() =~= done);
    if out.len() == 0 {
        proof {
            if done.len() > 0 {
                assert(annexb(done).len() >= 4);
            }
        }
        return Err(HvccError::NoParameterSets);
    }
    Ok((out, length_size))
}

/// Parameter sets as an hvcC array stores them, each behind its two-byte length.
pub open spec fn sized_units(units: Seq<Seq<u8>>) -> Seq<u8>
    decreases units.len(),
{
    if units.len() == 0 {
        Seq::empty()
    } else {
        let n = units[0].len();
        seq![(n / 256) as u8, (n % 256) as u8] + units[0] + sized_units(units.drop_first())
    }
}

/// The arrays of an hvcC record: a type byte, a two-byte count and the parameter sets.
pub open spec fn stored_arrays(arrays: Seq<(u8, Seq<Seq<u8>>)>) -> Seq<u8>
    decreases arrays.len(),
{
    if arrays.len() == 0 {
        Seq::empty()
    } else {
        let (kind, units) = arrays[0];
        let count = units.len();
        seq![kind, (count / 256) as u8, (count % 256) as u8] + sized_units(units) + stored_arrays(
            arrays.drop_first(),
        )
    }
}

/// All parameter sets of the arrays, in order.
pub open spec fn all_units(arrays: Seq<(u8, Seq<Seq<u8>>)>) -> Seq<Seq<u8>>
    decreases arrays.len(),
{
    if arrays.len() == 0 {
        Seq::empty()
    } else {
        arrays[0].1 + all_units(arrays.drop_first())
    }
}

/// The counts and lengths of the arrays fit their two bytes, and no parameter set is empty.
pub open spec fn arrays_storable(arrays: Seq<(u8, Seq<Seq<u8>>)>) -> bool {
    &&& arrays.len() < 256
    &&& forall|i: int|
        #![trigger arrays[i]]
        0 <= i < arrays.len() ==> {
            &&& arrays[i].1.len() < 65536
            &&& forall|j: int|
                0 <= j < arrays[i].1.len() ==> 0 < (#[trigger] arrays[i].1[j]).len() < 65536
        }
}

proof fn lemma_units_from(before: Seq<u8>, units: Seq<Seq<u8>>, after: Seq<u8>)
    requires
        forall|j: int| 0 <= j < units.len() ==> 0 < (#[trigger] units[j]).len() < 65536,
    ensures
        hvcc_units_from(before + sized_units(units) + after, before.len() as int, units.len())
            == Ok::<(Seq<Seq<u8>>, int), HvccError>(
            (units, (before.len() + sized_units(units).len()) as int),
        ),
    decreases units.len(),
{
    let raw = before + sized_units(units) + after;
    if units.len() == 0 {
        assert(units =~= Seq::empty());
    } else {
        let unit = units[0];
        let n = unit.len();
        let prefix = seq![(n / 256) as u8, (n % 256) as u8];
        let next = before + prefix + unit;
        assert(raw =~= next + sized_units(units.drop_first()) + after);
        lemma_units_from(next, units.drop_first(), after);
        let pos = before.len() as int;
        assert(raw[pos] == (n / 256) as u8);
        assert(raw[pos + 1] == (n % 256) as u8);
        assert(be16(raw, pos) == n);
        assert(raw.subrange(pos + 2, pos + 2 + n) =~= unit);
        assert(seq![unit] + units.drop_first() =~= units);
    }
}

proof fn lemma_arrays_from(before: Seq<u8>, arrays: Seq<(u8, Seq<Seq<u8>>)>, after: Seq<u8>)
    requires
        arrays_storable(arrays),
    ensures
        hvcc_arrays_from(before + stored_arrays(arrays) + after, before.len() as int, arrays.len())
            == Ok::<(Seq<Seq<u8>>, int), HvccError>(
            (all_units(arrays), (before.len() + stored_arrays(arrays).len()) as int),
        ),
    decreases arrays.len(),
{
    let raw = before + stored_arrays(arrays) + after;
    if arrays.len() > 0 {
        let (kind, units) = arrays[0];
        let count = units.len();
        let prefix = seq![kind, (count / 256) as u8, (count % 256) as u8];
        let rest = arrays.drop_first();
        let opened = before + prefix;
        assert(raw =~= opened + sized_units(units) + (stored_arrays(rest) + after));
        assert(arrays[0].1.len() < 65536);
        lemma_units_from(opened, units, stored_arrays(rest) + after);
        let next = opened + sized_units(units);
        assert(raw =~= next + stored_arrays(rest) + after);
        assert forall|i: int| 0 <= i < rest.len() implies #[trigger] rest[i] == arrays[i + 1] by {}
        lemma_arrays_from(next, rest, after);
        let pos = before.len() as int;
        assert(raw[pos + 1] == (count / 256) as u8);
        assert(raw[pos + 2] == (count % 256) as u8);
        assert(be16(raw, pos + 1) == count);
    }
}

/// An hvcC record gives back the parameter sets of all the arrays that it was written with,
/// in order, and the size of a NAL length.
pub proof fn law_hvcc_record_keeps_sets(
    head: Seq<u8>,
    arrays: Seq<(u8, Seq<Seq<u8>>)>,
    tail: Seq<u8>,
)
    requires
        head.len() == 22,
        head[0] == 1,
        head[21] & 3 != 2,
        arrays_storable(arrays),
        all_units(arrays).len() > 0,
    ensures
        hvcc_sets(head + seq![arrays.len() as u8] + stored_arrays(arrays) + tail) == Ok::<
            (Seq<Seq<u8>>, usize),
            HvccError,
        >((all_units(arrays), ((head[21] & 3) + 1) as usize)),
{
    let raw = head + seq![arrays.len() as u8] + stored_arrays(arrays) + tail;
    let before = head + seq![arrays.len() as u8];
    lemma_arrays_from(before, arrays, tail);
    assert(raw[0] == head[0]);
    assert(raw[21] == head[21]);
    assert(raw[22] == arrays.len() as u8);
    assert(stored_arrays(arrays).len() > 0);
}

/// The first place from `from` on where `00 00 01` stands, or the end.
pub open spec fn code_from(stream: Seq<u8>, from: int) -> int
    decreases stream.len() - from,
{
    if from + 3 > stream.len() {
        stream.len() as int
    } else if stream[from] == 0 && stream[from + 1] == 0 && stream[from + 2] == 1 {
        from
    } else {
        code_from(stream, from + 1)
    }
}

/// The bytes without the zeros at the end.
pub open spec fn without_zeros(bytes: Seq<u8>) -> Seq<u8>
    decreases bytes.len(),
{
    if bytes.len() > 0 && bytes.last() == 0 {
        without_zeros(bytes.drop_last())
    } else {
        bytes
    }
}

/// The units of an Annex-B stream from the first byte of one of them on: each runs up to the
/// next start code, without the zeros at its end, and is left out where nothing remains.
pub open spec fn units_from(stream: Seq<u8>, start: int) -> Seq<Seq<u8>>
    decreases stream.len() - start,
{
    if start < 0 || start > stream.len() {
        Seq::empty()
    } else {
        let end = code_from(stream, start);
        let unit = without_zeros(stream.subrange(start, end));
        let rest = if start <= end && end + 3 <= stream.len() {
            units_from(stream, end + 3)
        } else {
            Seq::empty()
        };
        if unit.len() > 0 {
            seq![unit] + rest
        } else {
            rest
        }
    }
}

/// The NAL units of an Annex-B stream.
pub open spec fn split_stream(stream: Seq<u8>) -> Seq<Seq<u8>> {
    let first = code_from(stream, 0);
    if first + 3 <= stream.len() {
        units_from(stream, first + 3)
    } else {
        Seq::empty()
    }
}

/// The bytes of each unit.
pub open spec fn unit_views(units: Seq<Vec<u8>>) -> Seq<Seq<u8>> {
    units.map_values(|unit: Vec<u8>| unit@)
}

/// Calls `rusty_h265::nal::split_annex_b`: the NAL units of an Annex-B stream, without start
/// codes and without the zeros that end a unit.
#[verifier::external_body]
fn read_stream(stream: &[u8]) -> (units: Vec<Vec<u8>>)
    ensures
        unit_views(units@) == split_stream(stream@),
{
    rusty_h265::nal::split_annex_b(stream).iter().map(|unit| unit.to_vec()).collect()
}

/// A payload without its emulation prevention bytes, after `zeros` zero bytes: a three that
/// follows at least two zeros is left out.
pub open spec fn unescaped(data: Seq<u8>, zeros: nat) -> Seq<u8>
    decreases data.len(),
{
    if data.len() == 0 {
        Seq::empty()
    } else if zeros >= 2 && data[0] == 3 {
        unescaped(data.skip(1), 0)
    } else {
        seq![data[0]] + unescaped(
            data.skip(1),
            if data[0] == 0 {
                zeros + 1
            } else {
                0
            },
        )
    }
}

/// Calls `rusty_h265::nal::unescape`: a payload without its emulation prevention bytes.
#[verifier::external_body]
fn remove_escapes(data: &[u8]) -> (rbsp: Vec<u8>)
    ensures
        rbsp@ == unescaped(data@, 0),
{
    rusty_h265::nal::unescape(data).data
}

/// The colours in the usability information of a sequence parameter set; zero stands for
/// absent.
#[derive(Clone, Copy, Debug, PartialEq, Eq, Structural)]
pub struct VuiColor {
    pub matrix: u8,
    pub transfer: u8,
    pub full_range: bool,
}

/// What an H.265 sequence parameter set says of the pictures.
#[derive(Clone, Copy, Debug, PartialEq, Eq, Structural)]
pub struct HevcSpsFacts {
    pub range_extension: bool,
    pub multilayer_extension: bool,
    pub three_d_extension: bool,
    pub screen_content_extension: bool,
    pub luma_bits: u8,
    pub chroma_bits: u8,
    pub profile: u8,
    /// The compatibility flags, flag zero in the highest bit.
    pub compatibility: u32,
    pub interlaced: bool,
    pub chroma_format: u8,
    pub width: u32,
    pub height: u32,
    pub vui: Option<VuiColor>,
}

/// What `rusty_h265::ps::parse_sps` reads in the payload of a sequence parameter set, where
/// it can read it.
pub uninterp spec fn hevc_sps(rbsp: Seq<u8>) -> Option<HevcSpsFacts>;

/// Calls `rusty_h265::ps::parse_sps`: what the payload says of the pictures, with the size
/// as `rusty_h265::ps::Sps::output_size` crops it, or nothing where it cannot be read. The
/// result depends on the payload alone.
#[verifier::external_body]
fn read_hevc_sps(rbsp: &[u8]) -> (facts: Option<HevcSpsFacts>)
    requires
        rbsp@.len() * 8 <= usize::MAX,
    ensures
        facts == hevc_sps(rbsp@),
{
    let s = rusty_h265::ps::parse_sps(rbsp).ok()?;
    let (width, height) = s.output_size();
    let vui = s.vui.as_ref().map(|v| VuiColor {
        matrix: v.matrix_coeffs, transfer: v.transfer_characteristics, full_range: v.video_full_range_flag,
    });
    Some(HevcSpsFacts {
        range_extension: s.range_extension, multilayer_extension: s.multilayer_extension,
        three_d_extension: s.ext_3d, screen_content_extension: s.scc_extension,
        luma_bits: s.bit_depth_luma, chroma_bits: s.bit_depth_chroma,
        profile: s.ptl.profile_idc, compatibility: s.ptl.profile_compatibility_flags,
        interlaced: s.ptl.interlaced_source_flag, chroma_format: s.chroma_format_idc, width, height, vui,
    })
}

/// What can be read in the payload of a sequence parameter set. One whose bits a machine word
/// cannot count is not read.
pub open spec fn readable_sps(rbsp: Seq<u8>) -> Option<HevcSpsFacts> {
    if rbsp.len() * 8 <= usize::MAX {
        hevc_sps(rbsp)
    } else {
        None
    }
}

/// The compatibility flag of profile one, Main, flag zero being the highest bit.
pub const MAIN_COMPATIBLE: u32 = 0x4000_0000;

/// The profile is Main. Profile one is Main; some encoders signal no profile and flag Main
/// through the compatibility flags only. A set that signals another profile is not Main,
/// whatever it is compatible with.
pub open spec fn is_main_profile(profile: u8, compatibility: u32) -> bool {
    profile == 1 || (profile == 0 && compatibility & MAIN_COMPATIBLE != 0)
}

/// A colour code point, where zero stands for absent and two for unspecified.
pub open spec fn code_point(value: u8) -> u16 {
    if value == 0 {
        2
    } else {
        value as u16
    }
}

/// The colours that the usability information announces.
pub open spec fn vui_color(vui: Option<VuiColor>) -> SignalledColor {
    match vui {
        None => SignalledColor { matrix: 2, transfer: 2, full: false },
        Some(v) => SignalledColor {
            matrix: code_point(v.matrix),
            transfer: code_point(v.transfer),
            full: v.full_range,
        },
    }
}

/// The colours of a clip by one of its sequence parameter sets.
pub open spec fn hevc_sps_color(
    facts: Option<HevcSpsFacts>,
    width: u16,
    height: u16,
    container: Option<ColourInfo>,
) -> Result<Color, ColorError> {
    match facts {
        None => Err(ColorError::SpsUnreadable),
        Some(s) => if s.range_extension || s.multilayer_extension || s.three_d_extension
            || s.screen_content_extension {
            Err(ColorError::Extensions)
        } else if s.luma_bits != 8 || s.chroma_bits != 8 {
            Err(ColorError::BitDepth { luma: s.luma_bits, chroma: s.chroma_bits })
        } else if !is_main_profile(s.profile, s.compatibility) {
            Err(ColorError::Profile(s.profile))
        } else if s.interlaced {
            Err(ColorError::Interlaced)
        } else if s.chroma_format != 1 {
            Err(ColorError::ChromaFormat(s.chroma_format))
        } else if !size_supported(s.width, s.height) {
            Err(ColorError::TooLarge)
        } else if s.width != width || s.height != height {
            Err(ColorError::DimensionsDisagree)
        } else {
            resolved_color(vui_color(s.vui), container)
        },
    }
}

/// Judges what was read in a sequence parameter set against the sample entry.
pub fn check_hevc_sps(
    facts: Option<HevcSpsFacts>,
    width: u16,
    height: u16,
    container: Option<ColourInfo>,
) -> (res: Result<Color, ColorError>)
    ensures
        res == hevc_sps_color(facts, width, height, container),
{
    let s = match facts {
        Some(s) => s,
        None => {
            return Err(ColorError::SpsUnreadable);
        },
    };
    if s.range_extension || s.multilayer_extension || s.three_d_extension
        || s.screen_content_extension {
        return Err(ColorError::Extensions);
    }
    if s.luma_bits != 8 || s.chroma_bits != 8 {
        return Err(ColorError::BitDepth { luma: s.luma_bits, chroma: s.chroma_bits });
    }
    if s.profile != 1 && (s.profile != 0 || s.compatibility & MAIN_COMPATIBLE == 0) {
        return Err(ColorError::Profile(s.profile));
    }
    if s.interlaced {
        return Err(ColorError::Interlaced);
    }
    if s.chroma_format != 1 {
        return Err(ColorError::ChromaFormat(s.chroma_format));
    }
    if s.width == 0 || s.height == 0 || s.width > 4096 || s.height > 2160 {
        return Err(ColorError::TooLarge);
    }
    if s.width != width as u32 || s.height != height as u32 {
        return Err(ColorError::DimensionsDisagree);
    }
    let signalled = match s.vui {
        None => SignalledColor { matrix: 2, transfer: 2, full: false },
        Some(v) => SignalledColor {
            matrix: if v.matrix == 0 {
                2
            } else {
                v.matrix as u16
            },
            transfer: if v.transfer == 0 {
                2
            } else {
                v.transfer as u16
            },
            full: v.full_range,
        },
    };
    resolve_color(signalled, container)
}

/// What one NAL unit of an hvcC record says of the colours.
pub open spec fn hevc_unit_color(
    unit: Seq<u8>,
    width: u16,
    height: u16,
    container: Option<ColourInfo>,
) -> UnitColor {
    match unit_header(unit) {
        None => UnitColor::Refused(ColorError::HeaderUnreadable),
        Some(header) => if header.unit_type != 33 {
            UnitColor::Silent
        } else {
            unit_color(
                hevc_sps_color(
                    readable_sps(unescaped(unit.skip(2), 0)),
                    width,
                    height,
                    container,
                ),
            )
        },
    }
}

/// The colours of an H.265 track.
pub open spec fn hevc_track_color(track: TrackView) -> Result<Color, ColorError> {
    match track.shape {
        Some(EntryShape::Video { width, height, colour }) => match track.config {
            ConfigView::Hevc(raw) => match hvcc_sets(raw) {
                Err(error) => Err(ColorError::Hvcc(error)),
                Ok((sets, _)) => {
                    let units = split_stream(annexb(sets)).map_values(
                        |unit: Seq<u8>| hevc_unit_color(unit, width, height, colour),
                    );
                    match agreed_color(units) {
                        Ok(Some(color)) => Ok(color),
                        Ok(None) => Err(ColorError::MissingSps),
                        Err(error) => Err(error),
                    }
                },
            },
            _ => Err(ColorError::MissingConfig),
        },
        _ => Err(ColorError::MissingEntry),
    }
}

/// Reads one NAL unit of an hvcC record for what it says of the colours.
fn read_unit_color(unit: &Vec<u8>, width: u16, height: u16, container: Option<ColourInfo>) -> (res:
    UnitColor)
    ensures
        res == hevc_unit_color(unit@, width, height, container),
{
    match parse_unit_header(unit.as_slice()) {
        None => UnitColor::Refused(ColorError::HeaderUnreadable),
        Some(header) => {
            if header.unit_type != 33 {
                return UnitColor::Silent;
            }
            let payload = slice_subrange(unit.as_slice(), 2, unit.len());
            assert(payload@ =~= unit@.skip(2));
            let rbsp = remove_escapes(payload);
            let facts = if rbsp.len() <= usize::MAX / 8 {
                read_hevc_sps(rbsp.as_slice())
            } else {
                None
            };
            match check_hevc_sps(facts, width, height, container) {
                Ok(color) => UnitColor::Is(color),
                Err(error) => UnitColor::Refused(error),
            }
        },
    }
}

/// The movie's first H.265 track, if it has one.
pub fn hevc_track(movie: &Movie) -> (found: Option<usize>)
    ensures
        match found {
            Some(i) => {
                &&& i < movie.tracks@.len()
                &&& is_video_in(movie.tracks@[i as int]@, Codec::H265)
                &&& forall|j: int|
                    0 <= j < i ==> !is_video_in(#[trigger] movie.tracks@[j]@, Codec::H265)
            },
            None => forall|j: int|
                0 <= j < movie.tracks@.len() ==> !is_video_in(
                    #[trigger] movie.tracks@[j]@,
                    Codec::H265,
                ),
        },
{
    find_video(movie, Codec::H265)
}

/// The colour matrix and range of a movie's first H.265 track, checked as those of an H.264
/// track are: the parameter sets and the container must agree, and what cannot be decoded is
/// refused by name.
pub fn video_color(movie: &Movie) -> (res: Result<Color, ColorError>)
    ensures
        match res {
            Err(ColorError::NoTrack) => forall|j: int|
                0 <= j < movie.tracks@.len() ==> !is_video_in(
                    #[trigger] movie.tracks@[j]@,
                    Codec::H265,
                ),
            _ => exists|i: int|
                0 <= i < movie.tracks@.len() && is_video_in(
                    #[trigger] movie.tracks@[i]@,
                    Codec::H265,
                ) && (forall|j: int|
                    0 <= j < i ==> !is_video_in(#[trigger] movie.tracks@[j]@, Codec::H265))
                    && res == hevc_track_color(movie.tracks@[i]@),
        },
{
    let i: usize = match hevc_track(movie) {
        Some(i) => i,
        None => {
            return Err(ColorError::NoTrack);
        },
    };
    let track = &movie.tracks[i];
    assert(is_video_in(movie.tracks@[i as int]@, Codec::H265));
    let (width, height, colour) = match track.shape {
        Some(EntryShape::Video { width, height, colour }) => (width, height, colour),
        _ => {
            return Err(ColorError::MissingEntry);
        },
    };
    let raw = match &track.config {
        CodecConfig::Hevc(raw) => raw,
        _ => {
            return Err(ColorError::MissingConfig);
        },
    };
    let stream = match hvcc_parameter_sets(raw.as_slice()) {
        Ok((stream, _)) => stream,
        Err(error) => {
            return Err(ColorError::Hvcc(error));
        },
    };
    let units = read_stream(stream.as_slice());
    let ghost all = unit_views(units@).map_values(
        |unit: Seq<u8>| hevc_unit_color(unit, width, height, colour),
    );
    let mut colors: Vec<UnitColor> = Vec::new();
    let mut k: usize = 0;
    while k < units.len()
        invariant
            k <= units@.len() == all.len(),
            all == unit_views(units@).map_values(
                |unit: Seq<u8>| hevc_unit_color(unit, width, height, colour),
            ),
            colors@ == all.take(k as int),
        decreases units@.len() - k,
    {
        let color = read_unit_color(&units[k], width, height, colour);
        assert(color == all[k as int]);
        colors.push(color);
        k += 1;
        assert(colors@ =~= all.take(k as int));
    }
    assert(colors@ =~= all);
    let res = agree_on_color(&colors);
    assert(res == hevc_track_color(movie.tracks@[i as int]@));
    proof {
        assert forall|u: int| 0 <= u < all.len() implies all[u] != UnitColor::Refused(
            ColorError::NoTrack,
        ) by {}
        lemma_not_no_track(all);
    }
    res
}

/// A NAL unit that no reader of an Annex-B stream could cut short: it is not empty, does not
/// end in a zero and holds no start code.
pub open spec fn clean_unit(unit: Seq<u8>) -> bool {
    &&& unit.len() > 0
    &&& unit.last() != 0
    &&& forall|i: int| 0 <= i <= unit.len() - 3 ==> !#[trigger] code_at(unit, i)
}

/// `00 00 01` stands at `i`.
pub open spec fn code_at(stream: Seq<u8>, i: int) -> bool {
    stream[i] == 0 && stream[i + 1] == 0 && stream[i + 2] == 1
}

proof fn lemma_code_from_skips(stream: Seq<u8>, a: int, b: int)
    requires
        0 <= a <= b,
        forall|i: int| a <= i < b && i + 3 <= stream.len() ==> !#[trigger] code_at(stream, i),
    ensures
        b + 3 <= stream.len() ==> code_from(stream, a) == code_from(stream, b),
        b + 3 > stream.len() ==> code_from(stream, a) == stream.len(),
    decreases b - a,
{
    if a < b && a + 3 <= stream.len() {
        assert(!code_at(stream, a));
        lemma_code_from_skips(stream, a + 1, b);
    }
}

proof fn lemma_annexb_front(units: Seq<Seq<u8>>)
    requires
        units.len() > 0,
    ensures
        annexb(units) == start_code() + units[0] + annexb(units.drop_first()),
    decreases units.len(),
{
    let code = start_code();
    if units.len() == 1 {
        assert(units.drop_last() =~= Seq::<Seq<u8>>::empty());
        assert(units.drop_first() =~= Seq::<Seq<u8>>::empty());
        assert(annexb(units) =~= code + units[0] + annexb(units.drop_first()));
    } else {
        lemma_annexb_front(units.drop_last());
        assert(units.drop_last().drop_first() =~= units.drop_first().drop_last());
        assert(annexb(units) =~= code + units[0] + annexb(units.drop_first()));
    }
}

proof fn lemma_stripped(unit: Seq<u8>)
    requires
        unit.len() > 0,
        unit.last() != 0,
    ensures
        without_zeros(unit) == unit,
        without_zeros(unit.push(0)) == unit,
{
    assert(unit.push(0).drop_last() =~= unit);
}

proof fn lemma_units_come_back(before: Seq<u8>, units: Seq<Seq<u8>>)
    requires
        units.len() > 0,
        forall|i: int| 0 <= i < units.len() ==> clean_unit(#[trigger] units[i]),
    ensures
        units_from(before + units[0] + annexb(units.drop_first()), before.len() as int) == units,
    decreases units.len(),
{
    let unit = units[0];
    let rest = units.drop_first();
    let stream = before + unit + annexb(rest);
    let start = before.len() as int;
    let stop = start + unit.len();
    assert(clean_unit(units[0]));
    assert(stream[stop - 1] == unit.last());
    lemma_stripped(unit);
    if rest.len() == 0 {
        assert(annexb(rest) =~= Seq::<u8>::empty());
        assert forall|i: int| start <= i < stop && i + 3 <= stream.len() implies !#[trigger] code_at(
            stream,
            i,
        ) by {
            assert(!code_at(unit, i - start));
        }
        lemma_code_from_skips(stream, start, stop);
        assert(stream.subrange(start, stream.len() as int) =~= unit);
        assert(units =~= seq![unit]);
    } else {
        lemma_annexb_front(rest);
        let code = start_code();
        let tail = rest[0] + annexb(rest.drop_first());
        assert(stream =~= before + unit + code + tail);
        assert(stream[stop] == 0 && stream[stop + 1] == 0 && stream[stop + 2] == 0 && stream[stop
            + 3] == 1);
        assert forall|i: int| start <= i < stop + 1 && i + 3
            <= stream.len() implies !#[trigger] code_at(stream, i) by {
            if i + 3 <= stop {
                assert(!code_at(unit, i - start));
                assert(stream[i] == unit[i - start]);
                assert(stream[i + 1] == unit[i + 1 - start]);
                assert(stream[i + 2] == unit[i + 2 - start]);
            }
        }
        lemma_code_from_skips(stream, start, stop + 1);
        assert(code_at(stream, stop + 1));
        assert(code_from(stream, stop + 1) == stop + 1);
        assert(stream.subrange(start, stop + 1) =~= unit.push(0));
        let next = before + unit + code;
        assert(stream =~= next + rest[0] + annexb(rest.drop_first()));
        assert forall|i: int| 0 <= i < rest.len() implies clean_unit(#[trigger] rest[i]) by {
            assert(clean_unit(units[i + 1]));
        }
        lemma_units_come_back(next, rest);
        assert(seq![unit] + rest =~= units);
    }
}

/// What is written to an Annex-B stream is read back from it, unit by unit, as long as no
/// unit could be cut short.
pub proof fn law_stream_gives_units_back(units: Seq<Seq<u8>>)
    requires
        forall|i: int| 0 <= i < units.len() ==> clean_unit(#[trigger] units[i]),
    ensures
        split_stream(annexb(units)) == units,
{
    let stream = annexb(units);
    if units.len() == 0 {
        assert(stream =~= Seq::<u8>::empty());
        assert(split_stream(stream) =~= units);
    } else {
        lemma_annexb_front(units);
        let code = start_code();
        assert(stream =~= code + units[0] + annexb(units.drop_first()));
        assert(clean_unit(units[0]));
        assert forall|i: int| 0 <= i < 1 && i + 3 <= stream.len() implies !#[trigger] code_at(
            stream,
            i,
        ) by {}
        lemma_code_from_skips(stream, 0, 1);
        assert(code_at(stream, 1));
        assert(code_from(stream, 1) == 1);
        lemma_units_come_back(code, units);
    }
}

/// What a decoder of an H.265 track needs: the size of its pictures, how many bytes a NAL
/// length takes, and the parameter sets as the stream that the decoder starts with.
pub struct HevcSetup {
    pub width: usize,
    pub height: usize,
    pub length_size: usize,
    pub stream: Vec<u8>,
}

/// Why an H.265 track cannot be decoded, if it cannot.
pub open spec fn hevc_setup_fault(track: TrackView) -> Option<SetupError> {
    match track.shape {
        None => Some(SetupError::MissingEntry),
        Some(EntryShape::Video { .. }) => match track.config {
            ConfigView::Hevc(raw) => match hvcc_sets(raw) {
                Err(error) => Some(SetupError::Hvcc(error)),
                Ok(_) => None,
            },
            _ => Some(SetupError::MissingConfig),
        },
        Some(_) => Some(SetupError::NotVideo),
    }
}

/// Collects what a decoder of an H.265 track needs.
pub fn prepare_hevc(track: &Track) -> (res: Result<HevcSetup, SetupError>)
    ensures
        match res {
            Err(error) => hevc_setup_fault(track@) == Some(error),
            Ok(setup) => {
                &&& track@.shape matches Some(EntryShape::Video { width, height, .. })
                &&& track@.config matches ConfigView::Hevc(raw)
                &&& hvcc_sets(raw) matches Ok((sets, length_size))
                &&& setup.width == width
                &&& setup.height == height
                &&& setup.length_size == length_size
                &&& setup.stream@ == annexb(sets)
            },
        },
{
    let (width, height) = match track.shape {
        None => {
            return Err(SetupError::MissingEntry);
        },
        Some(EntryShape::Video { width, height, colour: _ }) => (width as usize, height as usize),
        Some(_) => {
            return Err(SetupError::NotVideo);
        },
    };
    let raw = match &track.config {
        CodecConfig::Hevc(raw) => raw,
        _ => {
            return Err(SetupError::MissingConfig);
        },
    };
    match hvcc_parameter_sets(raw.as_slice()) {
        Ok((stream, length_size)) => Ok(HevcSetup { width, height, length_size, stream }),
        Err(error) => Err(SetupError::Hvcc(error)),
    }
}

/// What the fixed part of an hvcC record decides: too short a record, a version other than one
/// and lengths of three bytes are refused in this order, and an accepted record's lengths take
/// one byte more than the two low bits of its byte twenty-one say.
pub proof fn law_hvcc_fixed_part(raw: Seq<u8>)
    ensures
        raw.len() < 24 ==> hvcc_sets(raw) == Err::<(Seq<Seq<u8>>, usize), HvccError>(
            HvccError::TruncatedRecord,
        ),
        raw.len() >= 24 && raw[0] != 1 ==> hvcc_sets(raw) == Err::<(Seq<Seq<u8>>, usize), HvccError>(
            HvccError::UnsupportedVersion(raw[0]),
        ),
        raw.len() >= 24 && raw[0] == 1 && raw[21] % 4 == 2 ==> hvcc_sets(raw) == Err::<
            (Seq<Seq<u8>>, usize),
            HvccError,
        >(HvccError::UnsupportedLengthSize(3)),
        hvcc_sets(raw) matches Ok((units, size)) ==> {
            &&& raw[0] == 1
            &&& size == raw[21] as int % 4 + 1
            &&& size == 1 || size == 2 || size == 4
            &&& units.len() > 0
        },
{
    if raw.len() >= 24 {
        let b = raw[21];
        assert(b & 3 == b % 4) by (bit_vector);
    }
}

proof fn lemma_units_read(raw: Seq<u8>, pos: int, count: nat)
    requires
        0 <= pos <= raw.len(),
        hvcc_units_from(raw, pos, count) is Ok,
    ensures
        ({
            let (units, end) = hvcc_units_from(raw, pos, count)->Ok_0;
            &&& pos <= end <= raw.len()
            &&& units.len() == count
            &&& raw.subrange(pos, end) == sized_units(units)
            &&& forall|j: int| 0 <= j < units.len() ==> 0 < (#[trigger] units[j]).len() < 65536
        }),
    decreases count,
{
    if count == 0 {
        assert(raw.subrange(pos, pos) =~= sized_units(Seq::<Seq<u8>>::empty()));
    } else {
        let n = be16(raw, pos);
        let next = pos + 2 + n;
        let unit = raw.subrange(pos + 2, next);
        lemma_units_read(raw, next, (count - 1) as nat);
        let (rest, end) = hvcc_units_from(raw, next, (count - 1) as nat)->Ok_0;
        let units = seq![unit] + rest;
        assert(units.drop_first() =~= rest);
        assert(units[0] == unit);
        assert((n / 256) as u8 == raw[pos] && (n % 256) as u8 == raw[pos + 1]);
        assert(raw.subrange(pos, end) =~= seq![raw[pos], raw[pos + 1]] + unit + raw.subrange(
            next,
            end,
        ));
        assert forall|j: int| 0 <= j < units.len() implies 0 < (#[trigger] units[j]).len()
            < 65536 by {
            if j > 0 {
                assert(units[j] == rest[j - 1]);
            }
        }
    }
}

proof fn lemma_arrays_read(raw: Seq<u8>, pos: int, count: nat) -> (arrays: Seq<
    (u8, Seq<Seq<u8>>),
>)
    requires
        0 <= pos <= raw.len(),
        count < 256,
        hvcc_arrays_from(raw, pos, count) is Ok,
    ensures
        ({
            let (units, end) = hvcc_arrays_from(raw, pos, count)->Ok_0;
            &&& pos <= end <= raw.len()
            &&& arrays.len() == count
            &&& arrays_storable(arrays)
            &&& all_units(arrays) == units
            &&& raw.subrange(pos, end) == stored_arrays(arrays)
        }),
    decreases count,
{
    if count == 0 {
        let arrays = Seq::<(u8, Seq<Seq<u8>>)>::empty();
        assert(raw.subrange(pos, pos) =~= stored_arrays(arrays));
        arrays
    } else {
        let n = be16(raw, pos + 1);
        lemma_units_read(raw, pos + 3, n as nat);
        let (units, middle) = hvcc_units_from(raw, pos + 3, n as nat)->Ok_0;
        let rest = lemma_arrays_read(raw, middle, (count - 1) as nat);
        let end = hvcc_arrays_from(raw, middle, (count - 1) as nat)->Ok_0.1;
        let arrays = seq![(raw[pos], units)] + rest;
        assert(arrays.drop_first() =~= rest);
        assert(arrays[0] == (raw[pos], units));
        assert((n / 256) as u8 == raw[pos + 1] && (n % 256) as u8 == raw[pos + 2]);
        assert(raw.subrange(pos, end) =~= seq![raw[pos], raw[pos + 1], raw[pos + 2]]
            + raw.subrange(pos + 3, middle) + raw.subrange(middle, end));
        assert forall|i: int| #![trigger arrays[i]] 0 <= i < arrays.len() implies {
            &&& arrays[i].1.len() < 65536
            &&& forall|j: int|
                0 <= j < arrays[i].1.len() ==> 0 < (#[trigger] arrays[i].1[j]).len() < 65536
        } by {
            if i > 0 {
                assert(arrays[i] == rest[i - 1]);
            }
        }
        arrays
    }
}

/// An hvcC record is only accepted where the arrays that it announces all stand in it, one
/// after the other, and the parameter sets that are read are those of the arrays.
pub proof fn law_accepted_hvcc_holds_its_arrays(raw: Seq<u8>) -> (arrays: Seq<
    (u8, Seq<Seq<u8>>),
>)
    requires
        hvcc_sets(raw) is Ok,
    ensures
        arrays.len() == raw[22],
        arrays_storable(arrays),
        all_units(arrays) == hvcc_sets(raw)->Ok_0.0,
        stored_arrays(arrays).len() + 23 <= raw.len(),
        raw.subrange(23, (23 + stored_arrays(arrays).len()) as int) == stored_arrays(arrays),
{
    let arrays = lemma_arrays_read(raw, 23, raw[22] as nat);
    let end = hvcc_arrays_from(raw, 23, raw[22] as nat)->Ok_0.1;
    assert(raw.subrange(23, end).len() == end - 23);
    arrays
}

/// An H.265 parameter set is refused for what first applies: that it cannot be read, that it
/// uses an extension, that its samples are not of eight bits, that its profile is not Main,
/// that it is interlaced, that its chroma is not halved both ways, that its size is zero or
/// beyond 4096 by 2160, or that it is not the size of the sample entry. Otherwise its colours
/// decide, zero standing for unspecified.
pub proof fn law_hevc_set_is_eight_bit_main(
    facts: HevcSpsFacts,
    width: u16,
    height: u16,
    container: Option<ColourInfo>,
)
    ensures
        hevc_sps_color(None, width, height, container) == Err::<Color, ColorError>(
            ColorError::SpsUnreadable,
        ),
        ({
            let s = facts;
            let res = hevc_sps_color(Some(s), width, height, container);
            let plain = !s.range_extension && !s.multilayer_extension && !s.three_d_extension
                && !s.screen_content_extension;
            let eight = s.luma_bits == 8 && s.chroma_bits == 8;
            let main = s.profile == 1 || (s.profile == 0 && (s.compatibility as int / 0x4000_0000)
                % 2 == 1);
            let sized = 1 <= s.width && s.width <= 4096 && 1 <= s.height && s.height <= 2160;
            let same = s.width == width && s.height == height;
            &&& !plain ==> res == Err::<Color, ColorError>(ColorError::Extensions)
            &&& plain && !eight ==> res == Err::<Color, ColorError>(
                ColorError::BitDepth { luma: s.luma_bits, chroma: s.chroma_bits },
            )
            &&& plain && eight && !main ==> res == Err::<Color, ColorError>(
                ColorError::Profile(s.profile),
            )
            &&& plain && eight && main && s.interlaced ==> res == Err::<Color, ColorError>(
                ColorError::Interlaced,
            )
            &&& plain && eight && main && !s.interlaced && s.chroma_format != 1 ==> res == Err::<
                Color,
                ColorError,
            >(ColorError::ChromaFormat(s.chroma_format))
            &&& plain && eight && main && !s.interlaced && s.chroma_format == 1 ==> {
                &&& !sized ==> res == Err::<Color, ColorError>(ColorError::TooLarge)
                &&& sized && !same ==> res == Err::<Color, ColorError>(
                    ColorError::DimensionsDisagree,
                )
                &&& sized && same && s.vui is None ==> res == resolved_color(
                    SignalledColor { matrix: 2, transfer: 2, full: false },
                    container,
                )
                &&& sized && same ==> (s.vui matches Some(v) ==> res == resolved_color(
                    SignalledColor {
                        matrix: (if v.matrix == 0 {
                            2
                        } else {
                            v.matrix
                        }) as u16,
                        transfer: (if v.transfer == 0 {
                            2
                        } else {
                            v.transfer
                        }) as u16,
                        full: v.full_range,
                    },
                    container,
                ))
            }
        }),
{
    let c = facts.compatibility;
    assert((c & 0x4000_0000 != 0) == ((c / 0x4000_0000) % 2 == 1)) by (bit_vector);
}

/// Only a sequence parameter set, a unit of type thirty-three, says something of the colours;
/// any other unit with a valid header is silent, and one without is refused.
pub proof fn law_only_parameter_sets_speak(
    unit: Seq<u8>,
    width: u16,
    height: u16,
    container: Option<ColourInfo>,
)
    requires
        unit.len() > 0,
    ensures
        ({
            let said = hevc_unit_color(unit, width, height, container);
            let valid = unit.len() >= 2 && unit[0] < 128 && unit[1] % 8 != 0;
            &&& !valid ==> said == UnitColor::Refused(ColorError::HeaderUnreadable)
            &&& valid && unit[0] as int / 2 != 33 ==> said == UnitColor::Silent
            &&& valid && unit[0] as int / 2 == 33 ==> (match hevc_sps_color(
                readable_sps(unescaped(unit.skip(2), 0)),
                width,
                height,
                container,
            ) {
                Ok(color) => said == UnitColor::Is(color),
                Err(error) => said == UnitColor::Refused(error),
            })
        }),
{
    crate::video_hevc::law_header_bytes(unit);
}

/// An H.265 track can be set up exactly where it has a video sample entry with an hvcC record
/// that is accepted.
pub proof fn law_hevc_setup(track: TrackView, raw: Seq<u8>)
    ensures
        hevc_setup_fault(track) is None <==> ((track.shape matches Some(EntryShape::Video { .. }))
            && (track.config matches ConfigView::Hevc(held) && hvcc_sets(held) is Ok)),
        hevc_setup_fault(track) == Some(SetupError::MissingEntry) <==> track.shape is None,
        hevc_setup_fault(track) == Some(SetupError::NotVideo) <==> track.shape is Some && !(
        track.shape matches Some(EntryShape::Video { .. })),
        (track.shape matches Some(EntryShape::Video { .. })) && track.config == ConfigView::Hevc(raw)
            ==> (hvcc_sets(raw) matches Err(error) ==> hevc_setup_fault(track) == Some(
            SetupError::Hvcc(error),
        )),
        (track.shape matches Some(EntryShape::Video { .. })) && !(track.config is Hevc)
            ==> hevc_setup_fault(track) == Some(SetupError::MissingConfig),
{
}

/// The colours of an H.265 track are those that all its sequence parameter sets agree on: where
/// the track is accepted, every unit of its record has a valid header, and every sequence
/// parameter set among them is accepted with the same colours; and where that is so, and there
/// is such a set, the track is.
pub proof fn law_hevc_track_colors_agree(
    track: TrackView,
    raw: Seq<u8>,
    width: u16,
    height: u16,
    colour: Option<ColourInfo>,
    color: Color,
    i: int,
)
    requires
        track.shape == Some(EntryShape::Video { width, height, colour }),
        track.config == ConfigView::Hevc(raw),
        hvcc_sets(raw) is Ok,
        0 <= i < split_stream(annexb(hvcc_sets(raw)->Ok_0.0)).len(),
    ensures
        ({
            let units = split_stream(annexb(hvcc_sets(raw)->Ok_0.0));
            let silent = UnitColor::Silent;
            let is = UnitColor::Is(color);
            &&& hevc_track_color(track) == Ok::<Color, ColorError>(color) ==> hevc_unit_color(
                units[i],
                width,
                height,
                colour,
            ) == silent || hevc_unit_color(units[i], width, height, colour) == is
            &&& hevc_unit_color(units[i], width, height, colour) == is && (forall|k: int|
                #![trigger units[k]]
                0 <= k < units.len() ==> hevc_unit_color(units[k], width, height, colour) == silent
                    || hevc_unit_color(units[k], width, height, colour) == is) ==> hevc_track_color(
                track,
            ) == Ok::<Color, ColorError>(color)
        }),
{
    let units = split_stream(annexb(hvcc_sets(raw)->Ok_0.0));
    let said = units.map_values(|unit: Seq<u8>| hevc_unit_color(unit, width, height, colour));
    assert(said[i] == hevc_unit_color(units[i], width, height, colour));
    if hevc_track_color(track) == Ok::<Color, ColorError>(color) {
        law_accepted_colors_are_uniform(said, color, i);
    }
    if said[i] == UnitColor::Is(color) && (forall|k: int|
        #![trigger units[k]]
        0 <= k < units.len() ==> hevc_unit_color(units[k], width, height, colour)
            == UnitColor::Silent || hevc_unit_color(units[k], width, height, colour)
            == UnitColor::Is(color)) {
        assert forall|k: int| 0 <= k < said.len() implies #[trigger] said[k] == UnitColor::Silent
            || said[k] == UnitColor::Is(color) by {
            assert(units[k] == units[k]);
        }
        law_uniform_colors_are_accepted(said, color, i);
    }
}

/// An H.265 track without a video sample entry, without an hvcC record or with one that is
/// refused is refused as such.
pub proof fn law_hevc_track_without_colors(track: TrackView, raw: Seq<u8>)
    ensures
        !(track.shape matches Some(EntryShape::Video { .. })) ==> hevc_track_color(track) == Err::<
            Color,
            ColorError,
        >(ColorError::MissingEntry),
        (track.shape matches Some(EntryShape::Video { .. })) && !(track.config is Hevc)
            ==> hevc_track_color(track) == Err::<Color, ColorError>(ColorError::MissingConfig),
        (track.shape matches Some(EntryShape::Video { .. })) && track.config == ConfigView::Hevc(raw)
            ==> (hvcc_sets(raw) matches Err(error) ==> hevc_track_color(track) == Err::<
            Color,
            ColorError,
        >(ColorError::Hvcc(error))),
{
}

} // verus!
