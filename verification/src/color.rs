//! The colours of a clip, as its parameter sets and its container announce them.
use vstd::prelude::*;
use crate::media::ColourInfo;
use crate::video::Color;
use crate::hevc_config::HvccError;

verus! {

/// Why the colours of a clip are refused, or cannot be read.
#[derive(Clone, Copy, Debug, PartialEq, Eq, Structural)]
pub enum ColorError {
    /// There is no track in this coding.
    NoTrack,
    /// The track has no video sample entry.
    MissingEntry,
    /// The sample entry has no decoder configuration of this coding.
    MissingConfig,
    /// The avcC record cannot be read.
    AvccUnreadable,
    /// The hvcC record cannot be read.
    Hvcc(HvccError),
    /// The configuration carries no sequence parameter set.
    MissingSps,
    /// A NAL header in the configuration cannot be read.
    HeaderUnreadable,
    /// A sequence parameter set cannot be read.
    SpsUnreadable,
    /// H.265 range/screen-content/layered extensions are unsupported.
    Extensions,
    /// This H.265 bit depth is unsupported.
    BitDepth { luma: u8, chroma: u8 },
    /// This H.265 profile is unsupported.
    Profile(u8),
    /// Interlaced H.265 is unsupported.
    Interlaced,
    /// Only 4:2:0 H.265 is supported.
    ChromaFormat(u8),
    /// Only progressive 8-bit YUV420 H.264 is supported.
    UnsupportedFormat,
    /// The dimensions exceed the supported 4096x2160 limit.
    TooLarge,
    /// SPS/sample-entry dimensions disagree.
    DimensionsDisagree,
    /// Conflicting MP4/SPS color matrix.
    ConflictingMatrix,
    /// ICC/unknown color profiles unsupported.
    UnsupportedColours,
    /// Unsupported color matrix.
    UnsupportedMatrix(u16),
    /// HDR/unsupported transfer function.
    UnsupportedTransfer(u16),
    /// Changing SPS colors unsupported.
    ChangingColors,
}

/// The colours that a parameter set announces; two stands for unspecified.
#[derive(Clone, Copy, Debug, PartialEq, Eq, Structural)]
pub struct SignalledColor {
    pub matrix: u16,
    pub transfer: u16,
    pub full: bool,
}

/// The matrices that can be converted.
pub open spec fn known_matrix(matrix: u16) -> bool {
    matrix == 1 || matrix == 2 || matrix == 5 || matrix == 6
}

/// The transfer functions that need no tone mapping.
pub open spec fn known_transfer(transfer: u16) -> bool {
    transfer == 1 || transfer == 2 || transfer == 6 || transfer == 13 || transfer == 14 || transfer
        == 15
}

/// The colours of a clip whose container may announce its own: those prevail, but must not
/// contradict the matrix of the parameter set.
pub open spec fn merged_color(signalled: SignalledColor, container: Option<ColourInfo>) -> Result<
    SignalledColor,
    ColorError,
> {
    match container {
        None => Ok(signalled),
        Some(ColourInfo::Nclx { matrix, transfer, full_range }) => if signalled.matrix == 2
            || matrix == 2 || signalled.matrix == matrix {
            Ok(
                SignalledColor {
                    matrix: if matrix != 2 {
                        matrix
                    } else {
                        signalled.matrix
                    },
                    transfer,
                    full: full_range,
                },
            )
        } else {
            Err(ColorError::ConflictingMatrix)
        },
        Some(ColourInfo::Other) => Err(ColorError::UnsupportedColours),
    }
}

/// How the colours of a clip are to be converted.
pub open spec fn resolved_color(signalled: SignalledColor, container: Option<ColourInfo>) -> Result<
    Color,
    ColorError,
> {
    match merged_color(signalled, container) {
        Err(error) => Err(error),
        Ok(merged) => if !known_matrix(merged.matrix) {
            Err(ColorError::UnsupportedMatrix(merged.matrix))
        } else if !known_transfer(merged.transfer) {
            Err(ColorError::UnsupportedTransfer(merged.transfer))
        } else {
            Ok(Color { bt709: merged.matrix == 1, full: merged.full })
        },
    }
}

/// How the colours of a clip are to be converted.
pub fn resolve_color(signalled: SignalledColor, container: Option<ColourInfo>) -> (res: Result<
    Color,
    ColorError,
>)
    ensures
        res == resolved_color(signalled, container),
{
    let mut merged = signalled;
    match container {
        None => {},
        Some(ColourInfo::Nclx { matrix, transfer, full_range }) => {
            if signalled.matrix != 2 && matrix != 2 && signalled.matrix != matrix {
                return Err(ColorError::ConflictingMatrix);
            }
            if matrix != 2 {
                merged.matrix = matrix;
            }
            merged.transfer = transfer;
            merged.full = full_range;
        },
        Some(ColourInfo::Other) => {
            return Err(ColorError::UnsupportedColours);
        },
    }
    let m: u16 = merged.matrix;
    if m != 1 && m != 2 && m != 5 && m != 6 {
        return Err(ColorError::UnsupportedMatrix(m));
    }
    let t: u16 = merged.transfer;
    if t != 1 && t != 2 && t != 6 && t != 13 && t != 14 && t != 15 {
        return Err(ColorError::UnsupportedTransfer(t));
    }
    Ok(Color { bt709: m == 1, full: merged.full })
}

/// A size that can be decoded.
pub open spec fn size_supported(width: u32, height: u32) -> bool {
    0 < width <= 4096 && 0 < height <= 2160
}

/// What one NAL unit of a configuration says of the colours.
#[derive(Clone, Copy, Debug, PartialEq, Eq, Structural)]
pub enum UnitColor {
    /// Nothing: it is no sequence parameter set.
    Silent,
    /// These colours.
    Is(Color),
    /// It is refused.
    Refused(ColorError),
}

/// What a check of a sequence parameter set came to.
pub open spec fn unit_color(checked: Result<Color, ColorError>) -> UnitColor {
    match checked {
        Ok(color) => UnitColor::Is(color),
        Err(error) => UnitColor::Refused(error),
    }
}

/// The colours that all units agree on, if any says something, or the first objection.
pub open spec fn agreed_color(units: Seq<UnitColor>) -> Result<Option<Color>, ColorError>
    decreases units.len(),
{
    if units.len() == 0 {
        Ok(None)
    } else {
        match agreed_color(units.drop_last()) {
            Err(error) => Err(error),
            Ok(earlier) => match units.last() {
                UnitColor::Silent => Ok(earlier),
                UnitColor::Refused(error) => Err(error),
                UnitColor::Is(color) => match earlier {
                    Some(other) => if other == color {
                        Ok(Some(color))
                    } else {
                        Err(ColorError::ChangingColors)
                    },
                    None => Ok(Some(color)),
                },
            },
        }
    }
}

proof fn lemma_objection_stays(units: Seq<UnitColor>, count: int)
    requires
        0 <= count <= units.len(),
        agreed_color(units.take(count)) is Err,
    ensures
        agreed_color(units) == agreed_color(units.take(count)),
    decreases units.len(),
{
    if count < units.len() {
        assert(units.drop_last().take(count) =~= units.take(count));
        lemma_objection_stays(units.drop_last(), count);
    } else {
        assert(units.take(count) =~= units);
    }
}

/// The colours that all units agree on, or the first objection. Where no unit says anything
/// there is no parameter set.
pub fn agree_on_color(units: &Vec<UnitColor>) -> (res: Result<Color, ColorError>)
    ensures
        res == match agreed_color(units@) {
            Ok(Some(color)) => Ok::<Color, ColorError>(color),
            Ok(None) => Err(ColorError::MissingSps),
            Err(error) => Err(error),
        },
{
    let mut agreed: Option<Color> = None;
    let mut i: usize = 0;
    assert(units@.take(0) =~= Seq::<UnitColor>::empty());
    while i < units.len()
        invariant
            i <= units@.len(),
            agreed_color(units@.take(i as int)) == Ok::<Option<Color>, ColorError>(agreed),
        decreases units@.len() - i,
    {
        proof {
            assert(units@.take(i + 1).drop_last() =~= units@.take(i as int));
            if agreed_color(units@.take(i + 1)) is Err {
                lemma_objection_stays(units@, i + 1);
            }
        }
        match units[i] {
            UnitColor::Silent => {},
            UnitColor::Refused(error) => {
                return Err(error);
            },
            UnitColor::Is(color) => {
                if let Some(other) = agreed {
                    if other != color {
                        return Err(ColorError::ChangingColors);
                    }
                }
                agreed = Some(color);
            },
        }
        i += 1;
    }
    assert(units@.take(i as int) =~= units@);
    match agreed {
        Some(color) => Ok(color),
        None => Err(ColorError::MissingSps),
    }
}

/// Where a clip's colours are accepted, every sequence parameter set announces the same.
pub proof fn law_accepted_colors_are_uniform(units: Seq<UnitColor>, color: Color, i: int)
    requires
        agreed_color(units) == Ok::<Option<Color>, ColorError>(Some(color)),
        0 <= i < units.len(),
    ensures
        units[i] == UnitColor::Silent || units[i] == UnitColor::Is(color),
    decreases units.len(),
{
    if i < units.len() - 1 {
        let earlier = agreed_color(units.drop_last());
        if earlier == Ok::<Option<Color>, ColorError>(Some(color)) {
            law_accepted_colors_are_uniform(units.drop_last(), color, i);
        } else {
            lemma_silent(units.drop_last(), i);
        }
        assert(units.drop_last()[i] == units[i]);
    }
}

proof fn lemma_silent(units: Seq<UnitColor>, i: int)
    requires
        agreed_color(units) == Ok::<Option<Color>, ColorError>(None),
        0 <= i < units.len(),
    ensures
        units[i] == UnitColor::Silent,
    decreases units.len(),
{
    if i < units.len() - 1 {
        lemma_silent(units.drop_last(), i);
        assert(units.drop_last()[i] == units[i]);
    }
}

/// No unit's objection is that there is no track.
pub proof fn lemma_not_no_track(units: Seq<UnitColor>)
    requires
        forall|u: int|
            0 <= u < units.len() ==> #[trigger] units[u] != UnitColor::Refused(ColorError::NoTrack),
    ensures
        agreed_color(units) != Err::<Option<Color>, ColorError>(ColorError::NoTrack),
    decreases units.len(),
{
    if units.len() > 0 {
        assert forall|u: int| 0 <= u < units.drop_last().len() implies #[trigger]
            units.drop_last()[u] != UnitColor::Refused(ColorError::NoTrack) by {
            assert(units.drop_last()[u] == units[u]);
        }
        lemma_not_no_track(units.drop_last());
        assert(units[units.len() - 1] != UnitColor::Refused(ColorError::NoTrack));
    }
}

/// The container's colours prevail over those of the parameter set, except that an
/// unspecified matrix leaves the other one's. The colours are accepted exactly where the
/// container does not contradict the matrix, the matrix that prevails is one, two, five or
/// six, and the transfer function that prevails is a known one. BT.709 is then chosen exactly
/// for matrix one, and the range is the one that prevails.
pub proof fn law_prevailing_matrix_decides(
    signalled: SignalledColor,
    container: Option<ColourInfo>,
    matrix: u16,
    transfer: u16,
    full: bool,
)
    requires
        match container {
            None => matrix == signalled.matrix && transfer == signalled.transfer && full
                == signalled.full,
            Some(ColourInfo::Nclx { matrix: m, transfer: t, full_range }) => transfer == t && full
                == full_range && (m != 2 ==> matrix == m) && (m == 2 ==> matrix
                == signalled.matrix),
            Some(ColourInfo::Other) => true,
        },
    ensures
        ({
            let res = resolved_color(signalled, container);
            let odd = container == Some(ColourInfo::Other);
            let contradicted = container matches Some(ColourInfo::Nclx { matrix: m, .. }) && m != 2
                && signalled.matrix != 2 && m != signalled.matrix;
            let matrix_known = matrix == 1 || matrix == 2 || matrix == 5 || matrix == 6;
            let transfer_known = transfer == 1 || transfer == 2 || transfer == 6 || (13
                <= transfer && transfer <= 15);
            &&& res is Ok <==> !odd && !contradicted && matrix_known && transfer_known
            &&& res matches Ok(color) ==> {
                &&& matrix == 1 ==> color.bt709
                &&& matrix == 2 || matrix == 5 || matrix == 6 ==> !color.bt709
                &&& color.full == full
            }
            &&& res == Err::<Color, ColorError>(ColorError::UnsupportedColours) <==> odd
            &&& res == Err::<Color, ColorError>(ColorError::ConflictingMatrix) <==> contradicted
            &&& !odd && !contradicted && !matrix_known ==> res == Err::<Color, ColorError>(
                ColorError::UnsupportedMatrix(matrix),
            )
            &&& !odd && !contradicted && matrix_known && !transfer_known ==> res == Err::<
                Color,
                ColorError,
            >(ColorError::UnsupportedTransfer(transfer))
        }),
{
}

/// Where some unit announces colours and every other one announces the same or nothing, those
/// colours are accepted.
pub proof fn law_uniform_colors_are_accepted(units: Seq<UnitColor>, color: Color, i: int)
    requires
        0 <= i < units.len(),
        units[i] == UnitColor::Is(color),
        forall|k: int|
            0 <= k < units.len() ==> #[trigger] units[k] == UnitColor::Silent || units[k]
                == UnitColor::Is(color),
    ensures
        agreed_color(units) == Ok::<Option<Color>, ColorError>(Some(color)),
    decreases units.len(),
{
    let earlier = units.drop_last();
    assert forall|k: int| 0 <= k < earlier.len() implies #[trigger] earlier[k]
        == UnitColor::Silent || earlier[k] == UnitColor::Is(color) by {
        assert(earlier[k] == units[k]);
    }
    assert(units[units.len() - 1] == UnitColor::Silent || units[units.len() - 1] == UnitColor::Is(
        color,
    ));
    if i < units.len() - 1 {
        law_uniform_colors_are_accepted(earlier, color, i);
    } else {
        lemma_uniform_so_far(earlier, color);
    }
}

proof fn lemma_uniform_so_far(units: Seq<UnitColor>, color: Color)
    requires
        forall|k: int|
            0 <= k < units.len() ==> #[trigger] units[k] == UnitColor::Silent || units[k]
                == UnitColor::Is(color),
    ensures
        agreed_color(units) == Ok::<Option<Color>, ColorError>(None) || agreed_color(units) == Ok::<
            Option<Color>,
            ColorError,
        >(Some(color)),
    decreases units.len(),
{
    if units.len() > 0 {
        let earlier = units.drop_last();
        assert forall|k: int| 0 <= k < earlier.len() implies #[trigger] earlier[k]
            == UnitColor::Silent || earlier[k] == UnitColor::Is(color) by {
            assert(earlier[k] == units[k]);
        }
        lemma_uniform_so_far(earlier, color);
        assert(units[units.len() - 1] == UnitColor::Silent || units[units.len() - 1]
            == UnitColor::Is(color));
    }
}

/// The first unit that is refused, or that announces other colours than one before it, is what
/// the whole is refused for; and where every unit is silent, nothing is announced.
pub proof fn law_first_objection_is_reported(units: Seq<UnitColor>, color: Color, i: int)
    requires
        0 <= i < units.len(),
        forall|k: int|
            0 <= k < i ==> #[trigger] units[k] == UnitColor::Silent || units[k] == UnitColor::Is(
                color,
            ),
    ensures
        units[i] matches UnitColor::Refused(error) ==> agreed_color(units) == Err::<
            Option<Color>,
            ColorError,
        >(error),
        units[i] matches UnitColor::Is(other) && other != color && (exists|k: int|
            0 <= k < i && #[trigger] units[k] == UnitColor::Is(color)) ==> agreed_color(units)
            == Err::<Option<Color>, ColorError>(ColorError::ChangingColors),
{
    let before = units.take(i);
    let here = units.take(i + 1);
    assert(here.drop_last() =~= before);
    assert forall|k: int| 0 <= k < before.len() implies #[trigger] before[k] == UnitColor::Silent
        || before[k] == UnitColor::Is(color) by {
        assert(before[k] == units[k]);
    }
    lemma_uniform_so_far(before, color);
    if exists|k: int| 0 <= k < i && #[trigger] units[k] == UnitColor::Is(color) {
        let k = choose|k: int| 0 <= k < i && #[trigger] units[k] == UnitColor::Is(color);
        assert(before[k] == UnitColor::Is(color));
        law_uniform_colors_are_accepted(before, color, k);
    }
    if agreed_color(here) is Err {
        lemma_objection_stays(units, i + 1);
    }
}

} // verus!
