//! H.264 pictures: selection, framing, colour and the decoding of one stream.
use vstd::prelude::*;
use crate::arith::{ceil_div, divide_up, law_rounds_up};
use crate::nal::{
    annexb, annexb_of, fault_from, frames_from, frames_inside, header_fault,
    law_annexb_of_stored_units, law_framed_data_is_stored_units, law_header_rules,
    law_stored_units_are_found,
    lemma_frames_inside, length_prefixed, prefix_limit, split_units, to_annexb, unit_bytes,
    units_of, Frame, HeaderRule, NalError,
};

pub use crate::avc_config::video_color;
pub use crate::presentation::{LookaheadError, PresentationTimes, MAX_REORDER};

verus! {

/// What a decoded clip came to.
#[derive(Debug, Clone, Copy)]
pub struct VideoInfo {
    pub width: usize,
    pub height: usize,
    pub duration_ms: u64,
    pub sample_count: usize,
    pub resized_count: usize,
    pub skipped_count: usize,
}

/// How a clip is to be decoded.
#[derive(Clone, Copy)]
pub struct VideoConfig {
    /// Side of the square tensors.
    pub resolution: usize,
    /// Length of an epoch.
    pub window_ms: u64,
    /// Length of the sound beside the clip.
    pub audio_duration_ms: u64,
    /// Threads inside one decoder; zero for none.
    pub decoder_threads: usize,
    /// Leave pictures undecoded that nothing refers to and no epoch selects.
    pub skip_nonref: bool,
    /// Report how the clip is decoded.
    pub diagnostics: bool,
}

/// An epoch without any length was asked for.
#[derive(Clone, Copy, Debug, PartialEq, Eq, Structural)]
pub struct EmptyWindow;

/// Checks that epochs have a length.
pub fn check_window(config: &VideoConfig) -> (res: Result<(), EmptyWindow>)
    ensures
        res == window_checked(*config),
        res == if config.window_ms == 0 {
            Err::<(), EmptyWindow>(EmptyWindow)
        } else {
            Ok(())
        },
{
    if config.window_ms == 0 {
        Err(EmptyWindow)
    } else {
        Ok(())
    }
}

/// The matrix and the range of a clip's colours.
#[derive(Clone, Copy, PartialEq, Eq, Debug, Structural)]
pub struct Color {
    pub bt709: bool,
    pub full: bool,
}

/// What the name of a colour matrix and range reads.
pub open spec fn color_text(color: Color) -> Seq<char> {
    (if color.bt709 {
        "BT.709"@
    } else {
        "BT.601"@
    }) + " "@ + (if color.full {
        "full"@
    } else {
        "limited"@
    })
}

impl Color {
    /// The matrix and the range by name.
    pub fn description(self) -> (text: String)
        ensures
            text@ == color_text(self),
    {
        let mut text: String = String::new();
        assert(text@ =~= Seq::<char>::empty());
        if self.bt709 {
            text.append("BT.709");
        } else {
            text.append("BT.601");
        }
        text.append(" ");
        if self.full {
            text.append("full");
        } else {
            text.append("limited");
        }
        assert(text@ =~= color_text(self));
        text
    }
}

/// A picture at `pts` presents between the start of the movie and `end`.
pub open spec fn in_span(pts: i64, end: u64) -> bool {
    0 <= pts < end
}

/// Whether a picture at `pts` presents between the start of the movie and `end`.
pub fn is_in_span(pts: i64, end: u64) -> (inside: bool)
    ensures
        inside == in_span(pts, end),
{
    pts >= 0 && (pts as u64) < end
}

/// The presentation times that lie before `end`, in the order they came.
pub open spec fn kept_times(pts: Seq<i64>, end: u64) -> Seq<i64> {
    pts.filter(|p: i64| in_span(p, end))
}

/// The presentation times from `from` up to `to` that lie before `end`.
pub fn keep_times(pts: &Vec<i64>, from: usize, to: usize, end: u64) -> (kept: Vec<i64>)
    requires
        from <= to <= pts@.len(),
    ensures
        kept@ == kept_times(pts@.subrange(from as int, to as int), end),
        kept@.len() <= to - from,
{
    let mut kept: Vec<i64> = Vec::new();
    let mut i: usize = from;
    let ghost keep = |p: i64| in_span(p, end);
    proof {
        reveal(Seq::filter);
        assert(pts@.subrange(from as int, from as int) =~= Seq::<i64>::empty());
    }
    while i < to
        invariant
            from <= i <= to <= pts@.len(),
            keep == (|p: i64| in_span(p, end)),
            kept@ == pts@.subrange(from as int, i as int).filter(keep),
            kept@.len() <= i - from,
        decreases to - i,
    {
        let p: i64 = pts[i];
        proof {
            reveal(Seq::filter);
            let now = pts@.subrange(from as int, i + 1);
            assert(now.drop_last() =~= pts@.subrange(from as int, i as int));
            assert(now.last() == p);
        }
        if is_in_span(p, end) {
            kept.push(p);
        }
        i += 1;
    }
    kept
}

/// How many epochs a clip and the sound beside it take.
pub open spec fn epoch_count(duration_ms: u64, audio_ms: u64, window_ms: u64) -> usize {
    ceil_div(
        if duration_ms >= audio_ms {
            duration_ms as int
        } else {
            audio_ms as int
        },
        window_ms as int,
    ) as usize
}

/// How many epochs a clip and the sound beside it take.
pub fn count_epochs(duration_ms: u64, audio_ms: u64, window_ms: u64) -> (count: usize)
    requires
        window_ms > 0,
    ensures
        count == epoch_count(duration_ms, audio_ms, window_ms),
{
    divide_up(duration_ms.max(audio_ms), window_ms) as usize
}

/// Halfway from `pts` to `next`, rounded towards `pts`.
pub open spec fn midpoint(pts: int, next: int) -> int {
    if next >= pts {
        pts + (next - pts) / 2
    } else {
        pts - (pts - next) / 2
    }
}

/// The neighbouring presentation times for which the midpoint rule stays inside the
/// machine integers.
pub open spec fn neighbours_ok(pts: i64, next: i64, window_ms: u64) -> bool {
    &&& window_ms > 0
    &&& i64::MIN <= next - pts <= i64::MAX
    &&& window_ms == 1 ==> midpoint(pts as int, next as int) != -1
}

/// One past the last epoch that a picture at `pts` serves when the following picture
/// is at `next`: epochs up to the midpoint between them, or all that are left.
pub open spec fn epoch_end_spec(
    pts: i64,
    next: Option<i64>,
    window_ms: u64,
    total: usize,
) -> usize {
    match next {
        None => total,
        Some(n) => {
            let reached = (midpoint(pts as int, n as int) as u64 as int / window_ms as int + 1) as usize;
            if reached <= total {
                reached
            } else {
                total
            }
        },
    }
}

/// One past the last epoch that a picture at `pts` serves. The earlier picture wins a
/// tie, and the last picture serves every epoch that is left.
pub fn epoch_end(pts: i64, next_pts: Option<i64>, window_ms: u64, total: usize) -> (end: usize)
    requires
        next_pts matches Some(next) ==> neighbours_ok(pts, next, window_ms),
    ensures
        end == epoch_end_spec(pts, next_pts, window_ms, total),
        end <= total,
{
    match next_pts {
        None => total,
        Some(next) => {
            let half: i64 = (next - pts) / 2;
            let middle: i64 = pts + half;
            let unsigned: u64 = middle as u64;
            assert(unsigned == u64::MAX ==> middle == -1) by (bit_vector)
                requires
                    unsigned == middle as u64,
            ;
            assert(window_ms >= 2 ==> unsigned / window_ms <= u64::MAX / 2) by (nonlinear_arith);
            let reached: usize = (unsigned / window_ms + 1) as usize;
            reached.min(total)
        },
    }
}

/// What the conversion of an H.264 access unit to Annex-B gives.
pub open spec fn avc_converted(data: Seq<u8>, length_size: nat) -> Result<Seq<u8>, NalError> {
    annexb_of(data, length_size, HeaderRule::Avc)
}

/// An H.264 access unit of valid units is converted to their Annex-B stream, and whatever is
/// converted is such a run of units.
pub proof fn law_valid_units_are_converted(units: Seq<Seq<u8>>, data: Seq<u8>, size: nat)
    requires
        data.len() <= usize::MAX,
    ensures
        valid_units(units, size) && units.len() > 0 ==> avc_converted(
            length_prefixed(units, size),
            size,
        ) == Ok::<Seq<u8>, NalError>(annexb(units)),
        1 <= size <= 4 && avc_converted(data, size) is Ok ==> exists|held: Seq<Seq<u8>>| #[trigger]
            valid_units(held, size) && data == length_prefixed(held, size) && avc_converted(
                data,
                size,
            ) == Ok::<Seq<u8>, NalError>(annexb(held)),
{
    if valid_units(units, size) && units.len() > 0 {
        assert forall|i: int| 0 <= i < units.len() implies {
            &&& 0 < #[trigger] units[i].len() < prefix_limit(size)
            &&& header_fault(units[i], HeaderRule::Avc) is None
        } by {
            law_header_rules(units[i]);
        }
        law_annexb_of_stored_units(units, size, HeaderRule::Avc);
    }
    if 1 <= size <= 4 && avc_converted(data, size) is Ok {
        let held = units_of(data, frames_from(data, 0, size, HeaderRule::Avc));
        law_framed_data_is_stored_units(data, size, HeaderRule::Avc);
        assert forall|i: int| #![trigger held[i]] 0 <= i < held.len() implies {
            &&& 1 <= held[i].len() < prefix_limit(size)
            &&& held[i][0] < 128
            &&& held[i][0] % 32 != 0
        } by {
            law_header_rules(held[i]);
        }
        assert(valid_units(held, size));
    }
}

/// The Annex-B form of an H.264 access unit. Every truncated or empty NAL unit and every
/// invalid header is refused.
pub fn avcc_to_annexb(data: &[u8], length_size: usize) -> (res: Result<Vec<u8>, NalError>)
    ensures
        match res {
            Ok(out) => avc_converted(data@, length_size as nat) == Ok::<Seq<u8>, NalError>(out@),
            Err(e) => avc_converted(data@, length_size as nat) == Err::<Seq<u8>, NalError>(e),
        },
        match res {
            Ok(out) => annexb_of(data@, length_size as nat, HeaderRule::Avc) == Ok::<
                Seq<u8>,
                NalError,
            >(out@),
            Err(e) => annexb_of(data@, length_size as nat, HeaderRule::Avc) == Err::<
                Seq<u8>,
                NalError,
            >(e),
        },
{
    to_annexb(data, length_size, HeaderRule::Avc)
}

/// A slice of a picture that no other picture refers to.
pub open spec fn is_unreferenced_slice(data: Seq<u8>, frame: Frame) -> bool {
    data[frame.start as int] & 31 == 1 && data[frame.start as int] & 0x60 == 0
}

/// Supplemental information, an access unit delimiter or filler.
pub open spec fn is_side_unit(data: Seq<u8>, frame: Frame) -> bool {
    let unit_type = data[frame.start as int] & 31;
    unit_type == 6 || unit_type == 9 || unit_type == 12
}

/// An access unit is well formed and holds slices of an unreferenced picture, and beside
/// them nothing that another picture could depend on.
pub open spec fn disposable(data: Seq<u8>, length_size: nat) -> bool {
    let frames = frames_from(data, 0, length_size, HeaderRule::Avc);
    &&& 1 <= length_size <= 4
    &&& fault_from(data, 0, length_size, HeaderRule::Avc) is None
    &&& exists|i: int| 0 <= i < frames.len() && is_unreferenced_slice(data, #[trigger] frames[i])
    &&& forall|i: int|
        0 <= i < frames.len() ==> is_unreferenced_slice(data, #[trigger] frames[i])
            || is_side_unit(data, frames[i])
}

/// Leaving this access unit undecoded cannot change any other picture.
pub fn is_disposable(data: &[u8], length_size: usize) -> (res: bool)
    ensures
        res == disposable(data@, length_size as nat),
{
    if length_size < 1 || length_size > 4 {
        return false;
    }
    let framing = split_units(data, length_size, HeaderRule::Avc);
    if framing.fault.is_some() {
        return false;
    }
    let mut found: bool = false;
    let mut i: usize = 0;
    while i < framing.frames.len()
        invariant
            i <= framing.frames@.len(),
            framing.frames@ == frames_from(data@, 0, length_size as nat, HeaderRule::Avc),
            frames_inside(data@, framing.frames@, HeaderRule::Avc),
            forall|k: int|
                0 <= k < i ==> is_unreferenced_slice(data@, #[trigger] framing.frames@[k])
                    || is_side_unit(data@, framing.frames@[k]),
            found <==> exists|k: int|
                0 <= k < i && is_unreferenced_slice(data@, #[trigger] framing.frames@[k]),
        decreases framing.frames.len() - i,
    {
        let frame = framing.frames[i];
        let header: u8 = data[frame.start];
        let unit_type: u8 = header & 31;
        assert(header == data@[framing.frames@[i as int].start as int]);
        if unit_type == 1 && header & 0x60 == 0 {
            found = true;
        } else if unit_type != 6 && unit_type != 9 && unit_type != 12 {
            return false;
        }
        i += 1;
    }
    found
}

/// Only well-formed access units are ever left undecoded, so that what is wrong with a
/// malformed one is reported as if every unit were decoded.
pub proof fn law_skipped_unit_is_well_formed(data: Seq<u8>, length_size: nat)
    requires
        disposable(data, length_size),
    ensures
        annexb_of(data, length_size, HeaderRule::Avc) is Ok,
{
    let frames = frames_from(data, 0, length_size, HeaderRule::Avc);
    let i = choose|i: int|
        0 <= i < frames.len() && is_unreferenced_slice(data, #[trigger] frames[i]);
    assert(frames.len() > 0);
}

/// NAL units with valid H.264 headers, that a length of `size` bytes can store.
pub open spec fn valid_units(units: Seq<Seq<u8>>, size: nat) -> bool {
    &&& 1 <= size <= 4
    &&& length_prefixed(units, size).len() <= usize::MAX
    &&& forall|i: int|
        #![trigger units[i]]
        0 <= i < units.len() ==> {
            &&& 1 <= units[i].len() < prefix_limit(size)
            &&& units[i][0] < 128
            &&& units[i][0] % 32 != 0
        }
}

/// The first bytes of stored units stand where their frames say.
pub proof fn lemma_first_bytes(units: Seq<Seq<u8>>, size: nat)
    requires
        valid_units(units, size),
    ensures
        ({
            let data = length_prefixed(units, size);
            let frames = frames_from(data, 0, size, HeaderRule::Avc);
            &&& fault_from(data, 0, size, HeaderRule::Avc) is None
            &&& frames.len() == units.len()
            &&& forall|i: int|
                0 <= i < units.len() ==> {
                    let byte = data[(#[trigger] frames[i]).start as int];
                    &&& byte == units[i][0]
                    &&& byte & 31 == byte % 32
                    &&& (byte & 0x60 == 0 <==> byte % 128 < 32)
                }
        }),
{
    let data = length_prefixed(units, size);
    let frames = frames_from(data, 0, size, HeaderRule::Avc);
    assert forall|i: int| 0 <= i < units.len() implies {
        &&& 0 < #[trigger] units[i].len() < prefix_limit(size)
        &&& header_fault(units[i], HeaderRule::Avc) is None
    } by {
        law_header_rules(units[i]);
    }
    law_stored_units_are_found(units, size, HeaderRule::Avc);
    lemma_frames_inside(data, 0, size, HeaderRule::Avc);
    assert forall|i: int| 0 <= i < units.len() implies {
        let byte = data[(#[trigger] frames[i]).start as int];
        &&& byte == units[i][0]
        &&& byte & 31 == byte % 32
        &&& (byte & 0x60 == 0 <==> byte % 128 < 32)
    } by {
        assert(unit_bytes(data, frames[i]) == units[i]);
        assert(unit_bytes(data, frames[i])[0] == data[frames[i].start as int]);
        let b = units[i][0];
        assert(b & 31 == b % 32 && ((b & 0x60 == 0) == (b % 128 < 32))) by (bit_vector);
    }
}

/// An access unit can be left undecoded exactly where it holds a slice of type one with
/// reference number zero, and every other unit is such a slice, supplemental information, a
/// delimiter or filler. A slice that other pictures may refer to, an IDR slice and a parameter
/// set keep their access unit.
pub proof fn law_skipped_slices_are_unreferenced(units: Seq<Seq<u8>>, size: nat)
    requires
        valid_units(units, size),
    ensures
        disposable(length_prefixed(units, size), size) <==> {
            &&& exists|i: int| 0 <= i < units.len() && (#[trigger] units[i])[0] == 1
            &&& forall|i: int|
                0 <= i < units.len() ==> (#[trigger] units[i])[0] == 1 || units[i][0] % 32 == 6
                    || units[i][0] % 32 == 9 || units[i][0] % 32 == 12
        },
{
    let data = length_prefixed(units, size);
    let frames = frames_from(data, 0, size, HeaderRule::Avc);
    lemma_first_bytes(units, size);
    assert forall|i: int| 0 <= i < units.len() implies {
        &&& (is_unreferenced_slice(data, #[trigger] frames[i]) <==> units[i][0] == 1)
        &&& (is_side_unit(data, frames[i]) <==> units[i][0] % 32 == 6 || units[i][0] % 32 == 9
            || units[i][0] % 32 == 12)
    } by {
        assert(units[i][0] < 128);
    }
    if disposable(data, size) {
        let s = choose|i: int|
            0 <= i < frames.len() && is_unreferenced_slice(data, #[trigger] frames[i]);
        assert(units[s][0] == 1);
        assert forall|i: int| 0 <= i < units.len() implies (#[trigger] units[i])[0] == 1
            || units[i][0] % 32 == 6 || units[i][0] % 32 == 9 || units[i][0] % 32 == 12 by {
            assert(is_unreferenced_slice(data, frames[i]) || is_side_unit(data, frames[i]));
        }
    } else if exists|i: int| 0 <= i < units.len() && (#[trigger] units[i])[0] == 1 {
        let s = choose|i: int| 0 <= i < units.len() && (#[trigger] units[i])[0] == 1;
        assert(is_unreferenced_slice(data, frames[s]));
        let k = choose|i: int|
            0 <= i < frames.len() && !(is_unreferenced_slice(data, #[trigger] frames[i])
                || is_side_unit(data, frames[i]));
        assert(units[k].len() > 0);
    }
}

/// Whatever is left undecoded is a clean run of valid units.
pub proof fn law_only_clean_units_are_skipped(data: Seq<u8>, size: nat)
    requires
        data.len() <= usize::MAX,
        disposable(data, size),
    ensures
        exists|units: Seq<Seq<u8>>| #[trigger]
            valid_units(units, size) && data == length_prefixed(units, size),
{
    let units = units_of(data, frames_from(data, 0, size, HeaderRule::Avc));
    law_framed_data_is_stored_units(data, size, HeaderRule::Avc);
    assert forall|i: int| #![trigger units[i]] 0 <= i < units.len() implies {
        &&& 1 <= units[i].len() < prefix_limit(size)
        &&& units[i][0] < 128
        &&& units[i][0] % 32 != 0
    } by {
        law_header_rules(units[i]);
    }
    assert(valid_units(units, size));
}

/// The epochs of a clip are as many as its pictures or the sound beside them, whichever is
/// longer, need, and no more.
pub proof fn law_epochs_cover_the_clip(duration_ms: u64, audio_ms: u64, window_ms: u64, longer: int)
    requires
        window_ms > 0,
        longer >= duration_ms && longer >= audio_ms,
        longer == duration_ms || longer == audio_ms,
        longer <= usize::MAX,
    ensures
        longer <= epoch_count(duration_ms, audio_ms, window_ms) * window_ms,
        longer > 0 ==> (epoch_count(duration_ms, audio_ms, window_ms) - 1) * window_ms < longer,
        longer == 0 ==> epoch_count(duration_ms, audio_ms, window_ms) == 0,
{
    let w = window_ms as int;
    law_rounds_up(longer, w);
    let q = ceil_div(longer, w);
    assert(q <= usize::MAX) by (nonlinear_arith)
        requires
            (q - 1) * w < longer,
            w >= 1,
            longer <= usize::MAX,
            longer >= 0,
    ;
    if longer == 0 {
        assert(q == 0) by (nonlinear_arith)
            requires
                (q - 1) * w < 0,
                q >= 0,
                w >= 1,
        ;
    }
}

/// The times that are kept are those from zero on and before the end, and they keep their
/// order.
pub proof fn law_kept_times_are_presented(pts: Seq<i64>, more: i64, end: u64)
    ensures
        kept_times(Seq::empty(), end).len() == 0,
        kept_times(pts.push(more), end) == if 0 <= more && more < end {
            kept_times(pts, end).push(more)
        } else {
            kept_times(pts, end)
        },
{
    reveal(Seq::filter);
    assert(pts.push(more).drop_last() =~= pts);
}

/// The four names of colours.
pub proof fn law_color_names()
    ensures
        color_text(Color { bt709: true, full: true }) == "BT.709 full"@,
        color_text(Color { bt709: true, full: false }) == "BT.709 limited"@,
        color_text(Color { bt709: false, full: true }) == "BT.601 full"@,
        color_text(Color { bt709: false, full: false }) == "BT.601 limited"@,
{
    reveal_strlit("BT.709");
    reveal_strlit("BT.601");
    reveal_strlit(" ");
    reveal_strlit("full");
    reveal_strlit("limited");
    reveal_strlit("BT.709 full");
    reveal_strlit("BT.709 limited");
    reveal_strlit("BT.601 full");
    reveal_strlit("BT.601 limited");
    assert(color_text(Color { bt709: true, full: true }) =~= "BT.709 full"@);
    assert(color_text(Color { bt709: true, full: false }) =~= "BT.709 limited"@);
    assert(color_text(Color { bt709: false, full: true }) =~= "BT.601 full"@);
    assert(color_text(Color { bt709: false, full: false }) =~= "BT.601 limited"@);
}

/// What a request is judged to be by its window.
pub open spec fn window_checked(config: VideoConfig) -> Result<(), EmptyWindow> {
    if config.window_ms == 0 {
        Err(EmptyWindow)
    } else {
        Ok(())
    }
}

/// Epochs have to have a length.
pub proof fn law_windows_have_a_length(config: VideoConfig)
    ensures
        window_checked(config) is Ok <==> config.window_ms > 0,
{
}

} // verus!
