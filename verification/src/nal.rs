//! Length-prefixed NAL unit framing, as MP4 samples store it, and its Annex-B form.
use vstd::prelude::*;

verus! {

/// Why an access unit is not a clean run of length-prefixed NAL units.
#[derive(Clone, Copy, Debug, PartialEq, Eq, Structural)]
pub enum NalError {
    /// The access unit holds no byte at all.
    EmptySample,
    /// Fewer bytes are left than a length prefix takes.
    TruncatedLength,
    /// A length prefix is zero or runs past the end of the access unit.
    BadPayload,
    /// A NAL unit is shorter than its header.
    TruncatedHeader,
    /// A NAL unit header holds a value that is not allowed.
    BadHeader,
}

/// How the first bytes of a NAL unit are judged.
#[derive(Clone, Copy, Debug, PartialEq, Eq, Structural)]
pub enum HeaderRule {
    /// One byte: forbidden bit clear, unit type not zero.
    Avc,
    /// Two bytes: forbidden bit clear, layer zero, temporal id present.
    HevcBaseLayer,
    /// Two bytes: forbidden bit clear, temporal id present, any layer.
    HevcAnyLayer,
}

/// The place of one NAL unit in an access unit.
#[derive(Clone, Copy, Debug, PartialEq, Eq, Structural)]
pub struct Frame {
    pub start: usize,
    pub len: usize,
}

/// An access unit split at its length prefixes: the units before the first malformed
/// one, and what is wrong with that one.
pub struct Framing {
    pub frames: Vec<Frame>,
    pub fault: Option<NalError>,
}

/// The big-endian number in a length prefix, kept in one machine word: bits beyond
/// the word are shifted out.
pub open spec fn prefix_value(prefix: Seq<u8>) -> nat
    decreases prefix.len(),
{
    if prefix.len() == 0 {
        0
    } else {
        (prefix_value(prefix.drop_last()) * 256 + prefix.last() as nat) % (usize::MAX as nat + 1)
    }
}

/// What `rule` finds wrong with the header of a NAL unit.
pub open spec fn header_fault(unit: Seq<u8>, rule: HeaderRule) -> Option<NalError> {
    match rule {
        HeaderRule::Avc => if unit[0] & 0x80 == 0 && unit[0] & 0x1f != 0 {
            None
        } else {
            Some(NalError::BadHeader)
        },
        HeaderRule::HevcBaseLayer => if unit.len() < 2 {
            Some(NalError::TruncatedHeader)
        } else if unit[0] & 0x80 == 0 && unit[0] & 1 == 0 && unit[1] >> 3 == 0 && unit[1] & 7 != 0 {
            None
        } else {
            Some(NalError::BadHeader)
        },
        HeaderRule::HevcAnyLayer => if unit.len() < 2 {
            Some(NalError::TruncatedHeader)
        } else if unit[0] & 0x80 == 0 && unit[1] & 7 != 0 {
            None
        } else {
            Some(NalError::BadHeader)
        },
    }
}

/// The NAL unit whose length prefix stands at `pos`.
pub open spec fn frame_at(data: Seq<u8>, pos: int, size: nat, rule: HeaderRule) -> Result<
    Frame,
    NalError,
> {
    if data.len() - pos < size {
        Err(NalError::TruncatedLength)
    } else {
        let n = prefix_value(data.subrange(pos, pos + size));
        let start = pos + size;
        if n == 0 || n > data.len() - start {
            Err(NalError::BadPayload)
        } else {
            match header_fault(data.subrange(start, start + n), rule) {
                Some(fault) => Err(fault),
                None => Ok(Frame { start: start as usize, len: n as usize }),
            }
        }
    }
}

/// The NAL units from `pos` on, up to the first malformed one.
pub open spec fn frames_from(data: Seq<u8>, pos: int, size: nat, rule: HeaderRule) -> Seq<Frame>
    decreases data.len() - pos,
{
    if pos < 0 || pos >= data.len() || data.len() > usize::MAX {
        Seq::empty()
    } else {
        match frame_at(data, pos, size, rule) {
            Err(_) => Seq::empty(),
            Ok(frame) => seq![frame] + frames_from(data, frame.start + frame.len, size, rule),
        }
    }
}

/// What is wrong with the first malformed NAL unit from `pos` on, if any is.
pub open spec fn fault_from(data: Seq<u8>, pos: int, size: nat, rule: HeaderRule) -> Option<
    NalError,
>
    decreases data.len() - pos,
{
    if pos < 0 || pos >= data.len() || data.len() > usize::MAX {
        None
    } else {
        match frame_at(data, pos, size, rule) {
            Err(fault) => Some(fault),
            Ok(frame) => fault_from(data, frame.start + frame.len, size, rule),
        }
    }
}

/// The bytes of a NAL unit.
pub open spec fn unit_bytes(data: Seq<u8>, frame: Frame) -> Seq<u8> {
    data.subrange(frame.start as int, frame.start + frame.len)
}

/// The start code that precedes every NAL unit in an Annex-B stream.
pub open spec fn start_code() -> Seq<u8> {
    seq![0u8, 0u8, 0u8, 1u8]
}

/// The Annex-B stream of a run of NAL units.
pub open spec fn annexb(units: Seq<Seq<u8>>) -> Seq<u8>
    decreases units.len(),
{
    if units.len() == 0 {
        Seq::empty()
    } else {
        annexb(units.drop_last()) + start_code() + units.last()
    }
}

/// A stream grows by a start code and the unit's bytes.
pub proof fn lemma_annexb_push(units: Seq<Seq<u8>>, unit: Seq<u8>)
    ensures
        annexb(units.push(unit)) == annexb(units) + start_code() + unit,
{
    assert(units.push(unit).drop_last() =~= units);
}

/// The NAL units that `frames` places in `data`.
pub open spec fn units_of(data: Seq<u8>, frames: Seq<Frame>) -> Seq<Seq<u8>> {
    Seq::new(frames.len(), |i: int| unit_bytes(data, frames[i]))
}

/// What a strict conversion of a length-prefixed access unit to Annex-B gives.
pub open spec fn annexb_of(data: Seq<u8>, size: nat, rule: HeaderRule) -> Result<Seq<u8>, NalError> {
    if data.len() == 0 {
        Err(NalError::EmptySample)
    } else {
        match fault_from(data, 0, size, rule) {
            Some(fault) => Err(fault),
            None => Ok(annexb(units_of(data, frames_from(data, 0, size, rule)))),
        }
    }
}

/// Every frame lies inside the access unit, holds at least a byte and passed `rule`.
pub open spec fn frames_inside(data: Seq<u8>, frames: Seq<Frame>, rule: HeaderRule) -> bool {
    forall|i: int|
        #![trigger frames[i]]
        0 <= i < frames.len() ==> {
            &&& 0 < frames[i].len
            &&& frames[i].start + frames[i].len <= data.len()
            &&& header_fault(unit_bytes(data, frames[i]), rule) is None
        }
}

pub proof fn lemma_frames_inside(data: Seq<u8>, pos: int, size: nat, rule: HeaderRule)
    ensures
        frames_inside(data, frames_from(data, pos, size, rule), rule),
    decreases data.len() - pos,
{
    if pos < 0 || pos >= data.len() || data.len() > usize::MAX {
    } else {
        match frame_at(data, pos, size, rule) {
            Err(_) => {},
            Ok(frame) => {
                lemma_frames_inside(data, frame.start + frame.len, size, rule);
            },
        }
    }
}

/// Reads the length prefix of `size` bytes at `start`.
fn read_prefix(data: &[u8], start: usize, size: usize) -> (value: usize)
    requires
        start + size <= data@.len(),
    ensures
        value as nat == prefix_value(data@.subrange(start as int, start + size)),
{
    let total: usize = data.len();
    let mut value: usize = 0;
    let mut i: usize = 0;
    while i < size
        invariant
            start + size <= data@.len() == total,
            i <= size,
            value as nat == prefix_value(data@.subrange(start as int, start + i)),
        decreases size - i,
    {
        let byte: u8 = data[start + i];
        proof {
            let next = data@.subrange(start as int, start + i + 1);
            assert(next.drop_last() =~= data@.subrange(start as int, start + i));
            vstd::arithmetic::div_mod::lemma_add_mod_noop(
                value * 256,
                byte as int,
                usize::MAX as int + 1,
            );
            vstd::arithmetic::div_mod::lemma_small_mod(byte as nat, (usize::MAX as int + 1) as nat);
        }
        value = value.wrapping_mul(256).wrapping_add(byte as usize);
        i += 1;
    }
    value
}

/// Judges the header of the NAL unit of `len` bytes at `start`.
fn check_header(data: &[u8], start: usize, len: usize, rule: HeaderRule) -> (fault: Option<
    NalError,
>)
    requires
        0 < len,
        start + len <= data@.len(),
    ensures
        fault == header_fault(data@.subrange(start as int, start + len), rule),
{
    let first: u8 = data[start];
    match rule {
        HeaderRule::Avc => if first & 0x80 == 0 && first & 0x1f != 0 {
            None
        } else {
            Some(NalError::BadHeader)
        },
        HeaderRule::HevcBaseLayer => {
            if len < 2 {
                return Some(NalError::TruncatedHeader);
            }
            let second: u8 = data[start + 1];
            if first & 0x80 == 0 && first & 1 == 0 && second >> 3 == 0 && second & 7 != 0 {
                None
            } else {
                Some(NalError::BadHeader)
            }
        },
        HeaderRule::HevcAnyLayer => {
            if len < 2 {
                return Some(NalError::TruncatedHeader);
            }
            let second: u8 = data[start + 1];
            if first & 0x80 == 0 && second & 7 != 0 {
                None
            } else {
                Some(NalError::BadHeader)
            }
        },
    }
}

/// Splits an access unit at its length prefixes, stopping at the first malformed unit.
pub fn split_units(data: &[u8], size: usize, rule: HeaderRule) -> (framing: Framing)
    ensures
        framing.frames@ == frames_from(data@, 0, size as nat, rule),
        framing.fault == fault_from(data@, 0, size as nat, rule),
        frames_inside(data@, framing.frames@, rule),
{
    let total: usize = data.len();
    let mut frames: Vec<Frame> = Vec::new();
    let mut pos: usize = 0;
    proof {
        lemma_frames_inside(data@, 0, size as nat, rule);
    }
    while pos < total
        invariant
            pos <= total == data@.len(),
            frames_from(data@, 0, size as nat, rule) == frames@ + frames_from(
                data@,
                pos as int,
                size as nat,
                rule,
            ),
            fault_from(data@, 0, size as nat, rule) == fault_from(
                data@,
                pos as int,
                size as nat,
                rule,
            ),
            frames_inside(data@, frames_from(data@, 0, size as nat, rule), rule),
        decreases total - pos,
    {
        let ghost here = frame_at(data@, pos as int, size as nat, rule);
        if total - pos < size {
            assert(here == Err::<Frame, NalError>(NalError::TruncatedLength));
            assert(frames@ + Seq::<Frame>::empty() =~= frames@);
            return Framing { frames, fault: Some(NalError::TruncatedLength) };
        }
        let n: usize = read_prefix(data, pos, size);
        let start: usize = pos + size;
        if n == 0 || n > total - start {
            assert(here == Err::<Frame, NalError>(NalError::BadPayload));
            assert(frames@ + Seq::<Frame>::empty() =~= frames@);
            return Framing { frames, fault: Some(NalError::BadPayload) };
        }
        if let Some(fault) = check_header(data, start, n, rule) {
            assert(here == Err::<Frame, NalError>(fault));
            assert(frames@ + Seq::<Frame>::empty() =~= frames@);
            return Framing { frames, fault: Some(fault) };
        }
        let frame = Frame { start, len: n };
        assert(here == Ok::<Frame, NalError>(frame));
        let ghost before = frames@;
        frames.push(frame);
        pos = start + n;
        assert(frames@ + frames_from(data@, pos as int, size as nat, rule) =~= before + (seq![frame]
            + frames_from(data@, pos as int, size as nat, rule)));
    }
    assert(frames@ + Seq::<Frame>::empty() =~= frames@);
    Framing { frames, fault: None }
}

/// Appends a start code and the `len` bytes of `data` from `start` on.
pub fn push_unit(out: &mut Vec<u8>, data: &[u8], start: usize, len: usize)
    requires
        start + len <= data@.len(),
    ensures
        final(out)@ == old(out)@ + start_code() + data@.subrange(start as int, start + len),
{
    let total: usize = data.len();
    let ghost before = out@;
    out.push(0);
    out.push(0);
    out.push(0);
    out.push(1);
    let mut i: usize = 0;
    while i < len
        invariant
            i <= len,
            start + len <= data@.len() == total,
            out@ =~= before + start_code() + data@.subrange(start as int, start + i),
        decreases len - i,
    {
        out.push(data[start + i]);
        i += 1;
    }
}

/// Converts a length-prefixed access unit to Annex-B, refusing every malformed unit.
pub fn to_annexb(data: &[u8], size: usize, rule: HeaderRule) -> (res: Result<Vec<u8>, NalError>)
    ensures
        match res {
            Ok(out) => annexb_of(data@, size as nat, rule) == Ok::<Seq<u8>, NalError>(out@),
            Err(e) => annexb_of(data@, size as nat, rule) == Err::<Seq<u8>, NalError>(e),
        },
{
    if data.len() == 0 {
        return Err(NalError::EmptySample);
    }
    let framing = split_units(data, size, rule);
    if let Some(fault) = framing.fault {
        return Err(fault);
    }
    let mut out: Vec<u8> = Vec::new();
    let mut i: usize = 0;
    while i < framing.frames.len()
        invariant
            i <= framing.frames@.len(),
            frames_inside(data@, framing.frames@, rule),
            out@ == annexb(units_of(data@, framing.frames@.take(i as int))),
        decreases framing.frames.len() - i,
    {
        let frame = framing.frames[i];
        push_unit(&mut out, data, frame.start, frame.len);
        proof {
            let now = units_of(data@, framing.frames@.take(i as int + 1));
            assert(now.drop_last() =~= units_of(data@, framing.frames@.take(i as int)));
            assert(now.last() == unit_bytes(data@, frame));
        }
        i += 1;
    }
    assert(framing.frames@.take(i as int) =~= framing.frames@);
    Ok(out)
}

/// A length prefix of `size` bytes, big-endian.
pub open spec fn prefix_bytes(n: nat, size: nat) -> Seq<u8>
    decreases size,
{
    if size == 0 {
        Seq::empty()
    } else {
        prefix_bytes(n / 256, (size - 1) as nat).push((n % 256) as u8)
    }
}

/// How many NAL unit lengths a prefix of `size` bytes can tell apart.
pub open spec fn prefix_limit(size: nat) -> nat
    decreases size,
{
    if size == 0 {
        1
    } else {
        prefix_limit((size - 1) as nat) * 256
    }
}

/// The access unit that stores `units` with length prefixes of `size` bytes.
pub open spec fn length_prefixed(units: Seq<Seq<u8>>, size: nat) -> Seq<u8>
    decreases units.len(),
{
    if units.len() == 0 {
        Seq::empty()
    } else {
        prefix_bytes(units[0].len(), size) + units[0] + length_prefixed(units.drop_first(), size)
    }
}

/// NAL units that a prefix of `size` bytes can store and that `rule` accepts.
pub open spec fn storable(units: Seq<Seq<u8>>, size: nat, rule: HeaderRule) -> bool {
    forall|i: int|
        #![trigger units[i]]
        0 <= i < units.len() ==> {
            &&& 0 < units[i].len() < prefix_limit(size)
            &&& header_fault(units[i], rule) is None
        }
}

proof fn lemma_prefix_bytes(n: nat, size: nat)
    requires
        n < prefix_limit(size),
        n <= usize::MAX,
    ensures
        prefix_bytes(n, size).len() == size,
        prefix_value(prefix_bytes(n, size)) == n,
    decreases size,
{
    if size > 0 {
        lemma_prefix_bytes(n / 256, (size - 1) as nat);
        assert(prefix_bytes(n, size).drop_last() =~= prefix_bytes(n / 256, (size - 1) as nat));
        vstd::arithmetic::div_mod::lemma_small_mod(n, (usize::MAX as int + 1) as nat);
    }
}

proof fn lemma_framing_from(
    done: Seq<u8>,
    units: Seq<Seq<u8>>,
    tail: Seq<u8>,
    size: nat,
    rule: HeaderRule,
)
    requires
        storable(units, size, rule),
        (done + length_prefixed(units, size) + tail).len() <= usize::MAX,
    ensures
        ({
            let data = done + length_prefixed(units, size) + tail;
            let pos = done.len() as int;
            let end = (done.len() + length_prefixed(units, size).len()) as int;
            let rest = frames_from(data, end, size, rule);
            let frames = frames_from(data, pos, size, rule);
            &&& fault_from(data, pos, size, rule) == fault_from(data, end, size, rule)
            &&& frames.len() == units.len() + rest.len()
            &&& forall|i: int|
                0 <= i < units.len() ==> unit_bytes(data, #[trigger] frames[i]) == units[i]
        }),
    decreases units.len(),
{
    let data = done + length_prefixed(units, size) + tail;
    let pos = done.len() as int;
    let end = (done.len() + length_prefixed(units, size).len()) as int;
    if units.len() > 0 {
        let unit = units[0];
        let rest = units.drop_first();
        assert(storable(rest, size, rule)) by {
            assert forall|i: int| 0 <= i < rest.len() implies {
                &&& 0 < #[trigger] rest[i].len() < prefix_limit(size)
                &&& header_fault(rest[i], rule) is None
            } by {
                assert(rest[i] == units[i + 1]);
            }
        }
        let next = done + prefix_bytes(unit.len(), size) + unit;
        assert(data =~= next + length_prefixed(rest, size) + tail);
        lemma_prefix_bytes(unit.len(), size);
        assert(data.subrange(pos, pos + size) =~= prefix_bytes(unit.len(), size));
        let start = pos + size;
        assert(data.subrange(start, start + unit.len()) =~= unit);
        let frame = Frame { start: start as usize, len: unit.len() as usize };
        assert(frame_at(data, pos, size, rule) == Ok::<Frame, NalError>(frame));
        assert(unit_bytes(data, frame) =~= unit);
        lemma_framing_from(next, rest, tail, size, rule);
        let later = frames_from(data, next.len() as int, size, rule);
        let frames = frames_from(data, pos, size, rule);
        assert(frames =~= seq![frame] + later);
        assert forall|i: int| 0 <= i < units.len() implies unit_bytes(data, #[trigger] frames[i])
            == units[i] by {
            if i > 0 {
                assert(frames[i] == later[i - 1]);
                assert(units[i] == rest[i - 1]);
            }
        }
    }
}

/// The NAL units that were stored with length prefixes are found again, each in its place and
/// with nothing wrong.
pub proof fn law_stored_units_are_found(units: Seq<Seq<u8>>, size: nat, rule: HeaderRule)
    requires
        storable(units, size, rule),
        length_prefixed(units, size).len() <= usize::MAX,
    ensures
        ({
            let data = length_prefixed(units, size);
            let frames = frames_from(data, 0, size, rule);
            &&& fault_from(data, 0, size, rule) is None
            &&& frames.len() == units.len()
            &&& forall|i: int|
                0 <= i < units.len() ==> unit_bytes(data, #[trigger] frames[i]) == units[i]
            &&& units_of(data, frames) == units
        }),
{
    let data = length_prefixed(units, size);
    assert(Seq::<u8>::empty() + data + Seq::<u8>::empty() =~= data);
    lemma_framing_from(Seq::empty(), units, Seq::empty(), size, rule);
    assert(units_of(data, frames_from(data, 0, size, rule)) =~= units);
}

/// Storing NAL units with length prefixes and converting the access unit back gives
/// the Annex-B stream of exactly those units.
pub proof fn law_annexb_of_stored_units(units: Seq<Seq<u8>>, size: nat, rule: HeaderRule)
    requires
        units.len() > 0,
        storable(units, size, rule),
        length_prefixed(units, size).len() <= usize::MAX,
    ensures
        annexb_of(length_prefixed(units, size), size, rule) == Ok::<Seq<u8>, NalError>(
            annexb(units),
        ),
{
    assert(units[0].len() > 0);
    law_stored_units_are_found(units, size, rule);
}

/// An Annex-B stream is its units one after the other, each behind three zeros and a one.
pub proof fn law_annexb_layout(units: Seq<Seq<u8>>, unit: Seq<u8>)
    ensures
        annexb(Seq::<Seq<u8>>::empty()).len() == 0,
        annexb(units.push(unit)) == annexb(units) + seq![0u8, 0u8, 0u8, 1u8] + unit,
{
    lemma_annexb_push(units, unit);
}

/// A NAL unit header is accepted where its highest bit is clear and, of an H.264 unit, the
/// five low bits of the first byte are not all zero; of an H.265 unit, both bytes are there,
/// the three low bits of the second are not all zero and, where only the base layer is
/// wanted, the bits between them are.
pub proof fn law_header_rules(unit: Seq<u8>)
    requires
        unit.len() > 0,
    ensures
        header_fault(unit, HeaderRule::Avc) is None <==> unit[0] < 128 && unit[0] % 32 != 0,
        header_fault(unit, HeaderRule::Avc) is None || header_fault(unit, HeaderRule::Avc) == Some(
            NalError::BadHeader,
        ),
        header_fault(unit, HeaderRule::HevcAnyLayer) is None <==> unit.len() >= 2 && unit[0] < 128
            && unit[1] % 8 != 0,
        header_fault(unit, HeaderRule::HevcBaseLayer) is None <==> unit.len() >= 2 && unit[0] < 128
            && unit[0] % 2 == 0 && 1 <= unit[1] && unit[1] <= 7,
        header_fault(unit, HeaderRule::HevcAnyLayer) == Some(NalError::TruncatedHeader)
            <==> unit.len() == 1,
        header_fault(unit, HeaderRule::HevcBaseLayer) == Some(NalError::TruncatedHeader)
            <==> unit.len() == 1,
        header_fault(unit, HeaderRule::HevcAnyLayer) matches Some(fault) ==> fault
            == NalError::TruncatedHeader || fault == NalError::BadHeader,
        header_fault(unit, HeaderRule::HevcBaseLayer) matches Some(fault) ==> fault
            == NalError::TruncatedHeader || fault == NalError::BadHeader,
{
    let a = unit[0];
    assert((a & 0x80 == 0) == (a < 128) && a & 0x1f == a % 32 && a & 1 == a % 2) by (bit_vector);
    if unit.len() >= 2 {
        let b = unit[1];
        assert((b >> 3 == 0) == (b < 8) && b & 7 == b % 8) by (bit_vector);
    }
}

/// Behind well-formed units, the first malformed one is what is wrong with an access unit: too
/// few bytes for a length, a length of zero or past the end, or what its header is refused
/// for. An access unit without any byte is empty.
pub proof fn law_first_malformed_unit_is_named(
    units: Seq<Seq<u8>>,
    tail: Seq<u8>,
    n: nat,
    body: Seq<u8>,
    size: nat,
    rule: HeaderRule,
)
    requires
        storable(units, size, rule),
        tail.len() > 0,
        (length_prefixed(units, size) + tail).len() <= usize::MAX,
        n < prefix_limit(size),
        n <= usize::MAX,
    ensures
        annexb_of(Seq::empty(), size, rule) == Err::<Seq<u8>, NalError>(NalError::EmptySample),
        ({
            let data = length_prefixed(units, size) + tail;
            &&& tail.len() < size ==> annexb_of(data, size, rule) == Err::<Seq<u8>, NalError>(
                NalError::TruncatedLength,
            )
            &&& tail == prefix_bytes(n, size) + body && (n == 0 || n > body.len()) ==> annexb_of(
                data,
                size,
                rule,
            ) == Err::<Seq<u8>, NalError>(NalError::BadPayload)
            &&& tail == prefix_bytes(n, size) + body && 0 < n <= body.len() ==> (header_fault(
                body.take(n as int),
                rule,
            ) matches Some(fault) ==> annexb_of(data, size, rule) == Err::<Seq<u8>, NalError>(
                fault,
            ))
        }),
{
    let data = length_prefixed(units, size) + tail;
    let end = length_prefixed(units, size).len() as int;
    assert(Seq::<u8>::empty() + length_prefixed(units, size) + tail =~= data);
    lemma_framing_from(Seq::empty(), units, tail, size, rule);
    assert(fault_from(data, 0, size, rule) == fault_from(data, end, size, rule));
    if tail == prefix_bytes(n, size) + body {
        lemma_prefix_bytes(n, size);
        assert(data.subrange(end, end + size) =~= prefix_bytes(n, size));
        if 0 < n <= body.len() {
            assert(data.subrange(end + size, end + size + n) =~= body.take(n as int));
        }
    }
}

proof fn lemma_prefix_of(prefix: Seq<u8>)
    requires
        prefix.len() <= 4,
    ensures
        prefix_bytes(prefix_value(prefix), prefix.len()) == prefix,
        prefix_value(prefix) < prefix_limit(prefix.len()),
        prefix_limit(prefix.len()) <= 0x1_0000_0000,
        prefix_limit(prefix.len()) * 256 <= 0x1_0000_0000 || prefix.len() == 4,
    decreases prefix.len(),
{
    reveal_with_fuel(prefix_limit, 5);
    if prefix.len() == 0 {
        assert(prefix_bytes(0, 0) =~= prefix);
    } else {
        let high = prefix_value(prefix.drop_last());
        let low = prefix.last() as nat;
        lemma_prefix_of(prefix.drop_last());
        vstd::arithmetic::div_mod::lemma_small_mod(
            high * 256 + low,
            (usize::MAX as int + 1) as nat,
        );
        assert((high * 256 + low) / 256 == high && (high * 256 + low) % 256 == low);
        assert(prefix_bytes(high * 256 + low, prefix.len()) =~= prefix);
    }
}

proof fn lemma_framed(data: Seq<u8>, pos: int, size: nat, rule: HeaderRule)
    requires
        0 <= pos <= data.len() <= usize::MAX,
        1 <= size <= 4,
        fault_from(data, pos, size, rule) is None,
    ensures
        ({
            let units = units_of(data, frames_from(data, pos, size, rule));
            &&& length_prefixed(units, size) == data.skip(pos)
            &&& storable(units, size, rule)
        }),
    decreases data.len() - pos,
{
    let units = units_of(data, frames_from(data, pos, size, rule));
    if pos < data.len() {
        let frame = frame_at(data, pos, size, rule)->Ok_0;
        let prefix = data.subrange(pos, pos + size);
        let next = frame.start + frame.len;
        lemma_prefix_of(prefix);
        lemma_framed(data, next, size, rule);
        let later = frames_from(data, next, size, rule);
        let rest = units_of(data, later);
        let unit = unit_bytes(data, frame);
        assert(units =~= seq![unit] + rest);
        assert(units.drop_first() =~= rest);
        assert(units[0] == unit);
        assert(prefix_bytes(unit.len(), size) == prefix);
        assert(length_prefixed(units, size) =~= prefix + unit + data.skip(next));
        assert(data.skip(pos) =~= prefix + unit + data.skip(next));
        assert forall|i: int| 0 <= i < units.len() implies {
            &&& 0 < #[trigger] units[i].len() < prefix_limit(size)
            &&& header_fault(units[i], rule) is None
        } by {
            if i > 0 {
                assert(units[i] == rest[i - 1]);
            }
        }
    } else {
        assert(units =~= Seq::<Seq<u8>>::empty());
        assert(length_prefixed(units, size) =~= data.skip(pos));
    }
}

/// An access unit that nothing is wrong with is nothing but its units, each behind its length:
/// no byte is left over, and none is read twice.
pub proof fn law_framed_data_is_stored_units(data: Seq<u8>, size: nat, rule: HeaderRule)
    requires
        1 <= size <= 4,
        data.len() <= usize::MAX,
        fault_from(data, 0, size, rule) is None,
    ensures
        ({
            let units = units_of(data, frames_from(data, 0, size, rule));
            &&& length_prefixed(units, size) == data
            &&& storable(units, size, rule)
        }),
{
    lemma_framed(data, 0, size, rule);
    assert(data.skip(0) =~= data);
}

} // verus!
