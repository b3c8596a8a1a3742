//! The decoding of one part of a clip, as a sequence of decisions: an H.264 chunk, a range of
//! H.265 access units, and the order in which their pictures are handed over.
use vstd::multiset::Multiset;
use vstd::prelude::*;
use crate::avc_config::{prepare_unit, unit_announced, AvccSets, UnitError};
use crate::nal::{annexb_of, HeaderRule, NalError};
use crate::order::{increasing, lemma_sorted, sorted};
use crate::playback::{
    goes_in_turn, in_presentation_order, lemma_first_due, lemma_first_of, lemma_first_to_come,
    lemma_goes_in_turn, lemma_nothing_to_come, lemma_to_come, not_overtaken, pending, put_out,
    spares_selected, to_come, unit_times, DecodeEvent,
};
use crate::presentation::MAX_REORDER;
use crate::queue::{least, lemma_has_least, TimeQueue};
use crate::text::{out_of_turn, out_of_turn_text};
use crate::video::{disposable, in_span, is_disposable, is_in_span, kept_times};
use crate::video_hevc::hvcc_to_annexb;
use crate::video_parallel::{
    called_in_turn, contiguous, epoch_calls, epochs_served, is_selected, names, selections_ascend,
    Selection,
};

verus! {

/// Why decoding a chunk fails.
#[derive(Clone, Copy, Debug, PartialEq, Eq, Structural)]
pub enum ChunkError {
    /// H.264 reorder queue exceeds 34 pictures.
    QueueFull,
    /// Decoder produced extra picture.
    ExtraPicture,
    /// Midstream H.264 resolution changes unsupported.
    ResolutionChanged,
    /// Decoded PTS disagrees with bounded presentation lookahead.
    TimeMismatch,
    /// H.264 picture count mismatch.
    CountMismatch { produced: usize, expected: usize },
    /// Incomplete H.264 presentation sequence.
    Incomplete,
}

/// Why an access unit of a chunk is not taken in.
#[derive(Clone, Copy, Debug, PartialEq, Eq, Structural)]
pub enum ChunkFault {
    /// The session refuses it.
    Chunk(ChunkError),
    /// The decoder must not have it.
    Unit(UnitError),
}

/// An access unit is left undecoded: nothing refers to it and the chunk serves no epoch with
/// it.
pub open spec fn unit_skipped(
    v: ChunkView,
    skip_nonref: bool,
    pts: i64,
    data: Seq<u8>,
    length_size: nat,
) -> bool {
    skip_nonref && disposable(data, length_size) && !names(
        v.wanted,
        0,
        v.wanted.len() as int,
        pts,
    )
}

/// What a chunk's session holds.
pub struct ChunkView {
    pub width: usize,
    pub height: usize,
    /// How many access units the chunk has.
    pub samples: usize,
    /// Only pictures before this time are presented.
    pub end: u64,
    /// The times that the chunk has to produce, in presentation order.
    pub expected: Seq<i64>,
    /// The selections that the chunk serves.
    pub wanted: Seq<Selection>,
    /// Times of the access units whose pictures did not come out yet.
    pub queue: Multiset<i64>,
    /// Times of presented pictures that were skipped and not passed yet.
    pub skipped: Multiset<i64>,
    pub next_expected: int,
    pub next_wanted: int,
    pub sent: int,
    pub produced: int,
    pub skipped_count: int,
}

/// The next expected picture was skipped, and presents before `limit` where there is one.
pub open spec fn can_pass(v: ChunkView, limit: Option<i64>) -> bool {
    &&& 0 <= v.next_expected < v.expected.len()
    &&& limit matches Some(p) ==> v.expected[v.next_expected] < p
    &&& v.skipped.count(v.expected[v.next_expected]) > 0
}

/// The chunk moves on past the pictures that were skipped.
pub open spec fn passed(v: ChunkView, limit: Option<i64>) -> ChunkView
    decreases v.expected.len() - v.next_expected,
{
    if can_pass(v, limit) {
        passed(
            ChunkView {
                skipped: v.skipped.remove(v.expected[v.next_expected]),
                next_expected: v.next_expected + 1,
                ..v
            },
            limit,
        )
    } else {
        v
    }
}

/// An access unit at `pts` goes to the decoder.
pub open spec fn submitted(v: ChunkView, pts: i64) -> ChunkView {
    ChunkView { queue: v.queue.insert(pts), sent: v.sent + 1, ..v }
}

/// An access unit at `pts` is left undecoded.
pub open spec fn left_out(v: ChunkView, pts: i64) -> ChunkView {
    ChunkView {
        skipped: if in_span(pts, v.end) {
            v.skipped.insert(pts)
        } else {
            v.skipped
        },
        sent: v.sent + 1,
        skipped_count: v.skipped_count + 1,
        ..v
    }
}

/// A picture came out of the decoder; the selection that it serves, if any.
pub open spec fn shown(v: ChunkView, width: usize, height: usize) -> (
    ChunkView,
    Result<Option<Selection>, ChunkError>,
) {
    if v.queue.len() == 0 {
        (v, Err(ChunkError::ExtraPicture))
    } else {
        let pts = least(v.queue);
        let counted = ChunkView { queue: v.queue.remove(pts), produced: v.produced + 1, ..v };
        if width != v.width || height != v.height {
            (counted, Err(ChunkError::ResolutionChanged))
        } else if !in_span(pts, v.end) {
            (counted, Ok(None))
        } else {
            let here = passed(counted, Some(pts));
            if !(here.next_expected < here.expected.len() && here.expected[here.next_expected]
                == pts) {
                (here, Err(ChunkError::TimeMismatch))
            } else {
                let after = ChunkView { next_expected: here.next_expected + 1, ..here };
                if here.next_wanted < here.wanted.len() && here.wanted[here.next_wanted].pts
                    == pts {
                    (
                        ChunkView { next_wanted: here.next_wanted + 1, ..after },
                        Ok(Some(here.wanted[here.next_wanted])),
                    )
                } else {
                    (after, Ok(None))
                }
            }
        }
    }
}

/// How decoding the chunk ended: how many pictures were resized, and how many access units
/// were skipped.
pub open spec fn finished(v: ChunkView) -> Result<(int, int), ChunkError> {
    let here = passed(v, None);
    if here.produced + here.skipped_count != here.samples || here.skipped.len() > 0 {
        Err(
            ChunkError::CountMismatch {
                produced: here.produced as usize,
                expected: (here.samples - here.skipped_count) as usize,
            },
        )
    } else if here.next_expected != here.expected.len() || here.next_wanted != here.wanted.len() {
        Err(ChunkError::Incomplete)
    } else {
        Ok((here.next_wanted, here.skipped_count))
    }
}

/// The counters agree with each other.
pub open spec fn counts_agree(v: ChunkView) -> bool {
    &&& v.produced + v.queue.len() + v.skipped_count == v.sent <= v.samples
    &&& 0 <= v.produced
    &&& 0 <= v.skipped_count
    &&& 0 <= v.next_expected <= v.expected.len()
    &&& 0 <= v.next_wanted <= v.wanted.len()
}

/// What is fixed for one chunk.
#[derive(Clone, Copy, Debug, PartialEq, Eq, Structural)]
pub struct ChunkFrame {
    pub width: usize,
    pub height: usize,
    pub samples: usize,
    pub end: u64,
}

/// One decoder decoding one chunk.
pub struct ChunkSession<'a> {
    frame: ChunkFrame,
    expected: &'a Vec<i64>,
    selections: &'a Vec<Selection>,
    from: usize,
    to: usize,
    queue: TimeQueue,
    skipped: TimeQueue,
    next_expected: usize,
    next_wanted: usize,
    sent: usize,
    produced: usize,
    skipped_count: usize,
}

impl<'a> View for ChunkSession<'a> {
    type V = ChunkView;

    closed spec fn view(&self) -> ChunkView {
        ChunkView {
            width: self.frame.width,
            height: self.frame.height,
            samples: self.frame.samples,
            end: self.frame.end,
            expected: self.expected@,
            wanted: self.selections@.subrange(self.from as int, self.to as int),
            queue: self.queue@,
            skipped: self.skipped@,
            next_expected: self.next_expected as int,
            next_wanted: self.next_wanted as int,
            sent: self.sent as int,
            produced: self.produced as int,
            skipped_count: self.skipped_count as int,
        }
    }
}

/// A chunk before its first access unit.
pub open spec fn opened(frame: ChunkFrame, expected: Seq<i64>, wanted: Seq<Selection>) -> ChunkView {
    ChunkView {
        width: frame.width,
        height: frame.height,
        samples: frame.samples,
        end: frame.end,
        expected,
        wanted,
        queue: Multiset::empty(),
        skipped: Multiset::empty(),
        next_expected: 0,
        next_wanted: 0,
        sent: 0,
        produced: 0,
        skipped_count: 0,
    }
}

impl<'a> ChunkSession<'a> {
    /// The chunk's selections lie inside the plan's and are in order, and the counters agree.
    pub closed spec fn valid(&self) -> bool {
        &&& self.from <= self.to <= self.selections@.len()
        &&& selections_ascend(self.selections@)
        &&& counts_agree(self@)
    }

    /// Opens a session on a chunk that has to produce `expected` and serves the selections
    /// from `from` up to `to`.
    pub fn new(
        frame: ChunkFrame,
        expected: &'a Vec<i64>,
        selections: &'a Vec<Selection>,
        from: usize,
        to: usize,
    ) -> (session: Self)
        requires
            from <= to <= selections@.len(),
            selections_ascend(selections@),
        ensures
            session.valid(),
            session@ == opened(
                frame,
                expected@,
                selections@.subrange(from as int, to as int),
            ),
    {
        ChunkSession {
            frame,
            expected,
            selections,
            from,
            to,
            queue: TimeQueue::new(),
            skipped: TimeQueue::new(),
            next_expected: 0,
            next_wanted: 0,
            sent: 0,
            produced: 0,
            skipped_count: 0,
        }
    }

    /// Whether the access unit at `pts` may be left undecoded: nothing refers to it and the
    /// chunk serves no epoch with it.
    pub fn may_skip(&self, pts: i64, data: &[u8], length_size: usize) -> (skip: bool)
        requires
            self.valid(),
        ensures
            skip == (disposable(data@, length_size as nat) && !names(
                self@.wanted,
                0,
                self@.wanted.len() as int,
                pts,
            )),
    {
        proof {
            let from = self.from as int;
            let to = self.to as int;
            if names(self@.wanted, 0, self@.wanted.len() as int, pts) {
                let s = choose|s: int|
                    0 <= s < self@.wanted.len() && (#[trigger] self@.wanted[s]).pts == pts;
                assert(self.selections@[from + s].pts == pts);
            }
            if names(self.selections@, from, to, pts) {
                let s = choose|s: int|
                    from <= s < to && (#[trigger] self.selections@[s]).pts == pts;
                assert(self@.wanted[s - from].pts == pts);
            }
        }
        is_disposable(data, length_size) && !is_selected(self.selections, self.from, self.to, pts)
    }

    /// Notes that the access unit at `pts` goes to the decoder.
    pub fn submit(&mut self, pts: i64) -> (res: Result<(), ChunkError>)
        requires
            old(self).valid(),
            old(self)@.sent < old(self)@.samples,
        ensures
            final(self).valid(),
            final(self)@ == submitted(old(self)@, pts),
            res == if final(self)@.queue.len() <= MAX_REORDER {
                Ok::<(), ChunkError>(())
            } else {
                Err(ChunkError::QueueFull)
            },
    {
        self.queue.push(pts);
        self.sent += 1;
        if self.queue.len() > MAX_REORDER {
            return Err(ChunkError::QueueFull);
        }
        Ok(())
    }

    /// Notes that the access unit at `pts` is left undecoded.
    pub fn skip(&mut self, pts: i64)
        requires
            old(self).valid(),
            old(self)@.sent < old(self)@.samples,
        ensures
            final(self).valid(),
            final(self)@ == left_out(old(self)@, pts),
    {
        if is_in_span(pts, self.frame.end) {
            self.skipped.push(pts);
        }
        self.sent += 1;
        self.skipped_count += 1;
    }

    /// Takes in the next access unit. Gives the stream to hand to the decoder, or nothing where
    /// the unit is left undecoded, which is never done where all pictures are to be decoded.
    pub fn take_unit(
        &mut self,
        skip_nonref: bool,
        sets: &AvccSets,
        pts: i64,
        data: &[u8],
    ) -> (res: Result<Option<Vec<u8>>, ChunkFault>)
        requires
            old(self).valid(),
            old(self)@.sent < old(self)@.samples,
            sets.length_size == 1 || sets.length_size == 2 || sets.length_size == 4,
        ensures
            final(self).valid(),
            unit_skipped(old(self)@, skip_nonref, pts, data@, sets.length_size as nat) ==> res
                == Ok::<Option<Vec<u8>>, ChunkFault>(None) && final(self)@ == left_out(
                old(self)@,
                pts,
            ),
            !unit_skipped(old(self)@, skip_nonref, pts, data@, sets.length_size as nat) ==> {
                &&& final(self)@ == submitted(old(self)@, pts)
                &&& match res {
                    Ok(None) => false,
                    Ok(Some(out)) => final(self)@.queue.len() <= MAX_REORDER && annexb_of(
                        data@,
                        sets.length_size as nat,
                        HeaderRule::Avc,
                    ) == Ok::<Seq<u8>, NalError>(out@) && unit_announced(data@, *sets),
                    Err(ChunkFault::Chunk(error)) => final(self)@.queue.len() > MAX_REORDER
                        && error == ChunkError::QueueFull,
                    Err(ChunkFault::Unit(UnitError::Malformed(fault))) => final(self)@.queue.len()
                        <= MAX_REORDER && annexb_of(
                        data@,
                        sets.length_size as nat,
                        HeaderRule::Avc,
                    ) == Err::<Seq<u8>, NalError>(fault),
                    Err(ChunkFault::Unit(UnitError::SetsChanged)) => final(self)@.queue.len()
                        <= MAX_REORDER && annexb_of(
                        data@,
                        sets.length_size as nat,
                        HeaderRule::Avc,
                    ) is Ok && !unit_announced(data@, *sets),
                }
            },
    {
        if skip_nonref && self.may_skip(pts, data, sets.length_size) {
            self.skip(pts);
            return Ok(None);
        }
        match self.submit(pts) {
            Ok(()) => {},
            Err(error) => {
                return Err(ChunkFault::Chunk(error));
            },
        }
        match prepare_unit(data, sets) {
            Ok(out) => Ok(Some(out)),
            Err(error) => Err(ChunkFault::Unit(error)),
        }
    }

    /// Moves on past the pictures that were skipped.
    fn pass(&mut self, limit: Option<i64>)
        requires
            old(self).valid(),
        ensures
            final(self).valid(),
            final(self)@ == passed(old(self)@, limit),
            final(self).selections == old(self).selections,
            final(self).expected == old(self).expected,
            final(self).from == old(self).from,
            final(self).to == old(self).to,
            final(self).frame == old(self).frame,
    {
        let ghost start = self@;
        while self.next_expected < self.expected.len()
            invariant_except_break
                passed(self@, limit) == passed(start, limit),
            invariant
                self.valid(),
                start == old(self)@,
                self.selections == old(self).selections,
                self.expected == old(self).expected,
                self.from == old(self).from,
                self.to == old(self).to,
                self.frame == old(self).frame,
            ensures
                self@ == passed(start, limit),
            decreases self.expected@.len() - self.next_expected,
        {
            let ghost before = self@;
            let time: i64 = self.expected[self.next_expected];
            let early: bool = match limit {
                Some(p) => time < p,
                None => true,
            };
            if !early || !self.skipped.take(time) {
                assert(!can_pass(self@, limit));
                break;
            }
            self.next_expected += 1;
            assert(can_pass(before, limit));
            assert(self@ == ChunkView {
                skipped: before.skipped.remove(time),
                next_expected: before.next_expected + 1,
                ..before
            });
        }
    }

    /// Takes note of a picture that came out of the decoder, and gives the selection that it
    /// serves, if it serves one.
    pub fn picture(&mut self, width: usize, height: usize) -> (res: Result<
        Option<Selection>,
        ChunkError,
    >)
        requires
            old(self).valid(),
        ensures
            final(self).valid(),
            (final(self)@, res) == shown(old(self)@, width, height),
    {
        let ghost before = self@;
        let pts: i64 = match self.queue.pop() {
            Some(pts) => pts,
            None => {
                return Err(ChunkError::ExtraPicture);
            },
        };
        self.produced += 1;
        if width != self.frame.width || height != self.frame.height {
            return Err(ChunkError::ResolutionChanged);
        }
        if !is_in_span(pts, self.frame.end) {
            return Ok(None);
        }
        assert(self@ == ChunkView {
            queue: before.queue.remove(pts),
            produced: before.produced + 1,
            ..before
        });
        self.pass(Some(pts));
        let ghost here = self@;
        if self.next_expected >= self.expected.len() || self.expected[self.next_expected] != pts {
            return Err(ChunkError::TimeMismatch);
        }
        self.next_expected += 1;
        if self.next_wanted < self.to - self.from {
            let selection = self.selections[self.from + self.next_wanted];
            assert(selection == here.wanted[here.next_wanted]);
            if selection.pts == pts {
                self.next_wanted += 1;
                return Ok(Some(selection));
            }
        }
        Ok(None)
    }

    /// Ends the session once the decoder has no picture left. Gives how many pictures were
    /// resized and how many access units were skipped.
    pub fn finish(self) -> (res: Result<(usize, usize), ChunkError>)
        requires
            self.valid(),
        ensures
            match res {
                Ok((resized, skipped)) => finished(self@) == Ok::<(int, int), ChunkError>(
                    (resized as int, skipped as int),
                ),
                Err(error) => finished(self@) == Err::<(int, int), ChunkError>(error),
            },
    {
        let mut session = self;
        session.pass(None);
        let produced: usize = session.produced;
        let expected: usize = session.frame.samples - session.skipped_count;
        if produced != expected || session.skipped.len() > 0 {
            return Err(ChunkError::CountMismatch { produced, expected });
        }
        if session.next_expected != session.expected.len() || session.next_wanted != session.to
            - session.from {
            return Err(ChunkError::Incomplete);
        }
        Ok((session.next_wanted, session.skipped_count))
    }
}

/// A session after `events`, and the selections that were served in that order.
pub open spec fn chunk_run(v: ChunkView, events: Seq<DecodeEvent>) -> Result<
    (ChunkView, Seq<Selection>),
    ChunkError,
>
    decreases events.len(),
{
    if events.len() == 0 {
        Ok((v, Seq::empty()))
    } else {
        match chunk_run(v, events.drop_last()) {
            Err(error) => Err(error),
            Ok((before, out)) => match events.last() {
                DecodeEvent::Submit(pts) => if submitted(before, pts).queue.len() <= MAX_REORDER {
                    Ok((submitted(before, pts), out))
                } else {
                    Err(ChunkError::QueueFull)
                },
                DecodeEvent::Skip(pts) => Ok((left_out(before, pts), out)),
                DecodeEvent::Picture { width, height } => match shown(before, width, height) {
                    (after, Ok(Some(selection))) => Ok((after, out.push(selection))),
                    (after, Ok(None)) => Ok((after, out)),
                    (_, Err(error)) => Err(error),
                },
            },
        }
    }
}

proof fn lemma_passed_keeps(v: ChunkView, limit: Option<i64>)
    ensures
        passed(v, limit).wanted == v.wanted,
        passed(v, limit).next_wanted == v.next_wanted,
        passed(v, limit).expected == v.expected,
        passed(v, limit).next_expected >= v.next_expected,
    decreases v.expected.len() - v.next_expected,
{
    if can_pass(v, limit) {
        lemma_passed_keeps(
            ChunkView {
                skipped: v.skipped.remove(v.expected[v.next_expected]),
                next_expected: v.next_expected + 1,
                ..v
            },
            limit,
        );
    }
}

proof fn lemma_chunk_run(v: ChunkView, events: Seq<DecodeEvent>)
    requires
        v.next_wanted == 0,
    ensures
        chunk_run(v, events) matches Ok((after, out)) ==> {
            &&& after.wanted == v.wanted
            &&& 0 <= after.next_wanted <= v.wanted.len()
            &&& out == v.wanted.take(after.next_wanted)
        },
    decreases events.len(),
{
    if events.len() == 0 {
        assert(v.wanted.take(0) =~= Seq::<Selection>::empty());
    } else {
        lemma_chunk_run(v, events.drop_last());
        if let Ok((before, out)) = chunk_run(v, events.drop_last()) {
            match events.last() {
                DecodeEvent::Picture { width, height } => {
                    let pts = least(before.queue);
                    let counted = ChunkView {
                        queue: before.queue.remove(pts),
                        produced: before.produced + 1,
                        ..before
                    };
                    lemma_passed_keeps(counted, Some(pts));
                    if let (after, Ok(Some(selection))) = shown(before, width, height) {
                        assert(out.push(selection) =~= v.wanted.take(after.next_wanted));
                    }
                },
                _ => {},
            }
        }
    }
}

/// A chunk that ends well has served exactly the selections that it was given, each once and
/// in order, whatever the decoder did in between, and counts as many resized pictures.
pub proof fn law_chunk_serves_its_selections(
    frame: ChunkFrame,
    expected: Seq<i64>,
    wanted: Seq<Selection>,
    events: Seq<DecodeEvent>,
)
    requires
        chunk_run(opened(frame, expected, wanted), events) is Ok,
        finished(chunk_run(opened(frame, expected, wanted), events)->Ok_0.0) is Ok,
    ensures
        chunk_run(opened(frame, expected, wanted), events)->Ok_0.1 == wanted,
        finished(chunk_run(opened(frame, expected, wanted), events)->Ok_0.0)->Ok_0.0
            == wanted.len(),
{
    let v = opened(frame, expected, wanted);
    lemma_chunk_run(v, events);
    let (after, out) = chunk_run(v, events)->Ok_0;
    lemma_passed_keeps(after, None);
    assert(wanted.take(wanted.len() as int) =~= wanted);
}

/// The selections have times that ascend, and each of these times is expected.
pub open spec fn wanted_expected(wanted: Seq<Selection>, expected: Seq<i64>) -> bool {
    &&& forall|s: int, t: int|
        0 <= s < t < wanted.len() ==> (#[trigger] wanted[s]).pts < (#[trigger] wanted[t]).pts
    &&& forall|s: int| 0 <= s < wanted.len() ==> expected.contains((#[trigger] wanted[s]).pts)
}

/// The times that a chunk still has to produce.
spec fn due(v: ChunkView) -> Seq<i64> {
    v.expected.skip(v.next_expected)
}

/// The time is among those expected from `from` on.
spec fn comes_from(expected: Seq<i64>, from: int, time: i64) -> bool {
    exists|i: int| from <= i < expected.len() && #[trigger] expected[i] == time
}

/// Every selection that is left has its picture still to come, and no picture that was skipped
/// is one of them.
spec fn wanted_to_come(v: ChunkView) -> bool {
    &&& increasing(v.expected)
    &&& forall|s: int, t: int|
        0 <= s < t < v.wanted.len() ==> (#[trigger] v.wanted[s]).pts < (
        #[trigger] v.wanted[t]).pts
    &&& forall|s: int|
        v.next_wanted <= s < v.wanted.len() ==> comes_from(
            v.expected,
            v.next_expected,
            (#[trigger] v.wanted[s]).pts,
        )
    &&& forall|time: i64| #[trigger]
        v.skipped.count(time) > 0 ==> !names(v.wanted, 0, v.wanted.len() as int, time)
    &&& 0 <= v.next_expected <= v.expected.len()
    &&& 0 <= v.next_wanted <= v.wanted.len()
}

/// A chunk that passes the picture that is due next, which was skipped.
proof fn lemma_chunk_passes_one(v: ChunkView) -> (w: ChunkView)
    requires
        wanted_to_come(v),
        v.next_expected < v.expected.len(),
        v.skipped.count(v.expected[v.next_expected]) > 0,
    ensures
        w == (ChunkView {
            skipped: v.skipped.remove(v.expected[v.next_expected]),
            next_expected: v.next_expected + 1,
            ..v
        }),
        wanted_to_come(w),
        increasing(due(v)),
        due(v).len() > 0,
        due(w).to_multiset() == due(v).to_multiset().remove(due(v)[0]),
{
    broadcast use vstd::multiset::group_multiset_axioms;

    let time = v.expected[v.next_expected];
    let w = ChunkView {
        skipped: v.skipped.remove(time),
        next_expected: v.next_expected + 1,
        ..v
    };
    assert forall|s: int| w.next_wanted <= s < w.wanted.len() implies comes_from(
        w.expected,
        w.next_expected,
        (#[trigger] w.wanted[s]).pts,
    ) by {
        assert(comes_from(v.expected, v.next_expected, v.wanted[s].pts));
        let i = choose|i: int|
            v.next_expected <= i < v.expected.len() && #[trigger] v.expected[i]
                == v.wanted[s].pts;
        if i == v.next_expected {
            assert(v.wanted[s].pts == time);
            assert(names(v.wanted, 0, v.wanted.len() as int, time));
        }
        assert(w.expected[i] == v.wanted[s].pts);
    }
    assert forall|t: i64| #[trigger] w.skipped.count(t) > 0 implies v.skipped.count(t) > 0 by {}
    assert(due(v).skip(1) =~= due(w));
    assert forall|i: int, j: int| 0 <= i < j < due(v).len() implies due(v)[i] <= due(v)[j] by {
        assert(v.expected[v.next_expected + i] <= v.expected[v.next_expected + j]);
    }
    lemma_first_of(due(v));
    w
}

proof fn lemma_chunk_passes_to(v: ChunkView, pts: i64, others: Multiset<i64>)
    requires
        wanted_to_come(v),
        due(v).to_multiset() == others.add(v.skipped).insert(pts),
        forall|time: i64| #[trigger] others.count(time) > 0 ==> pts <= time,
    ensures
        ({
            let w = passed(v, Some(pts));
            &&& w == (ChunkView { skipped: w.skipped, next_expected: w.next_expected, ..v })
            &&& wanted_to_come(w)
            &&& w.next_expected < w.expected.len()
            &&& w.expected[w.next_expected] == pts
            &&& due(w).to_multiset() == others.add(w.skipped).insert(pts)
        }),
    decreases v.expected.len() - v.next_expected,
{
    broadcast use vstd::multiset::group_multiset_axioms;

    assert forall|i: int, j: int| 0 <= i < j < due(v).len() implies due(v)[i] <= due(v)[j] by {
        assert(v.expected[v.next_expected + i] <= v.expected[v.next_expected + j]);
    }
    lemma_first_due(due(v), others, v.skipped, pts);
    assert(due(v)[0] == v.expected[v.next_expected]);
    if can_pass(v, Some(pts)) {
        let time = v.expected[v.next_expected];
        let w = lemma_chunk_passes_one(v);
        assert(due(w).to_multiset() =~= others.add(w.skipped).insert(pts));
        lemma_chunk_passes_to(w, pts, others);
    }
}

proof fn lemma_chunk_passes_all(v: ChunkView)
    requires
        wanted_to_come(v),
        due(v).to_multiset() == v.skipped,
    ensures
        ({
            let w = passed(v, None);
            &&& w == (ChunkView { skipped: w.skipped, next_expected: w.next_expected, ..v })
            &&& w.next_expected == w.expected.len()
            &&& w.next_wanted == w.wanted.len()
            &&& w.skipped.len() == 0
        }),
    decreases v.expected.len() - v.next_expected,
{
    broadcast use vstd::multiset::group_multiset_axioms;

    vstd::seq_lib::to_multiset_len(due(v));
    if v.next_expected < v.expected.len() {
        assert forall|i: int, j: int| 0 <= i < j < due(v).len() implies due(v)[i]
            <= due(v)[j] by {
            assert(v.expected[v.next_expected + i] <= v.expected[v.next_expected + j]);
        }
        lemma_first_of(due(v));
        assert(due(v)[0] == v.expected[v.next_expected]);
        let w = lemma_chunk_passes_one(v);
        assert(can_pass(v, None));
        lemma_chunk_passes_all(w);
    } else {
        if v.next_wanted < v.wanted.len() {
            assert(comes_from(v.expected, v.next_expected, v.wanted[v.next_wanted].pts));
        }
    }
}

/// The chunk's queue is what the decoder holds, and the times that are due are those that it
/// holds, those that were skipped and those that are to come.
spec fn in_step(v: ChunkView, events: Seq<DecodeEvent>, i: int) -> bool {
    &&& wanted_to_come(v)
    &&& v.queue == pending(events.take(i))
    &&& due(v).to_multiset() == v.queue.filter(|time: i64| in_span(time, v.end)).add(
        v.skipped,
    ).add(to_come(events, i, v.end))
}

proof fn lemma_chunk_goes_well(v: ChunkView, events: Seq<DecodeEvent>, i: int)
    requires
        0 <= i <= events.len(),
        in_step(v, events, 0),
        v.sent == 0 && v.produced == 0 && v.skipped_count == 0,
        in_presentation_order(events, v.width, v.height, v.end),
        spares_selected(events, v.wanted),
    ensures
        chunk_run(v, events.take(i)) matches Ok((after, _)) && {
            &&& in_step(after, events, i)
            &&& after.width == v.width
            &&& after.height == v.height
            &&& after.end == v.end
            &&& after.samples == v.samples
            &&& after.wanted == v.wanted
            &&& after.produced + after.queue.len() + after.skipped_count + unit_times(
                events,
                i,
            ).len() == unit_times(events, 0).len()
        },
    decreases i,
{
    broadcast use vstd::multiset::group_multiset_axioms;

    if i == 0 {
        assert(events.take(0) =~= Seq::<DecodeEvent>::empty());
    } else {
        let k = i - 1;
        lemma_chunk_goes_well(v, events, k);
        assert(events.take(i).drop_last() =~= events.take(k));
        assert(events.take(i).last() == events[k]);
        let before = chunk_run(v, events.take(k))->Ok_0.0;
        let keep = |time: i64| in_span(time, v.end);
        lemma_to_come(events, k, v.end);
        lemma_goes_in_turn(events, v.width, v.height, v.end, i);
        match events[k] {
            DecodeEvent::Submit(pts) => {
                let after = submitted(before, pts);
                if in_span(pts, v.end) {
                    assert(after.queue.filter(keep) =~= before.queue.filter(keep).insert(pts));
                } else {
                    assert(after.queue.filter(keep) =~= before.queue.filter(keep));
                }
                assert(due(after).to_multiset() =~= after.queue.filter(keep).add(
                    after.skipped,
                ).add(to_come(events, i, v.end)));
                assert(in_step(after, events, i));
            },
            DecodeEvent::Skip(pts) => {
                let after = left_out(before, pts);
                assert forall|t: i64| #[trigger] after.skipped.count(t) > 0 implies !names(
                    v.wanted,
                    0,
                    v.wanted.len() as int,
                    t,
                ) by {
                    if t != pts {
                        assert(before.skipped.count(t) > 0);
                    }
                }
                assert(due(after).to_multiset() =~= after.queue.filter(keep).add(
                    after.skipped,
                ).add(to_come(events, i, v.end)));
                assert(wanted_to_come(after));
                assert(in_step(after, events, i));
            },
            DecodeEvent::Picture { width, height } => {
                let pts = least(before.queue);
                lemma_has_least(before.queue);
                let counted = ChunkView {
                    queue: before.queue.remove(pts),
                    produced: before.produced + 1,
                    ..before
                };
                if !in_span(pts, v.end) {
                    assert(counted.queue.filter(keep) =~= before.queue.filter(keep));
                    assert(wanted_to_come(counted));
                    assert(in_step(counted, events, i));
                } else {
                    lemma_first_to_come(events, v.width, v.height, v.end, k);
                    let others = counted.queue.filter(keep).add(to_come(events, i, v.end));
                    assert forall|time: i64| #[trigger] others.count(time) > 0 implies pts
                        <= time by {
                        if counted.queue.filter(keep).count(time) > 0 {
                            assert(before.queue.count(time) > 0);
                        } else {
                            assert(to_come(events, i, v.end).count(time) > 0);
                        }
                    }
                    assert(due(counted).to_multiset() =~= others.add(counted.skipped).insert(pts));
                    assert(wanted_to_come(counted));
                    lemma_chunk_passes_to(counted, pts, others);
                    let here = passed(counted, Some(pts));
                    lemma_chunk_takes(here, pts);
                    let after = chunk_run(v, events.take(i))->Ok_0.0;
                    assert(due(after).to_multiset() =~= after.queue.filter(keep).add(
                        after.skipped,
                    ).add(to_come(events, i, v.end)));
                    assert(in_step(after, events, i));
                }
            },
        }
    }
}

/// The picture that is due next is taken, with the selection that names it if one does.
proof fn lemma_chunk_takes(v: ChunkView, pts: i64)
    requires
        wanted_to_come(v),
        v.next_expected < v.expected.len(),
        v.expected[v.next_expected] == pts,
    ensures
        ({
            let w = ChunkView {
                next_expected: v.next_expected + 1,
                next_wanted: if v.next_wanted < v.wanted.len() && v.wanted[v.next_wanted].pts
                    == pts {
                    v.next_wanted + 1
                } else {
                    v.next_wanted
                },
                ..v
            };
            &&& wanted_to_come(w)
            &&& due(w).to_multiset() == due(v).to_multiset().remove(pts)
        }),
{
    let w = ChunkView {
        next_expected: v.next_expected + 1,
        next_wanted: if v.next_wanted < v.wanted.len() && v.wanted[v.next_wanted].pts == pts {
            v.next_wanted + 1
        } else {
            v.next_wanted
        },
        ..v
    };
    assert forall|s: int| w.next_wanted <= s < w.wanted.len() implies comes_from(
        w.expected,
        w.next_expected,
        (#[trigger] w.wanted[s]).pts,
    ) by {
        assert(comes_from(v.expected, v.next_expected, v.wanted[s].pts));
        let i = choose|i: int|
            v.next_expected <= i < v.expected.len() && #[trigger] v.expected[i]
                == v.wanted[s].pts;
        if i == v.next_expected {
            // The first selection that is left is this one or presents before it.
            let first = v.next_wanted;
            assert(comes_from(v.expected, v.next_expected, v.wanted[first].pts));
            let j = choose|j: int|
                v.next_expected <= j < v.expected.len() && #[trigger] v.expected[j]
                    == v.wanted[first].pts;
            assert(pts <= v.expected[j]);
            assert(s == first);
        }
        assert(w.expected[i] == w.wanted[s].pts);
    }
    assert(due(v).skip(1) =~= due(w));
    assert forall|i: int, j: int| 0 <= i < j < due(v).len() implies due(v)[i] <= due(v)[j] by {
        assert(v.expected[v.next_expected + i] <= v.expected[v.next_expected + j]);
    }
    lemma_first_of(due(v));
}

/// A chunk ends well where its decoder takes in the chunk's access units and puts out one
/// picture of the right size for each, in presentation order, where the times of its
/// selections are among those that it has to produce, and where none of these is left
/// undecoded.
pub proof fn law_chunk_ends_well(
    frame: ChunkFrame,
    pts: Seq<i64>,
    wanted: Seq<Selection>,
    events: Seq<DecodeEvent>,
)
    requires
        frame.samples == pts.len(),
        unit_times(events, 0) == pts,
        wanted_expected(wanted, sorted(kept_times(pts, frame.end))),
        in_presentation_order(events, frame.width, frame.height, frame.end),
        spares_selected(events, wanted),
    ensures
        ({
            let expected = sorted(kept_times(pts, frame.end));
            &&& chunk_run(opened(frame, expected, wanted), events) is Ok
            &&& finished(chunk_run(opened(frame, expected, wanted), events)->Ok_0.0) is Ok
        }),
{
    broadcast use vstd::multiset::group_multiset_axioms;

    let expected = sorted(kept_times(pts, frame.end));
    let v = opened(frame, expected, wanted);
    let keep = |time: i64| in_span(time, v.end);
    lemma_sorted(kept_times(pts, frame.end));
    assert(due(v) =~= expected);
    assert(events.take(0) =~= Seq::<DecodeEvent>::empty());
    assert(v.queue.filter(keep) =~= Multiset::empty());
    assert(due(v).to_multiset() =~= v.queue.filter(keep).add(v.skipped).add(
        to_come(events, 0, v.end),
    ));
    assert forall|s: int| 0 <= s < wanted.len() implies comes_from(
        expected,
        0,
        (#[trigger] wanted[s]).pts,
    ) by {
        assert(expected.contains(wanted[s].pts));
    }
    assert(wanted_to_come(v));
    assert(in_step(v, events, 0));
    lemma_chunk_goes_well(v, events, events.len() as int);
    assert(events.take(events.len() as int) =~= events);
    let after = chunk_run(v, events)->Ok_0.0;
    vstd::multiset::lemma_multiset_empty_len(after.queue);
    lemma_nothing_to_come(events, v.end);
    assert(after.queue.filter(keep) =~= Multiset::empty());
    assert(due(after).to_multiset() =~= after.skipped);
    lemma_chunk_passes_all(after);
}

/// Why decoding a range of H.265 access units fails.
#[derive(Clone, Copy, Debug, PartialEq, Eq, Structural)]
pub enum RangeError {
    /// Midstream H.265 resolution changes unsupported.
    ResolutionChanged,
    /// Only progressive 8-bit YUV420 H.265 is supported.
    UnsupportedFormat,
    /// HEVC decoder produced more pictures than the container declares.
    ExtraPicture,
    /// Unexpected HEVC picture layout.
    UnexpectedLayout,
    /// Incomplete H.265 presentation sequence.
    Incomplete { pictures: usize, expected: usize, selections: usize, wanted: usize },
}

/// What a range's session does with an access unit.
pub open spec fn range_taken(v: RangeView, skippable: bool) -> RangeView {
    RangeView {
        sent: v.sent + 1,
        skipped: if skippable {
            v.skipped + 1
        } else {
            v.skipped
        },
        ..v
    }
}

/// What came out of an H.265 decoder.
#[derive(Clone, Copy, Debug, PartialEq, Eq, Structural)]
pub struct HevcPicture {
    pub width: usize,
    pub height: usize,
    pub bit_depth: u8,
    pub chroma_format: u8,
}

/// What a range's session holds.
pub struct RangeView {
    pub width: usize,
    pub height: usize,
    /// The times that the range has to produce, in presentation order.
    pub expected: Seq<i64>,
    /// The selections that the range serves.
    pub wanted: Seq<Selection>,
    /// How many access units the range has.
    pub samples: usize,
    pub next_expected: int,
    pub next_wanted: int,
    pub sent: int,
    pub skipped: int,
}

/// A picture came out of the decoder; the selection that it serves, if any. An H.265 decoder
/// puts pictures out in presentation order, so each takes the next expected time.
pub open spec fn range_shown(v: RangeView, picture: HevcPicture) -> (
    RangeView,
    Result<Option<Selection>, RangeError>,
) {
    if picture.width != v.width || picture.height != v.height {
        (v, Err(RangeError::ResolutionChanged))
    } else if picture.bit_depth != 8 || picture.chroma_format != 1 {
        (v, Err(RangeError::UnsupportedFormat))
    } else if v.next_expected >= v.expected.len() {
        (v, Err(RangeError::ExtraPicture))
    } else {
        let after = RangeView { next_expected: v.next_expected + 1, ..v };
        if v.next_wanted < v.wanted.len() && v.wanted[v.next_wanted].pts
            == v.expected[v.next_expected] {
            (
                RangeView { next_wanted: v.next_wanted + 1, ..after },
                Ok(Some(v.wanted[v.next_wanted])),
            )
        } else {
            (after, Ok(None))
        }
    }
}

/// How decoding the range ended: how many pictures were resized, and how many access units
/// were skipped.
pub open spec fn range_finished(v: RangeView) -> Result<(int, int), RangeError> {
    if v.next_expected == v.expected.len() && v.next_wanted == v.wanted.len() {
        Ok((v.next_wanted, v.skipped))
    } else {
        Err(
            RangeError::Incomplete {
                pictures: v.next_expected as usize,
                expected: v.expected.len() as usize,
                selections: v.next_wanted as usize,
                wanted: v.wanted.len() as usize,
            },
        )
    }
}

/// One decoder decoding a range of H.265 access units.
pub struct RangeSession<'a> {
    width: usize,
    height: usize,
    expected: &'a Vec<i64>,
    selections: &'a Vec<Selection>,
    from: usize,
    to: usize,
    samples: usize,
    next_expected: usize,
    next_wanted: usize,
    sent: usize,
    skipped: usize,
}

impl<'a> View for RangeSession<'a> {
    type V = RangeView;

    closed spec fn view(&self) -> RangeView {
        RangeView {
            width: self.width,
            height: self.height,
            expected: self.expected@,
            wanted: self.selections@.subrange(self.from as int, self.to as int),
            samples: self.samples,
            next_expected: self.next_expected as int,
            next_wanted: self.next_wanted as int,
            sent: self.sent as int,
            skipped: self.skipped as int,
        }
    }
}

/// A range before its first picture.
pub open spec fn range_opened(
    width: usize,
    height: usize,
    samples: usize,
    expected: Seq<i64>,
    wanted: Seq<Selection>,
) -> RangeView {
    RangeView {
        width,
        height,
        expected,
        wanted,
        samples,
        next_expected: 0,
        next_wanted: 0,
        sent: 0,
        skipped: 0,
    }
}

impl<'a> RangeSession<'a> {
    /// The range's selections lie inside the plan's, and the counters inside their bounds.
    pub closed spec fn valid(&self) -> bool {
        &&& self.from <= self.to <= self.selections@.len()
        &&& self.next_expected <= self.expected@.len()
        &&& self.next_wanted <= self.to - self.from
        &&& self.skipped <= self.sent <= self.samples
    }

    /// Opens a session on a range of `samples` access units that has to produce `expected` and
    /// serves the selections from `from` up to `to`.
    pub fn new(
        width: usize,
        height: usize,
        samples: usize,
        expected: &'a Vec<i64>,
        selections: &'a Vec<Selection>,
        from: usize,
        to: usize,
    ) -> (session: Self)
        requires
            from <= to <= selections@.len(),
        ensures
            session.valid(),
            session@ == range_opened(
                width,
                height,
                samples,
                expected@,
                selections@.subrange(from as int, to as int),
            ),
    {
        RangeSession {
            width,
            height,
            expected,
            selections,
            from,
            to,
            samples,
            next_expected: 0,
            next_wanted: 0,
            sent: 0,
            skipped: 0,
        }
    }

    /// Takes in the next access unit. Gives the stream to hand to the decoder, or nothing where
    /// the plan leaves the unit undecoded.
    pub fn take_unit(&mut self, skippable: bool, data: &[u8], length_size: usize) -> (res: Result<
        Option<Vec<u8>>,
        NalError,
    >)
        requires
            old(self).valid(),
            old(self)@.sent < old(self)@.samples,
        ensures
            final(self).valid(),
            final(self)@ == range_taken(old(self)@, skippable),
            match res {
                Ok(None) => skippable,
                Ok(Some(out)) => !skippable && annexb_of(
                    data@,
                    length_size as nat,
                    HeaderRule::HevcBaseLayer,
                ) == Ok::<Seq<u8>, NalError>(out@),
                Err(fault) => !skippable && annexb_of(
                    data@,
                    length_size as nat,
                    HeaderRule::HevcBaseLayer,
                ) == Err::<Seq<u8>, NalError>(fault),
            },
    {
        self.sent += 1;
        if skippable {
            self.skipped += 1;
            return Ok(None);
        }
        match hvcc_to_annexb(data, length_size) {
            Ok(out) => Ok(Some(out)),
            Err(fault) => Err(fault),
        }
    }

    /// Takes note of a picture that came out of the decoder, and gives the selection that it
    /// serves, if it serves one.
    pub fn picture(&mut self, picture: HevcPicture) -> (res: Result<Option<Selection>, RangeError>)
        requires
            old(self).valid(),
        ensures
            final(self).valid(),
            (final(self)@, res) == range_shown(old(self)@, picture),
    {
        let ghost before = self@;
        if picture.width != self.width || picture.height != self.height {
            return Err(RangeError::ResolutionChanged);
        }
        if picture.bit_depth != 8 || picture.chroma_format != 1 {
            return Err(RangeError::UnsupportedFormat);
        }
        if self.next_expected >= self.expected.len() {
            return Err(RangeError::ExtraPicture);
        }
        let pts: i64 = self.expected[self.next_expected];
        self.next_expected += 1;
        if self.next_wanted < self.to - self.from {
            let selection = self.selections[self.from + self.next_wanted];
            assert(selection == before.wanted[before.next_wanted]);
            if selection.pts == pts {
                self.next_wanted += 1;
                return Ok(Some(selection));
            }
        }
        Ok(None)
    }

    /// Ends the session once the decoder has no picture left. Gives how many pictures were
    /// resized and how many access units were skipped.
    pub fn finish(self) -> (res: Result<(usize, usize), RangeError>)
        requires
            self.valid(),
        ensures
            match res {
                Ok((resized, skipped)) => range_finished(self@) == Ok::<(int, int), RangeError>(
                    (resized as int, skipped as int),
                ),
                Err(error) => range_finished(self@) == Err::<(int, int), RangeError>(error),
            },
    {
        let wanted: usize = self.to - self.from;
        if self.next_expected == self.expected.len() && self.next_wanted == wanted {
            Ok((self.next_wanted, self.skipped))
        } else {
            Err(
                RangeError::Incomplete {
                    pictures: self.next_expected,
                    expected: self.expected.len(),
                    selections: self.next_wanted,
                    wanted,
                },
            )
        }
    }
}

/// A range after pictures came out, and the selections that were served in that order.
pub open spec fn range_run(v: RangeView, pictures: Seq<HevcPicture>) -> Result<
    (RangeView, Seq<Selection>),
    RangeError,
>
    decreases pictures.len(),
{
    if pictures.len() == 0 {
        Ok((v, Seq::empty()))
    } else {
        match range_run(v, pictures.drop_last()) {
            Err(error) => Err(error),
            Ok((before, out)) => match range_shown(before, pictures.last()) {
                (after, Ok(Some(selection))) => Ok((after, out.push(selection))),
                (after, Ok(None)) => Ok((after, out)),
                (_, Err(error)) => Err(error),
            },
        }
    }
}

proof fn lemma_range_run(v: RangeView, pictures: Seq<HevcPicture>)
    requires
        v.next_wanted == 0,
        v.next_expected == 0,
    ensures
        range_run(v, pictures) matches Ok((after, out)) ==> {
            &&& after.wanted == v.wanted
            &&& after.expected == v.expected
            &&& after.next_expected == pictures.len()
            &&& 0 <= after.next_wanted <= v.wanted.len()
            &&& out == v.wanted.take(after.next_wanted)
        },
    decreases pictures.len(),
{
    if pictures.len() == 0 {
        assert(v.wanted.take(0) =~= Seq::<Selection>::empty());
    } else {
        lemma_range_run(v, pictures.drop_last());
        if let Ok((before, out)) = range_run(v, pictures.drop_last()) {
            if let (after, Ok(Some(selection))) = range_shown(before, pictures.last()) {
                assert(out.push(selection) =~= v.wanted.take(after.next_wanted));
            }
        }
    }
}

/// A range that ends well has produced one picture for each expected time and has served
/// exactly the selections that it was given, each once and in order, and counts as many
/// resized pictures.
pub proof fn law_range_serves_its_selections(
    width: usize,
    height: usize,
    samples: usize,
    expected: Seq<i64>,
    wanted: Seq<Selection>,
    pictures: Seq<HevcPicture>,
)
    requires
        range_run(range_opened(width, height, samples, expected, wanted), pictures) is Ok,
        range_finished(
            range_run(range_opened(width, height, samples, expected, wanted), pictures)->Ok_0.0,
        ) is Ok,
    ensures
        pictures.len() == expected.len(),
        range_run(range_opened(width, height, samples, expected, wanted), pictures)->Ok_0.1 == wanted,
        range_finished(
            range_run(range_opened(width, height, samples, expected, wanted), pictures)->Ok_0.0,
        )->Ok_0.0 == wanted.len(),
{
    lemma_range_run(range_opened(width, height, samples, expected, wanted), pictures);
    assert(wanted.take(wanted.len() as int) =~= wanted);
}

/// A picture is one that a range can take.
pub open spec fn picture_fits(v: RangeView, picture: HevcPicture) -> bool {
    &&& picture.width == v.width
    &&& picture.height == v.height
    &&& picture.bit_depth == 8
    &&& picture.chroma_format == 1
}

proof fn lemma_range_goes_well(v: RangeView, pictures: Seq<HevcPicture>)
    requires
        v.next_wanted == 0,
        v.next_expected == 0,
        increasing(v.expected),
        wanted_expected(v.wanted, v.expected),
        pictures.len() <= v.expected.len(),
        forall|i: int| 0 <= i < pictures.len() ==> picture_fits(v, #[trigger] pictures[i]),
    ensures
        range_run(v, pictures) matches Ok((after, _)) && {
            &&& after == (RangeView {
                next_expected: pictures.len() as int,
                next_wanted: after.next_wanted,
                ..v
            })
            &&& 0 <= after.next_wanted <= v.wanted.len()
            &&& forall|s: int|
                after.next_wanted <= s < v.wanted.len() ==> comes_from(
                    v.expected,
                    pictures.len() as int,
                    (#[trigger] v.wanted[s]).pts,
                )
        },
    decreases pictures.len(),
{
    if pictures.len() == 0 {
        assert forall|s: int| 0 <= s < v.wanted.len() implies comes_from(
            v.expected,
            0,
            (#[trigger] v.wanted[s]).pts,
        ) by {
            assert(v.expected.contains(v.wanted[s].pts));
        }
    } else {
        let earlier = pictures.drop_last();
        assert forall|i: int| 0 <= i < earlier.len() implies picture_fits(
            v,
            #[trigger] earlier[i],
        ) by {
            assert(earlier[i] == pictures[i]);
        }
        lemma_range_goes_well(v, earlier);
        let before = range_run(v, earlier)->Ok_0.0;
        let place = earlier.len() as int;
        let time = v.expected[place];
        assert(picture_fits(v, pictures[pictures.len() - 1]));
        let after = range_run(v, pictures)->Ok_0.0;
        assert forall|s: int| after.next_wanted <= s < v.wanted.len() implies comes_from(
            v.expected,
            pictures.len() as int,
            (#[trigger] v.wanted[s]).pts,
        ) by {
            assert(comes_from(v.expected, place, v.wanted[s].pts));
            let i = choose|i: int|
                place <= i < v.expected.len() && #[trigger] v.expected[i] == v.wanted[s].pts;
            if i == place {
                // The first selection that is left is this one or presents before it.
                let first = before.next_wanted;
                assert(comes_from(v.expected, place, v.wanted[first].pts));
                let j = choose|j: int|
                    place <= j < v.expected.len() && #[trigger] v.expected[j]
                        == v.wanted[first].pts;
                assert(time <= v.expected[j]);
                assert(s == first);
                assert(false);
            }
        }
    }
}

/// A range ends well where its decoder puts out one picture of the right size and format for
/// each expected time, and the times of its selections are among those.
pub proof fn law_range_ends_well(
    width: usize,
    height: usize,
    samples: usize,
    expected: Seq<i64>,
    wanted: Seq<Selection>,
    pictures: Seq<HevcPicture>,
)
    requires
        increasing(expected),
        wanted_expected(wanted, expected),
        pictures.len() == expected.len(),
        forall|i: int|
            0 <= i < pictures.len() ==> picture_fits(
                range_opened(width, height, samples, expected, wanted),
                #[trigger] pictures[i],
            ),
    ensures
        range_run(range_opened(width, height, samples, expected, wanted), pictures) is Ok,
        range_finished(
            range_run(range_opened(width, height, samples, expected, wanted), pictures)->Ok_0.0,
        ) is Ok,
{
    let v = range_opened(width, height, samples, expected, wanted);
    lemma_range_goes_well(v, pictures);
    let after = range_run(v, pictures)->Ok_0.0;
    if after.next_wanted < wanted.len() {
        assert(comes_from(
            expected,
            pictures.len() as int,
            v.wanted[after.next_wanted].pts,
        ));
    }
}

/// A picture comes out of turn.
#[derive(Clone, Copy, Debug, PartialEq, Eq, Structural)]
pub struct EpochMismatch {
    pub expected: usize,
    pub got: usize,
}

impl EpochMismatch {
    /// What the mismatch is reported as.
    pub fn text(self) -> (text: String)
        ensures
            text@ == out_of_turn(self.expected, self.got),
    {
        out_of_turn_text(self.expected, self.got)
    }
}

/// Not every epoch was handed over, or more than there are.
#[derive(Clone, Copy, Debug, PartialEq, Eq, Structural)]
pub struct EpochsMissing {
    pub handed_over: usize,
    pub total: usize,
}

/// Where the epochs that were handed over end after a selection, or why it is not its turn.
pub open spec fn next_after(next: usize, selection: Selection) -> Result<usize, EpochMismatch> {
    if next == selection.epochs.0 {
        Ok(selection.epochs.1)
    } else {
        Err(EpochMismatch { expected: next, got: selection.epochs.0 })
    }
}

/// A selection is handed over exactly where its epochs start where those before it end, and
/// what was handed over then ends where its epochs do.
pub proof fn law_selection_takes_its_turn(selections: Seq<Selection>, next: usize, more: Selection)
    requires
        handed_over(selections) == Some(next),
    ensures
        next_after(next, more) is Ok <==> more.epochs.0 == next,
        next_after(next, more) matches Ok(end) ==> end == more.epochs.1 && handed_over(
            selections.push(more),
        ) == Some(end),
        next_after(next, more) matches Err(mismatch) ==> mismatch.expected == next && mismatch.got
            == more.epochs.0 && handed_over(selections.push(more)) is None,
{
    assert(selections.push(more).drop_last() =~= selections);
}

/// Where the epochs that were handed over end.
pub struct EpochCursor {
    pub next: usize,
}

impl EpochCursor {
    /// Nothing was handed over yet.
    pub fn new() -> (cursor: Self)
        ensures
            cursor.next == 0,
    {
        EpochCursor { next: 0 }
    }

    /// Checks that the selection's epochs are the next ones, and counts them.
    pub fn hand_over(&mut self, selection: Selection) -> (res: Result<(), EpochMismatch>)
        ensures
            match next_after(old(self).next, selection) {
                Ok(end) => res is Ok && final(self).next == end,
                Err(mismatch) => res == Err::<(), EpochMismatch>(mismatch) && final(self).next
                    == old(self).next,
            },
            match res {
                Ok(()) => old(self).next == selection.epochs.0 && final(self).next
                    == selection.epochs.1,
                Err(e) => {
                    &&& old(self).next != selection.epochs.0
                    &&& e == EpochMismatch { expected: old(self).next, got: selection.epochs.0 }
                    &&& final(self).next == old(self).next
                },
            },
    {
        let (start, end) = selection.epochs;
        if start != self.next {
            return Err(EpochMismatch { expected: self.next, got: start });
        }
        self.next = end;
        Ok(())
    }

    /// Checks that all epochs of a clip were handed over.
    pub fn finish(&self, total: usize) -> (res: Result<(), EpochsMissing>)
        ensures
            res == if self.next == total {
                Ok::<(), EpochsMissing>(())
            } else {
                Err(EpochsMissing { handed_over: self.next, total })
            },
    {
        if self.next == total {
            Ok(())
        } else {
            Err(EpochsMissing { handed_over: self.next, total })
        }
    }
}

/// The next epoch after `selections` were handed over one by one, where each came in turn.
pub open spec fn handed_over(selections: Seq<Selection>) -> Option<usize>
    decreases selections.len(),
{
    if selections.len() == 0 {
        Some(0)
    } else {
        match handed_over(selections.drop_last()) {
            Some(next) => if next == selections.last().epochs.0 {
                Some(selections.last().epochs.1)
            } else {
                None
            },
            None => None,
        }
    }
}

/// Selections that serve the epochs one after the other are all handed over in turn, and
/// the last one ends where they do.
pub proof fn law_contiguous_selections_are_handed_over(selections: Seq<Selection>)
    requires
        contiguous(selections),
    ensures
        handed_over(selections) == Some(epochs_served(selections)),
    decreases selections.len(),
{
    if selections.len() > 0 {
        let earlier = selections.drop_last();
        assert forall|i: int| 0 <= i < earlier.len() implies #[trigger] earlier[i]
            == selections[i] by {}
        assert(contiguous(earlier));
        law_contiguous_selections_are_handed_over(earlier);
        if earlier.len() > 0 {
            assert(selections[selections.len() - 1].epochs.0 == selections[selections.len()
                - 2].epochs.1);
        }
    }
}

/// Where selections were handed over one by one and end with the last epoch, every epoch was
/// called once and in order, with the picture that is selected for it.
pub proof fn law_handed_over_epochs_are_called_in_turn(selections: Seq<Selection>, total: usize)
    requires
        handed_over(selections) == Some(total),
        forall|i: int|
            0 <= i < selections.len() ==> (#[trigger] selections[i]).epochs.0
                <= selections[i].epochs.1,
    ensures
        called_in_turn(selections, total),
    decreases selections.len(),
{
    let calls = epoch_calls(selections);
    if selections.len() > 0 {
        let earlier = selections.drop_last();
        let last = selections.last();
        assert(last == selections[selections.len() - 1]);
        assert forall|i: int| 0 <= i < earlier.len() implies (#[trigger] earlier[i]).epochs.0
            <= earlier[i].epochs.1 by {
            assert(earlier[i] == selections[i]);
        }
        law_handed_over_epochs_are_called_in_turn(earlier, last.epochs.0);
        let before = epoch_calls(earlier);
        assert(calls.len() == total);
        assert forall|epoch: int| 0 <= epoch < total implies (#[trigger] calls[epoch]).0
            == epoch by {
            if epoch < before.len() {
                assert(calls[epoch] == before[epoch]);
            }
        }
        assert forall|i: int| 0 <= i < selections.len() implies (#[trigger] selections[i]).epochs.1
            <= total by {
            if i < earlier.len() {
                assert(earlier[i] == selections[i]);
            }
        }
        assert forall|i: int, epoch: int|
            0 <= i < selections.len() && selections[i].epochs.0 <= epoch
                < selections[i].epochs.1 implies (#[trigger] calls[epoch]).1 == (
        #[trigger] selections[i]).pts by {
            if i < earlier.len() {
                assert(earlier[i] == selections[i]);
                assert(before[epoch].1 == earlier[i].pts);
                assert(calls[epoch] == before[epoch]);
            }
        }
    }
}

/// A run that goes well went well all along.
proof fn lemma_chunk_run_prefix(v: ChunkView, events: Seq<DecodeEvent>, i: int)
    requires
        chunk_run(v, events) is Ok,
        0 <= i <= events.len(),
    ensures
        chunk_run(v, events.take(i)) is Ok,
    decreases events.len(),
{
    if i == events.len() {
        assert(events.take(i) =~= events);
    } else {
        lemma_chunk_run_prefix(v, events.drop_last(), i);
        assert(events.drop_last().take(i) =~= events.take(i));
    }
}

/// Passing skipped pictures takes them from what is due and leaves the others.
proof fn lemma_chunk_passed_due(v: ChunkView, limit: Option<i64>, others: Multiset<i64>)
    requires
        wanted_to_come(v),
        due(v).to_multiset() == others.add(v.skipped),
    ensures
        ({
            let w = passed(v, limit);
            &&& w == (ChunkView { skipped: w.skipped, next_expected: w.next_expected, ..v })
            &&& wanted_to_come(w)
            &&& v.next_expected <= w.next_expected
            &&& due(w).to_multiset() == others.add(w.skipped)
        }),
    decreases v.expected.len() - v.next_expected,
{
    broadcast use vstd::multiset::group_multiset_axioms;

    if can_pass(v, limit) {
        let w = lemma_chunk_passes_one(v);
        assert(due(v)[0] == v.expected[v.next_expected]);
        assert(due(w).to_multiset() =~= others.add(w.skipped));
        lemma_chunk_passed_due(w, limit, others);
    }
}

/// Every picture that came out and is presented is one of the first `k` expected ones.
spec fn came_before(events: Seq<DecodeEvent>, expected: Seq<i64>, end: u64, k: int) -> bool {
    forall|p: i64| #[trigger]
        put_out(events).count(p) > 0 && in_span(p, end) ==> expected.take(k).contains(p)
}

/// An access unit that is due comes after no picture of a later one.
proof fn lemma_due_not_overtaken(
    events: Seq<DecodeEvent>,
    expected: Seq<i64>,
    end: u64,
    k: int,
    time: i64,
)
    requires
        increasing(expected),
        came_before(events, expected, end, k),
        0 <= k <= expected.len(),
        in_span(time, end) ==> expected.skip(k).to_multiset().count(time) > 0,
    ensures
        not_overtaken(put_out(events), time, end),
{
    if in_span(time, end) {
        expected.skip(k).to_multiset_ensures();
        assert(expected.skip(k).contains(time));
        let b = choose|b: int| 0 <= b < expected.skip(k).len() && expected.skip(k)[b] == time;
        assert forall|p: i64| #[trigger]
            put_out(events).count(p) > 0 && in_span(p, end) implies p <= time by {
            assert(expected.take(k).contains(p));
            let a = choose|a: int| 0 <= a < expected.take(k).len() && expected.take(k)[a] == p;
            assert(expected[a] <= expected[k + b]);
        }
    }
}

proof fn lemma_chunk_went(v: ChunkView, events: Seq<DecodeEvent>, i: int)
    requires
        0 <= i <= events.len(),
        in_step(v, events, 0),
        v.next_expected == 0,
        v.sent == 0 && v.produced == 0 && v.skipped_count == 0,
        chunk_run(v, events) is Ok,
        spares_selected(events, v.wanted),
    ensures
        chunk_run(v, events.take(i)) matches Ok((after, _)) && {
            &&& in_step(after, events, i)
            &&& after.width == v.width
            &&& after.height == v.height
            &&& after.end == v.end
            &&& after.samples == v.samples
            &&& after.wanted == v.wanted
            &&& after.expected == v.expected
            &&& after.produced + after.queue.len() + after.skipped_count + unit_times(
                events,
                i,
            ).len() == unit_times(events, 0).len()
            &&& came_before(events.take(i), v.expected, v.end, after.next_expected)
        },
        goes_in_turn(events.take(i), v.width, v.height, v.end),
    decreases i,
{
    broadcast use vstd::multiset::group_multiset_axioms;

    if i == 0 {
        assert(events.take(0) =~= Seq::<DecodeEvent>::empty());
    } else {
        let k = i - 1;
        lemma_chunk_went(v, events, k);
        lemma_chunk_run_prefix(v, events, i);
        assert(events.take(i).drop_last() =~= events.take(k));
        assert(events.take(i).last() == events[k]);
        let before = chunk_run(v, events.take(k))->Ok_0.0;
        let after = chunk_run(v, events.take(i))->Ok_0.0;
        let keep = |time: i64| in_span(time, v.end);
        lemma_to_come(events, k, v.end);
        match events[k] {
            DecodeEvent::Submit(pts) => {
                if in_span(pts, v.end) {
                    assert(after.queue.filter(keep) =~= before.queue.filter(keep).insert(pts));
                } else {
                    assert(after.queue.filter(keep) =~= before.queue.filter(keep));
                }
                assert(due(after).to_multiset() =~= after.queue.filter(keep).add(
                    after.skipped,
                ).add(to_come(events, i, v.end)));
                lemma_due_not_overtaken(
                    events.take(k),
                    v.expected,
                    v.end,
                    before.next_expected,
                    pts,
                );
            },
            DecodeEvent::Skip(pts) => {
                assert forall|t: i64| #[trigger] after.skipped.count(t) > 0 implies !names(
                    v.wanted,
                    0,
                    v.wanted.len() as int,
                    t,
                ) by {
                    if t != pts {
                        assert(before.skipped.count(t) > 0);
                    }
                }
                assert(due(after).to_multiset() =~= after.queue.filter(keep).add(
                    after.skipped,
                ).add(to_come(events, i, v.end)));
                assert(wanted_to_come(after));
                lemma_due_not_overtaken(
                    events.take(k),
                    v.expected,
                    v.end,
                    before.next_expected,
                    pts,
                );
            },
            DecodeEvent::Picture { width, height } => {
                let pts = least(before.queue);
                lemma_has_least(before.queue);
                let counted = ChunkView {
                    queue: before.queue.remove(pts),
                    produced: before.produced + 1,
                    ..before
                };
                assert(wanted_to_come(counted));
                if !in_span(pts, v.end) {
                    assert(counted.queue.filter(keep) =~= before.queue.filter(keep));
                    assert(in_step(counted, events, i));
                } else {
                    let others = before.queue.filter(keep).add(to_come(events, i, v.end));
                    assert(due(counted).to_multiset() =~= others.add(counted.skipped));
                    lemma_chunk_passed_due(counted, Some(pts), others);
                    let here = passed(counted, Some(pts));
                    lemma_chunk_takes(here, pts);
                    assert(after.queue.filter(keep) =~= before.queue.filter(keep).remove(pts));
                    assert(due(after).to_multiset() =~= after.queue.filter(keep).add(
                        after.skipped,
                    ).add(to_come(events, i, v.end)));
                    assert(in_step(after, events, i));
                    let there = here.next_expected;
                    assert forall|p: i64| #[trigger]
                        put_out(events.take(i)).count(p) > 0 && in_span(
                            p,
                            v.end,
                        ) implies v.expected.take(there + 1).contains(p) by {
                        if p == pts {
                            assert(v.expected.take(there + 1)[there] == p);
                        } else {
                            assert(put_out(events.take(k)).count(p) > 0);
                            let first = v.expected.take(before.next_expected);
                            assert(first.contains(p));
                            let a = choose|a: int| 0 <= a < first.len() && first[a] == p;
                            assert(v.expected.take(there + 1)[a] == p);
                        }
                    }
                }
            },
        }
    }
}

/// A chunk that took in its access units, left none of its selections undecoded and ended well
/// had its pictures put out in presentation order, one of the right size for each access unit
/// that was decoded, and held no more of them than it may.
pub proof fn law_chunk_that_ends_well_went_in_order(
    frame: ChunkFrame,
    pts: Seq<i64>,
    wanted: Seq<Selection>,
    events: Seq<DecodeEvent>,
)
    requires
        frame.samples == pts.len(),
        unit_times(events, 0) == pts,
        wanted_expected(wanted, sorted(kept_times(pts, frame.end))),
        spares_selected(events, wanted),
        ({
            let expected = sorted(kept_times(pts, frame.end));
            &&& chunk_run(opened(frame, expected, wanted), events) is Ok
            &&& finished(chunk_run(opened(frame, expected, wanted), events)->Ok_0.0) is Ok
        }),
    ensures
        in_presentation_order(events, frame.width, frame.height, frame.end),
{
    broadcast use vstd::multiset::group_multiset_axioms;

    let expected = sorted(kept_times(pts, frame.end));
    let v = opened(frame, expected, wanted);
    let keep = |time: i64| in_span(time, v.end);
    lemma_sorted(kept_times(pts, frame.end));
    assert(due(v) =~= expected);
    assert(events.take(0) =~= Seq::<DecodeEvent>::empty());
    assert(v.queue.filter(keep) =~= Multiset::empty());
    assert(due(v).to_multiset() =~= v.queue.filter(keep).add(v.skipped).add(
        to_come(events, 0, v.end),
    ));
    assert forall|s: int| 0 <= s < wanted.len() implies comes_from(
        expected,
        0,
        (#[trigger] wanted[s]).pts,
    ) by {
        assert(expected.contains(wanted[s].pts));
    }
    assert(wanted_to_come(v));
    lemma_chunk_went(v, events, events.len() as int);
    assert(events.take(events.len() as int) =~= events);
    let after = chunk_run(v, events)->Ok_0.0;
    lemma_passed_counts(after, None);
}

proof fn lemma_passed_counts(v: ChunkView, limit: Option<i64>)
    ensures
        passed(v, limit).produced == v.produced,
        passed(v, limit).skipped_count == v.skipped_count,
        passed(v, limit).samples == v.samples,
    decreases v.expected.len() - v.next_expected,
{
    if can_pass(v, limit) {
        lemma_passed_counts(
            ChunkView {
                skipped: v.skipped.remove(v.expected[v.next_expected]),
                next_expected: v.next_expected + 1,
                ..v
            },
            limit,
        );
    }
}

/// A range takes no picture of another size or format, nor one more than it expects.
pub proof fn law_range_takes_fitting_pictures(v: RangeView, pictures: Seq<HevcPicture>, i: int)
    requires
        v.next_expected == 0,
        range_run(v, pictures) is Ok,
        0 <= i < pictures.len(),
    ensures
        pictures[i].width == v.width && pictures[i].height == v.height,
        pictures[i].bit_depth == 8 && pictures[i].chroma_format == 1,
        pictures.len() <= v.expected.len(),
{
    lemma_range_fits(v, pictures);
    assert(picture_fits(v, pictures[i]));
}

proof fn lemma_range_fits(v: RangeView, pictures: Seq<HevcPicture>)
    requires
        v.next_expected == 0,
        range_run(v, pictures) is Ok,
    ensures
        forall|i: int| 0 <= i < pictures.len() ==> picture_fits(v, #[trigger] pictures[i]),
        pictures.len() <= v.expected.len(),
        range_run(v, pictures)->Ok_0.0.next_expected == pictures.len(),
        range_run(v, pictures)->Ok_0.0.expected == v.expected,
        range_run(v, pictures)->Ok_0.0.width == v.width,
        range_run(v, pictures)->Ok_0.0.height == v.height,
    decreases pictures.len(),
{
    if pictures.len() > 0 {
        let earlier = pictures.drop_last();
        lemma_range_fits(v, earlier);
        assert forall|i: int| 0 <= i < pictures.len() implies picture_fits(
            v,
            #[trigger] pictures[i],
        ) by {
            if i < earlier.len() {
                assert(pictures[i] == earlier[i]);
            }
        }
    }
}

/// What a session is refused a picture for comes in this order: that none was submitted, that
/// its size is another, and that its time is not the next one.
pub proof fn law_chunk_refuses_pictures(v: ChunkView, width: usize, height: usize)
    ensures
        v.queue.len() == 0 ==> shown(v, width, height).1 == Err::<Option<Selection>, ChunkError>(
            ChunkError::ExtraPicture,
        ),
        v.queue.len() > 0 && !(width == v.width && height == v.height) ==> shown(
            v,
            width,
            height,
        ).1 == Err::<Option<Selection>, ChunkError>(ChunkError::ResolutionChanged),
        shown(v, width, height).1 matches Err(error) ==> error == ChunkError::ExtraPicture || error
            == ChunkError::ResolutionChanged || error == ChunkError::TimeMismatch,
{
}

/// An access unit of a chunk is left undecoded exactly where leaving out is asked for, it is
/// disposable, and none of the chunk's selections names its time.
pub proof fn law_chunk_leaves_out(
    v: ChunkView,
    skip_nonref: bool,
    pts: i64,
    data: Seq<u8>,
    length_size: nat,
)
    ensures
        unit_skipped(v, skip_nonref, pts, data, length_size) <==> skip_nonref && disposable(
            data,
            length_size,
        ) && forall|s: int|
            0 <= s < v.wanted.len() ==> (#[trigger] v.wanted[s]).pts != pts,
{
}

/// A chunk ends well exactly where, after passing what was skipped, every access unit gave a
/// picture or was left undecoded, every skipped time was passed, and every expected time and
/// every selection was reached. Otherwise the number of pictures is reported first.
pub proof fn law_how_a_chunk_ends(v: ChunkView)
    ensures
        ({
            let w = passed(v, None);
            let counted = w.produced + w.skipped_count == w.samples && w.skipped.len() == 0;
            let complete = w.next_expected == w.expected.len() && w.next_wanted == w.wanted.len();
            &&& finished(v) is Ok <==> counted && complete
            &&& counted && complete ==> finished(v)->Ok_0 == (w.next_wanted, w.skipped_count)
            &&& counted && !complete ==> finished(v) == Err::<(int, int), ChunkError>(
                ChunkError::Incomplete,
            )
            &&& !counted ==> finished(v) == Err::<(int, int), ChunkError>(
                ChunkError::CountMismatch {
                    produced: w.produced as usize,
                    expected: (w.samples - w.skipped_count) as usize,
                },
            )
        }),
{
}

/// A range ends well exactly where every expected time and every selection was reached, and
/// otherwise says how many of each were.
pub proof fn law_how_a_range_ends(v: RangeView)
    ensures
        range_finished(v) is Ok <==> v.next_expected == v.expected.len() && v.next_wanted
            == v.wanted.len(),
        range_finished(v) matches Ok(counts) ==> counts == (v.next_wanted, v.skipped),
        range_finished(v) matches Err(error) ==> error == (RangeError::Incomplete {
            pictures: v.next_expected as usize,
            expected: v.expected.len() as usize,
            selections: v.next_wanted as usize,
            wanted: v.wanted.len() as usize,
        }),
{
}

/// What a range makes of an access unit: it counts it, and counts it as skipped where it is.
pub proof fn law_range_counts_units(v: RangeView, skippable: bool)
    ensures
        range_taken(v, skippable).sent == v.sent + 1,
        range_taken(v, true).skipped == v.skipped + 1,
        range_taken(v, false).skipped == v.skipped,
        range_taken(v, skippable).next_expected == v.next_expected,
        range_taken(v, skippable).next_wanted == v.next_wanted,
        range_taken(v, skippable).wanted == v.wanted && range_taken(v, skippable).expected
            == v.expected,
{
}

} // verus!
