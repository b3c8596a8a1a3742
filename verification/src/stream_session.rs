//! The decoding of a whole H.264 stream by one decoder, as a sequence of decisions: the
//! caller feeds access units to the decoder and reports the pictures that come out.
use std::collections::VecDeque;
use vstd::multiset::Multiset;
use vstd::prelude::*;
use crate::avc_config::{prepare_unit, unit_announced, AvccSets, UnitError};
use crate::chunk_plan::present_all;
use crate::chunk_session::{
    law_contiguous_selections_are_handed_over, law_handed_over_epochs_are_called_in_turn,
};
use crate::nal::{annexb_of, HeaderRule, NalError};
use crate::order::{increasing, lemma_sorted, sorted};
use crate::playback::{
    goes_in_turn, in_presentation_order, lemma_first_due, lemma_first_of, lemma_first_to_come,
    lemma_goes_in_turn, lemma_nothing_to_come, lemma_to_come, not_overtaken, pending, put_out,
    spares_selected, to_come, unit_times, DecodeEvent,
};
use crate::presentation::{
    advanced, can_read, filled, fresh, law_presents_in_order, presentation, read_one,
    readable, within_lookahead, Lookahead, LookaheadError, PresentationTimes, MAX_REORDER,
};
use crate::queue::{least, lemma_has_least, TimeQueue};
use crate::video::{
    count_epochs, disposable, epoch_count, epoch_end, epoch_end_spec, in_span, is_disposable,
    is_in_span, keep_times, kept_times, VideoConfig,
};
use crate::video_parallel::{
    assign_epochs, called_in_turn, epochs_served, following, is_selected,
    law_every_epoch_served_once, names, selections_ascend, selections_of, Selection,
};

verus! {

/// What is fixed for one stream.
#[derive(Clone, Copy, Debug, PartialEq, Eq, Structural)]
pub struct Stream {
    pub width: usize,
    pub height: usize,
    /// How many access units there are.
    pub samples: usize,
    /// Only pictures before this time are presented.
    pub end: u64,
    pub window_ms: u64,
    pub total_epochs: usize,
}

/// Why decoding a stream fails.
#[derive(Debug)]
pub enum SessionError<E> {
    /// H.264 decoder produced no display frames.
    NothingPresented,
    /// The next presentation time is not known.
    Lookahead(LookaheadError<E>),
    /// H.264 reorder queue exceeds 34 pictures.
    QueueFull,
    /// Decoder produced extra picture.
    ExtraPicture,
    /// Midstream H.264 resolution changes unsupported.
    ResolutionChanged,
    /// Decoded PTS disagrees with bounded presentation lookahead.
    TimeMismatch,
    /// H.264 picture count mismatch.
    CountMismatch { produced: usize, expected: usize },
    /// Incomplete H.264 presentation sequence.
    Incomplete,
}

/// Why an access unit is not taken in.
#[derive(Debug)]
pub enum StreamFault<E> {
    /// The session refuses it.
    Session(SessionError<E>),
    /// The decoder must not have it.
    Unit(UnitError),
}

/// What a guide holds.
pub open spec fn guide_view(guide: Option<Vec<Selection>>) -> Option<Seq<Selection>> {
    match guide {
        Some(guide) => Some(guide@),
        None => None,
    }
}

/// An access unit is left undecoded: nothing refers to it and no epoch selects it.
pub open spec fn unit_skipped(
    guide: Option<Seq<Selection>>,
    pts: i64,
    data: Seq<u8>,
    length_size: nat,
) -> bool {
    guide matches Some(guide) && disposable(data, length_size) && !names(
        guide,
        0,
        guide.len() as int,
        pts,
    )
}

/// The epochs from `from` up to `to` are served by the picture at `pts`.
#[derive(Clone, Copy, Debug, PartialEq, Eq, Structural)]
pub struct Service {
    pub pts: i64,
    pub from: usize,
    pub to: usize,
}

/// What a session holds.
pub struct SessionView<E> {
    pub stream: Stream,
    /// Times of the access units whose pictures did not come out yet.
    pub queue: Multiset<i64>,
    /// Times of presented pictures that were skipped and not passed yet.
    pub skipped: Multiset<i64>,
    pub look: Lookahead<E>,
    pub current: Option<i64>,
    pub next: Option<i64>,
    pub epoch: usize,
    pub sent: int,
    pub produced: int,
    pub resized: int,
    pub skipped_count: int,
}

/// The session moves on to the next presentation time.
pub open spec fn stepped<E>(v: SessionView<E>) -> (SessionView<E>, Option<LookaheadError<E>>) {
    let (look, next) = advanced(v.look);
    match next {
        Ok(next) => (SessionView { look, current: v.next, next, ..v }, None),
        Err(error) => (SessionView { look, current: v.next, ..v }, Some(error)),
    }
}

/// The current picture was skipped, and presents before `limit` where there is one.
pub open spec fn can_pass<E>(v: SessionView<E>, limit: Option<i64>) -> bool {
    match v.current {
        Some(time) => (limit matches Some(p) ==> time < p) && v.skipped.count(time) > 0,
        None => false,
    }
}

/// The session moves on past the pictures that were skipped.
pub open spec fn passed<E>(v: SessionView<E>, limit: Option<i64>) -> (
    SessionView<E>,
    Option<LookaheadError<E>>,
)
    decreases v.skipped.len() via passed_ends::<E>
{
    if can_pass(v, limit) {
        let time = v.current->Some_0;
        let (after, error) = stepped(SessionView { skipped: v.skipped.remove(time), ..v });
        if error is Some {
            (after, error)
        } else {
            passed(after, limit)
        }
    } else {
        (v, None)
    }
}

#[via_fn]
proof fn passed_ends<E>(v: SessionView<E>, limit: Option<i64>) {
    broadcast use vstd::multiset::group_multiset_axioms;

}

/// An access unit at `pts` goes to the decoder.
pub open spec fn submitted<E>(v: SessionView<E>, pts: i64) -> SessionView<E> {
    SessionView { queue: v.queue.insert(pts), sent: v.sent + 1, ..v }
}

/// An access unit at `pts` is left undecoded.
pub open spec fn left_out<E>(v: SessionView<E>, pts: i64) -> SessionView<E> {
    SessionView {
        skipped: if in_span(pts, v.stream.end) {
            v.skipped.insert(pts)
        } else {
            v.skipped
        },
        sent: v.sent + 1,
        skipped_count: v.skipped_count + 1,
        ..v
    }
}

/// What the picture at the current time serves.
pub open spec fn served<E>(v: SessionView<E>, pts: i64) -> (SessionView<E>, Service) {
    let end = epoch_end_spec(pts, v.next, v.stream.window_ms, v.stream.total_epochs);
    if v.epoch < end {
        (
            SessionView { epoch: end, resized: v.resized + 1, ..v },
            Service { pts, from: v.epoch, to: end },
        )
    } else {
        (v, Service { pts, from: v.epoch, to: v.epoch })
    }
}

/// A picture came out of the decoder.
pub open spec fn shown<E>(v: SessionView<E>, width: usize, height: usize) -> (
    SessionView<E>,
    Result<Option<Service>, SessionError<E>>,
) {
    if v.queue.len() == 0 {
        (v, Err(SessionError::ExtraPicture))
    } else {
        let pts = least(v.queue);
        let counted = SessionView { queue: v.queue.remove(pts), produced: v.produced + 1, ..v };
        if width != v.stream.width || height != v.stream.height {
            (counted, Err(SessionError::ResolutionChanged))
        } else if !in_span(pts, v.stream.end) {
            (counted, Ok(None))
        } else {
            let (here, error) = passed(counted, Some(pts));
            match error {
                Some(error) => (here, Err(SessionError::Lookahead(error))),
                None => if here.current != Some(pts) {
                    (here, Err(SessionError::TimeMismatch))
                } else {
                    let (after, service) = served(here, pts);
                    (after, Ok(Some(service)))
                },
            }
        }
    }
}

/// How decoding ended.
pub open spec fn finished<E>(v: SessionView<E>) -> Result<(int, int), SessionError<E>> {
    let (here, error) = passed(v, None);
    if let Some(error) = error {
        Err(SessionError::Lookahead(error))
    } else if here.produced + here.skipped_count != here.stream.samples || here.skipped.len() > 0 {
        Err(
            SessionError::CountMismatch {
                produced: here.produced as usize,
                expected: (here.stream.samples - here.skipped_count) as usize,
            },
        )
    } else if here.current is Some || here.epoch != here.stream.total_epochs {
        Err(SessionError::Incomplete)
    } else {
        Ok((here.resized, here.skipped_count))
    }
}

/// Every time that can still come lies before `end`.
pub open spec fn times_inside<E>(v: SessionView<E>) -> bool {
    &&& forall|i: int|
        0 <= i < v.look.waiting.len() ==> (#[trigger] v.look.waiting[i] matches Ok(time)
            ==> in_span(time, v.stream.end))
    &&& forall|time: i64| #[trigger]
        v.look.held.count(time) > 0 ==> in_span(time, v.stream.end)
    &&& v.current matches Some(time) ==> in_span(time, v.stream.end)
    &&& v.next matches Some(time) ==> in_span(time, v.stream.end)
}

/// The counters agree with each other.
pub open spec fn counts_agree<E>(v: SessionView<E>) -> bool {
    &&& v.stream.window_ms > 0
    &&& v.produced + v.queue.len() + v.skipped_count == v.sent <= v.stream.samples
    &&& 0 <= v.resized <= v.produced
    &&& 0 <= v.skipped_count
}

/// The source of a lookahead without the times that are not presented.
pub open spec fn presented_source<E>(source: Seq<Result<i64, E>>, end: u64) -> Seq<
    Result<i64, E>,
> {
    source.filter(|item: Result<i64, E>| item matches Ok(time) ==> in_span(time, end))
}

/// A session before its first picture.
pub open spec fn opened<E>(stream: Stream, source: Seq<Result<i64, E>>) -> Result<
    SessionView<E>,
    SessionError<E>,
> {
    let look = Lookahead {
        waiting: presented_source(source, stream.end),
        held: Multiset::empty(),
        previous: None,
    };
    let (one, current) = advanced(look);
    match current {
        Err(error) => Err(SessionError::Lookahead(error)),
        Ok(None) => Err(SessionError::NothingPresented),
        Ok(Some(time)) => {
            let (two, next) = advanced(one);
            match next {
                Err(error) => Err(SessionError::Lookahead(error)),
                Ok(next) => Ok(
                    SessionView {
                        stream,
                        queue: Multiset::empty(),
                        skipped: Multiset::empty(),
                        look: two,
                        current: Some(time),
                        next,
                        epoch: 0,
                        sent: 0,
                        produced: 0,
                        resized: 0,
                        skipped_count: 0,
                    },
                ),
            }
        },
    }
}

/// Times inside the span, before and after the lookahead moves on.
spec fn look_inside<E>(l: Lookahead<E>, end: u64) -> bool {
    &&& forall|i: int|
        0 <= i < l.waiting.len() ==> (#[trigger] l.waiting[i] matches Ok(time) ==> in_span(
            time,
            end,
        ))
    &&& forall|time: i64| #[trigger] l.held.count(time) > 0 ==> in_span(time, end)
}

proof fn lemma_filled_inside<E>(l: Lookahead<E>, end: u64)
    requires
        look_inside(l, end),
    ensures
        look_inside(filled(l), end),
    decreases l.waiting.len(),
{
    broadcast use vstd::multiset::group_multiset_axioms;

    if can_read(l) {
        let after = read_one(l);
        let first = l.waiting[0];
        assert forall|i: int| 0 <= i < after.waiting.len() implies (
        #[trigger] after.waiting[i] matches Ok(time) ==> in_span(time, end)) by {
            assert(after.waiting[i] == l.waiting[i + 1]);
        }
        assert forall|time: i64| #[trigger] after.held.count(time) > 0 implies in_span(
            time,
            end,
        ) by {
            if time != first->Ok_0 {
                assert(l.held.count(time) > 0);
            }
        }
        lemma_filled_inside(after, end);
    }
}

proof fn lemma_advanced_inside<E>(l: Lookahead<E>, end: u64)
    requires
        look_inside(l, end),
    ensures
        look_inside(advanced(l).0, end),
        advanced(l).1 matches Ok(Some(time)) ==> in_span(time, end),
{
    broadcast use vstd::multiset::group_multiset_axioms;

    lemma_filled_inside(l, end);
    let full = filled(l);
    let after = advanced(l).0;
    if full.held.len() > 0 {
        lemma_has_least(full.held);
        assert(full.held.count(least(full.held)) > 0);
    }
    assert forall|i: int| 0 <= i < after.waiting.len() implies (
    #[trigger] after.waiting[i] matches Ok(time) ==> in_span(time, end)) by {
        if after.waiting.len() < full.waiting.len() {
            assert(after.waiting[i] == full.waiting[i + 1]);
        } else {
            assert(after.waiting[i] == full.waiting[i]);
        }
    }
    assert forall|time: i64| #[trigger] after.held.count(time) > 0 implies in_span(time, end) by {
        assert(full.held.count(time) > 0);
    }
}

/// One decoder decoding a whole stream.
pub struct StreamSession<E> {
    stream: Stream,
    queue: TimeQueue,
    skipped: TimeQueue,
    presentation: PresentationTimes<E>,
    current: Option<i64>,
    next: Option<i64>,
    epoch: usize,
    sent: usize,
    produced: usize,
    resized: usize,
    skipped_count: usize,
}

impl<E> View for StreamSession<E> {
    type V = SessionView<E>;

    closed spec fn view(&self) -> SessionView<E> {
        SessionView {
            stream: self.stream,
            queue: self.queue@,
            skipped: self.skipped@,
            look: self.presentation@,
            current: self.current,
            next: self.next,
            epoch: self.epoch,
            sent: self.sent as int,
            produced: self.produced as int,
            resized: self.resized as int,
            skipped_count: self.skipped_count as int,
        }
    }
}

/// Drops the times that are not presented from a source.
fn filter_source<E>(source: VecDeque<Result<i64, E>>, end: u64) -> (kept: VecDeque<Result<i64, E>>)
    ensures
        kept@ == presented_source(source@, end),
{
    let ghost keep = |item: Result<i64, E>| item matches Ok(time) ==> in_span(time, end);
    let ghost all = source@;
    let mut source = source;
    let mut kept: VecDeque<Result<i64, E>> = VecDeque::new();
    proof {
        reveal(Seq::filter);
        assert(all.take(0).filter(keep) =~= Seq::<Result<i64, E>>::empty());
        assert(source@ =~= all.skip(0));
    }
    let ghost mut done: int = 0;
    while source.len() > 0
        invariant
            0 <= done <= all.len(),
            source@ == all.skip(done),
            keep == (|item: Result<i64, E>| item matches Ok(time) ==> in_span(time, end)),
            kept@ == all.take(done).filter(keep),
        decreases source@.len(),
    {
        proof {
            reveal(Seq::filter);
            assert(all.take(done + 1).drop_last() =~= all.take(done));
            assert(all.take(done + 1).last() == all[done]);
            assert(source@[0] == all[done]);
        }
        match source.pop_front() {
            Some(Ok(time)) => {
                if is_in_span(time, end) {
                    kept.push_back(Ok(time));
                }
            },
            Some(Err(error)) => {
                kept.push_back(Err(error));
            },
            None => {},
        }
        proof {
            done = done + 1;
            assert(source@ =~= all.skip(done));
        }
    }
    assert(all.take(done) =~= all);
    kept
}

impl<E> StreamSession<E> {
    /// Every time that can still come is presented, and the counters agree.
    pub open spec fn valid(&self) -> bool {
        times_inside(self@) && counts_agree(self@)
    }

    /// Opens a session on the presentation times of a stream in decode order. A source item
    /// that is an error is reported when the lookahead comes to it.
    pub fn new(stream: Stream, source: VecDeque<Result<i64, E>>) -> (session: Result<
        Self,
        SessionError<E>,
    >)
        requires
            stream.window_ms > 0,
        ensures
            match session {
                Ok(session) => session.valid() && opened(stream, source@) == Ok::<
                    SessionView<E>,
                    SessionError<E>,
                >(session@),
                Err(error) => opened(stream, source@) == Err::<SessionView<E>, SessionError<E>>(
                    error,
                ),
            },
    {
        let mut presentation = PresentationTimes::new(filter_source(source, stream.end));
        proof {
            let start = presentation@;
            let keep = |item: Result<i64, E>|
                item matches Ok(time) ==> in_span(time, stream.end);
            assert forall|i: int| 0 <= i < start.waiting.len() implies (
            #[trigger] start.waiting[i] matches Ok(time) ==> in_span(time, stream.end)) by {
                source@.lemma_filter_pred(keep, i);
            }
            broadcast use vstd::multiset::group_multiset_axioms;

            assert(look_inside(start, stream.end));
            lemma_advanced_inside(start, stream.end);
            lemma_advanced_inside(advanced(start).0, stream.end);
        }
        let current = match presentation.next_pts() {
            Ok(current) => current,
            Err(error) => {
                return Err(SessionError::Lookahead(error));
            },
        };
        if current.is_none() {
            return Err(SessionError::NothingPresented);
        }
        let next = match presentation.next_pts() {
            Ok(next) => next,
            Err(error) => {
                return Err(SessionError::Lookahead(error));
            },
        };
        Ok(
            StreamSession {
                stream,
                queue: TimeQueue::new(),
                skipped: TimeQueue::new(),
                presentation,
                current,
                next,
                epoch: 0,
                sent: 0,
                produced: 0,
                resized: 0,
                skipped_count: 0,
            },
        )
    }

    /// Notes that the access unit at `pts` goes to the decoder.
    pub fn submit(&mut self, pts: i64) -> (res: Result<(), SessionError<E>>)
        requires
            old(self).valid(),
            old(self)@.sent < old(self)@.stream.samples,
        ensures
            final(self).valid(),
            final(self)@ == submitted(old(self)@, pts),
            res == if final(self)@.queue.len() <= MAX_REORDER {
                Ok::<(), SessionError<E>>(())
            } else {
                Err(SessionError::QueueFull)
            },
    {
        self.queue.push(pts);
        self.sent += 1;
        if self.queue.len() > MAX_REORDER {
            return Err(SessionError::QueueFull);
        }
        Ok(())
    }

    /// Notes that the access unit at `pts` is left undecoded.
    pub fn skip(&mut self, pts: i64)
        requires
            old(self).valid(),
            old(self)@.sent < old(self)@.stream.samples,
        ensures
            final(self).valid(),
            final(self)@ == left_out(old(self)@, pts),
    {
        if is_in_span(pts, self.stream.end) {
            self.skipped.push(pts);
        }
        self.sent += 1;
        self.skipped_count += 1;
    }

    /// Takes in the next access unit. Gives the stream to hand to the decoder, or nothing where
    /// the unit is left undecoded.
    pub fn take_unit(
        &mut self,
        guide: &Option<Vec<Selection>>,
        sets: &AvccSets,
        pts: i64,
        data: &[u8],
    ) -> (res: Result<Option<Vec<u8>>, StreamFault<E>>)
        requires
            old(self).valid(),
            old(self)@.sent < old(self)@.stream.samples,
            guide matches Some(guide) ==> selections_ascend(guide@),
            sets.length_size == 1 || sets.length_size == 2 || sets.length_size == 4,
        ensures
            final(self).valid(),
            unit_skipped(guide_view(*guide), pts, data@, sets.length_size as nat) ==> res == Ok::<
                Option<Vec<u8>>,
                StreamFault<E>,
            >(None) && final(self)@ == left_out(old(self)@, pts),
            !unit_skipped(guide_view(*guide), pts, data@, sets.length_size as nat) ==> {
                &&& final(self)@ == submitted(old(self)@, pts)
                &&& match res {
                    Ok(None) => false,
                    Ok(Some(out)) => final(self)@.queue.len() <= MAX_REORDER && annexb_of(
                        data@,
                        sets.length_size as nat,
                        HeaderRule::Avc,
                    ) == Ok::<Seq<u8>, NalError>(out@) && unit_announced(data@, *sets),
                    Err(StreamFault::Session(error)) => final(self)@.queue.len() > MAX_REORDER
                        && error == SessionError::<E>::QueueFull,
                    Err(StreamFault::Unit(UnitError::Malformed(fault))) => final(self)@.queue.len()
                        <= MAX_REORDER && annexb_of(
                        data@,
                        sets.length_size as nat,
                        HeaderRule::Avc,
                    ) == Err::<Seq<u8>, NalError>(fault),
                    Err(StreamFault::Unit(UnitError::SetsChanged)) => final(self)@.queue.len()
                        <= MAX_REORDER && annexb_of(
                        data@,
                        sets.length_size as nat,
                        HeaderRule::Avc,
                    ) is Ok && !unit_announced(data@, *sets),
                }
            },
    {
        if may_skip(guide, pts, data, sets.length_size) {
            self.skip(pts);
            return Ok(None);
        }
        match self.submit(pts) {
            Ok(()) => {},
            Err(error) => {
                return Err(StreamFault::Session(error));
            },
        }
        match prepare_unit(data, sets) {
            Ok(out) => Ok(Some(out)),
            Err(error) => Err(StreamFault::Unit(error)),
        }
    }

    /// Moves on to the next presentation time.
    pub fn advance(&mut self) -> (res: Result<(), SessionError<E>>)
        requires
            old(self).valid(),
        ensures
            final(self).valid(),
            final(self)@ == stepped(old(self)@).0,
            res == match stepped(old(self)@).1 {
                None => Ok::<(), SessionError<E>>(()),
                Some(error) => Err(SessionError::Lookahead(error)),
            },
    {
        proof {
            lemma_advanced_inside(self@.look, self@.stream.end);
        }
        self.current = self.next;
        match self.presentation.next_pts() {
            Ok(next) => {
                self.next = next;
                Ok(())
            },
            Err(error) => Err(SessionError::Lookahead(error)),
        }
    }

    /// Moves on past the pictures that were skipped.
    fn pass(&mut self, limit: Option<i64>) -> (res: Result<(), SessionError<E>>)
        requires
            old(self).valid(),
        ensures
            final(self).valid(),
            final(self)@ == passed(old(self)@, limit).0,
            res == match passed(old(self)@, limit).1 {
                None => Ok::<(), SessionError<E>>(()),
                Some(error) => Err(SessionError::Lookahead(error)),
            },
    {
        broadcast use vstd::multiset::group_multiset_axioms;

        let ghost start = self@;
        loop
            invariant
                self.valid(),
                start == old(self)@,
                passed(self@, limit) == passed(start, limit),
            decreases self.skipped@.len(),
        {
            let ghost before = self@;
            let early: Option<i64> = match (self.current, limit) {
                (Some(time), Some(p)) => if time < p {
                    Some(time)
                } else {
                    None
                },
                (Some(time), None) => Some(time),
                _ => None,
            };
            match early {
                Some(time) => {
                    if self.skipped.take(time) {
                        let ghost taken = self@;
                        assert(taken == SessionView { skipped: before.skipped.remove(time), ..before });
                        assert(can_pass(before, limit));
                        match self.advance() {
                            Ok(()) => {},
                            Err(error) => {
                                return Err(error);
                            },
                        }
                    } else {
                        return Ok(());
                    }
                },
                None => {
                    return Ok(());
                },
            }
        }
    }

    /// Takes note of a picture that came out of the decoder, and says which epochs it serves.
    /// For a picture that is presented the caller serves them, then calls `advance`.
    pub fn picture(&mut self, width: usize, height: usize) -> (res: Result<
        Option<Service>,
        SessionError<E>,
    >)
        requires
            old(self).valid(),
        ensures
            final(self).valid(),
            (final(self)@, res) == shown(old(self)@, width, height),
    {
        let ghost before = self@;
        let pts: i64 = match self.queue.pop() {
            Some(pts) => pts,
            None => {
                return Err(SessionError::ExtraPicture);
            },
        };
        self.produced += 1;
        if width != self.stream.width || height != self.stream.height {
            return Err(SessionError::ResolutionChanged);
        }
        if !is_in_span(pts, self.stream.end) {
            return Ok(None);
        }
        let ghost counted = self@;
        assert(counted == SessionView {
            queue: before.queue.remove(pts),
            produced: before.produced + 1,
            ..before
        });
        match self.pass(Some(pts)) {
            Ok(()) => {},
            Err(error) => {
                return Err(error);
            },
        }
        proof {
            lemma_passed_keeps(counted, Some(pts));
        }
        let ghost here = self@;
        match self.current {
            Some(current) => {
                if current != pts {
                    return Err(SessionError::TimeMismatch);
                }
            },
            None => {
                return Err(SessionError::TimeMismatch);
            },
        }
        let end: usize = epoch_end(
            pts,
            self.next,
            self.stream.window_ms,
            self.stream.total_epochs,
        );
        let from: usize = self.epoch;
        if from < end {
            self.resized += 1;
            self.epoch = end;
            assert(self@ == served(here, pts).0);
            Ok(Some(Service { pts, from, to: end }))
        } else {
            Ok(Some(Service { pts, from, to: from }))
        }
    }

    /// Ends the session once the decoder has no picture left. Gives how many pictures were
    /// resized and how many access units were skipped.
    pub fn finish(self) -> (res: Result<(usize, usize), SessionError<E>>)
        requires
            self.valid(),
        ensures
            match res {
                Ok((resized, skipped)) => finished(self@) == Ok::<(int, int), SessionError<E>>(
                    (resized as int, skipped as int),
                ),
                Err(error) => finished(self@) == Err::<(int, int), SessionError<E>>(error),
            },
    {
        let mut session = self;
        match session.pass(None) {
            Ok(()) => {},
            Err(error) => {
                return Err(error);
            },
        }
        proof {
            lemma_passed_keeps(self@, None);
        }
        let produced: usize = session.produced;
        let expected: usize = session.stream.samples - session.skipped_count;
        if produced != expected || session.skipped.len() > 0 {
            return Err(SessionError::CountMismatch { produced, expected });
        }
        if session.current.is_some() || session.epoch != session.stream.total_epochs {
            return Err(SessionError::Incomplete);
        }
        Ok((session.resized, session.skipped_count))
    }
}

/// Passing skipped pictures changes nothing but the lookahead.
proof fn lemma_passed_keeps<E>(v: SessionView<E>, limit: Option<i64>)
    ensures
        ({
            let w = passed(v, limit).0;
            &&& w.stream == v.stream
            &&& w.queue == v.queue
            &&& w.epoch == v.epoch
            &&& w.sent == v.sent
            &&& w.produced == v.produced
            &&& w.resized == v.resized
            &&& w.skipped_count == v.skipped_count
        }),
    decreases v.skipped.len(),
{
    broadcast use vstd::multiset::group_multiset_axioms;

    if can_pass(v, limit) {
        let time = v.current->Some_0;
        let (after, error) = stepped(SessionView { skipped: v.skipped.remove(time), ..v });
        if error is None {
            lemma_passed_keeps(after, limit);
        }
    }
}

/// The selections that decide which access units may be left undecoded, where any may: the
/// pictures must be in an order that the lookahead can restore.
pub open spec fn skip_guide(
    pts: Seq<i64>,
    end: u64,
    duration_ms: u64,
    config: VideoConfig,
) -> Option<Seq<Selection>> {
    let kept = kept_times(pts, end);
    if config.skip_nonref && within_lookahead(kept) {
        let presented = sorted(kept);
        let total = epoch_count(duration_ms, config.audio_duration_ms, config.window_ms);
        Some(selections_of(presented, config.window_ms, total, presented.len()))
    } else {
        None
    }
}

/// The selections that decide which access units may be left undecoded, where any may.
pub fn guide_skips(pts: &Vec<i64>, end: u64, duration_ms: u64, config: &VideoConfig) -> (guide:
    Option<Vec<Selection>>)
    requires
        config.window_ms > 0,
    ensures
        match guide {
            Some(guide) => skip_guide(pts@, end, duration_ms, *config) == Some(guide@)
                && selections_ascend(guide@),
            None => skip_guide(pts@, end, duration_ms, *config) is None,
        },
{
    if !config.skip_nonref {
        return None;
    }
    let count: usize = pts.len();
    let kept = keep_times(pts, 0, count, end);
    assert(pts@.subrange(0, count as int) =~= pts@);
    match present_all(&kept) {
        None => None,
        Some(presented) => {
            let total: usize = count_epochs(
                duration_ms,
                config.audio_duration_ms,
                config.window_ms,
            );
            proof {
                crate::chunk_plan::lemma_kept_steps(pts@, end, config.window_ms);
                lemma_sorted(kept@);
                lemma_selections_in_order(presented@, config.window_ms, total, presented@.len());
            }
            Some(assign_epochs(presented.as_slice(), config.window_ms, total))
        },
    }
}

/// Whether the access unit at `pts` may be left undecoded: nothing refers to it and no epoch
/// selects it.
pub fn may_skip(guide: &Option<Vec<Selection>>, pts: i64, data: &[u8], length_size: usize) -> (skip:
    bool)
    requires
        guide matches Some(guide) ==> selections_ascend(guide@),
    ensures
        skip == unit_skipped(guide_view(*guide), pts, data@, length_size as nat),
{
    match guide {
        None => false,
        Some(guide) => is_disposable(data, length_size) && !is_selected(
            guide,
            0,
            guide.len(),
            pts,
        ),
    }
}

proof fn lemma_selections_in_order(presented: Seq<i64>, window_ms: u64, total: usize, count: nat)
    requires
        count <= presented.len(),
        increasing(presented),
    ensures
        ({
            let selections = selections_of(presented, window_ms, total, count);
            &&& selections_ascend(selections)
            &&& forall|i: int|
                0 <= i < selections.len() ==> count > 0 && (#[trigger] selections[i]).pts
                    <= presented[count - 1]
        }),
    decreases count,
{
    if count > 0 {
        lemma_selections_in_order(presented, window_ms, total, (count - 1) as nat);
        let earlier = selections_of(presented, window_ms, total, (count - 1) as nat);
        let selections = selections_of(presented, window_ms, total, count);
        assert forall|i: int| 0 <= i < earlier.len() implies (#[trigger] earlier[i]).pts
            <= presented[count - 1] by {
            assert(presented[count - 2] <= presented[count - 1]);
        }
        assert forall|i: int| 0 <= i < selections.len() implies (#[trigger] selections[i]).pts
            <= presented[count - 1] by {
            if i < earlier.len() {
                assert(selections[i] == earlier[i]);
            }
        }
        assert forall|i: int, j: int| 0 <= i < j < selections.len() implies selections[i].pts
            <= selections[j].pts by {
            assert(selections[i] == earlier[i]);
            if j < earlier.len() {
                assert(selections[j] == earlier[j]);
            }
        }
    }
}

/// The picture at place `k`, where there is one.
pub open spec fn at(presented: Seq<i64>, k: int) -> Option<i64> {
    if 0 <= k < presented.len() {
        Some(presented[k])
    } else {
        None
    }
}

/// The session has come to picture `k` of the presentation order of `times`, and the epochs
/// that it has served are those that the pictures before it are selected for.
pub open spec fn follows<E>(v: SessionView<E>, times: Seq<i64>, k: int) -> bool {
    let presented = sorted(times);
    let seen = if k + 2 <= presented.len() {
        k + 2
    } else {
        presented.len() as int
    };
    &&& 0 <= k <= presented.len()
    &&& v.current == at(presented, k)
    &&& v.next == at(presented, k + 1)
    &&& presentation(v.look) == Ok::<Seq<i64>, LookaheadError<E>>(presented.skip(seen))
    &&& v.epoch == epochs_served(
        selections_of(presented, v.stream.window_ms, v.stream.total_epochs, k as nat),
    )
}

proof fn lemma_source_of_readable<E>(pts: Seq<i64>, end: u64)
    ensures
        presented_source(readable::<E>(pts), end) == readable::<E>(kept_times(pts, end)),
    decreases pts.len(),
{
    reveal(Seq::filter);
    let source = readable::<E>(pts);
    if pts.len() == 0 {
        assert(presented_source(source, end) =~= readable::<E>(kept_times(pts, end)));
    } else {
        lemma_source_of_readable::<E>(pts.drop_last(), end);
        assert(source.drop_last() =~= readable::<E>(pts.drop_last()));
        assert(source.last() == Ok::<i64, E>(pts.last()));
        let kept = kept_times(pts.drop_last(), end);
        assert(readable::<E>(kept.push(pts.last())) =~= readable::<E>(kept).push(
            Ok::<i64, E>(pts.last()),
        ));
    }
}

proof fn lemma_next_of<E>(l: Lookahead<E>, rest: Seq<i64>)
    requires
        presentation(l) == Ok::<Seq<i64>, LookaheadError<E>>(rest),
    ensures
        advanced(l).1 == Ok::<Option<i64>, LookaheadError<E>>(at(rest, 0)),
        rest.len() > 0 ==> presentation(advanced(l).0) == Ok::<Seq<i64>, LookaheadError<E>>(
            rest.skip(1),
        ),
        rest.len() == 0 ==> presentation(advanced(l).0) == Ok::<Seq<i64>, LookaheadError<E>>(rest),
{
    let (after, next) = advanced(l);
    match next {
        Ok(Some(time)) => {
            let tail = presentation(after)->Ok_0;
            assert(rest =~= seq![time] + tail);
            assert(rest.skip(1) =~= tail);
        },
        Ok(None) => {
            let full = filled(l);
            assert(after.waiting == full.waiting && after.held == full.held);
            assert(!can_read(full)) by {
                lemma_filled_full(l);
            }
            assert(filled(after) == after);
            assert(advanced(after).1 == Ok::<Option<i64>, LookaheadError<E>>(None));
            assert(rest =~= Seq::<i64>::empty());
        },
        Err(_) => {},
    }
}

proof fn lemma_filled_full<E>(l: Lookahead<E>)
    ensures
        !can_read(filled(l)),
    decreases l.waiting.len(),
{
    if can_read(l) {
        lemma_filled_full(read_one(l));
    }
}

/// A session opens exactly where some picture is presented and the lookahead can put the
/// first ones in order, and it then stands at the first picture.
pub proof fn law_session_opens_at_first_picture<E>(stream: Stream, pts: Seq<i64>)
    requires
        within_lookahead(kept_times(pts, stream.end)),
    ensures
        match opened(stream, readable::<E>(pts)) {
            Ok(v) => kept_times(pts, stream.end).len() > 0 && follows(
                v,
                kept_times(pts, stream.end),
                0,
            ),
            Err(error) => kept_times(pts, stream.end).len() == 0 && error
                == SessionError::<E>::NothingPresented,
        },
{
    let times = kept_times(pts, stream.end);
    let presented = sorted(times);
    lemma_source_of_readable::<E>(pts, stream.end);
    law_presents_in_order::<E>(times);
    let all = presentation(fresh::<E>(times))->Ok_0;
    crate::order::lemma_sorted_unique(times, all);
    lemma_sorted(times);
    lemma_next_of(fresh::<E>(times), presented);
    if presented.len() > 0 {
        let one = advanced(fresh::<E>(times)).0;
        lemma_next_of(one, presented.skip(1));
        if presented.len() > 1 {
            assert(presented.skip(1).skip(1) =~= presented.skip(2));
        }
        assert(at(presented.skip(1), 0) == at(presented, 1));
    }
}

/// Picture by picture, one decoder serves what the selections of the whole presentation
/// order say: a picture that serves epochs is the next selection, one that serves none is
/// not selected, and the session moves on to the next picture.
pub proof fn law_served_picture_is_next_selection<E>(v: SessionView<E>, times: Seq<i64>, k: int)
    requires
        follows(v, times, k),
        k < sorted(times).len(),
    ensures
        ({
            let presented = sorted(times);
            let (after, service) = served(v, presented[k]);
            let before = selections_of(
                presented,
                v.stream.window_ms,
                v.stream.total_epochs,
                k as nat,
            );
            &&& selections_of(
                presented,
                v.stream.window_ms,
                v.stream.total_epochs,
                (k + 1) as nat,
            ) == if service.from < service.to {
                before.push(Selection { pts: service.pts, epochs: (service.from, service.to) })
            } else {
                before
            }
            &&& stepped(after).1 is None
            &&& follows(stepped(after).0, times, k + 1)
        }),
{
    let presented = sorted(times);
    let after = served(v, presented[k]).0;
    assert(v.next == following(presented, k));
    lemma_stepped_moves(v, after, times, k);
}

proof fn lemma_stepped_moves<E>(v: SessionView<E>, after: SessionView<E>, times: Seq<i64>, k: int)
    requires
        follows(v, times, k),
        k < sorted(times).len(),
        after.look == v.look,
        after.current == v.current,
        after.next == v.next,
        after.stream == v.stream,
    ensures
        stepped(after).1 is None,
        stepped(after).0.stream == v.stream,
        stepped(after).0.epoch == after.epoch,
        stepped(after).0.current == at(sorted(times), k + 1),
        stepped(after).0.next == at(sorted(times), k + 2),
        presentation(stepped(after).0.look) == Ok::<Seq<i64>, LookaheadError<E>>(
            sorted(times).skip(
                if k + 3 <= sorted(times).len() {
                    k + 3
                } else {
                    sorted(times).len() as int
                },
            ),
        ),
{
    let presented = sorted(times);
    if k + 2 < presented.len() {
        lemma_next_of(v.look, presented.skip(k + 2));
        assert(presented.skip(k + 2).skip(1) =~= presented.skip(k + 3));
    } else {
        let rest = presented.skip(
            if k + 2 <= presented.len() {
                k + 2
            } else {
                presented.len() as int
            },
        );
        assert(rest =~= Seq::<i64>::empty());
        assert(presented.skip(presented.len() as int) =~= rest);
        lemma_next_of(v.look, rest);
    }
}

/// Leaving a picture undecoded that no epoch selects changes nothing of what is served: the
/// session moves past it to the next picture with the same epochs to its credit.
pub proof fn law_unselected_picture_can_be_passed<E>(v: SessionView<E>, times: Seq<i64>, k: int)
    requires
        follows(v, times, k),
        k < sorted(times).len(),
        !names(
            selections_of(
                sorted(times),
                v.stream.window_ms,
                v.stream.total_epochs,
                sorted(times).len(),
            ),
            0,
            selections_of(
                sorted(times),
                v.stream.window_ms,
                v.stream.total_epochs,
                sorted(times).len(),
            ).len() as int,
            sorted(times)[k],
        ),
    ensures
        stepped(v).1 is None,
        follows(stepped(v).0, times, k + 1),
        stepped(v).0.epoch == v.epoch,
        selections_of(
            sorted(times),
            v.stream.window_ms,
            v.stream.total_epochs,
            (k + 1) as nat,
        ) == selections_of(sorted(times), v.stream.window_ms, v.stream.total_epochs, k as nat),
{
    let presented = sorted(times);
    let window = v.stream.window_ms;
    let total = v.stream.total_epochs;
    lemma_stepped_moves(v, v, times, k);
    let before = selections_of(presented, window, total, k as nat);
    let through = selections_of(presented, window, total, (k + 1) as nat);
    let all = selections_of(presented, window, total, presented.len());
    if through != before {
        lemma_selections_prefix(presented, window, total, (k + 1) as nat, presented.len());
        let s = before.len() as int;
        assert(through[s].pts == presented[k]);
        assert(all[s] == through[s]);
        assert(names(all, 0, all.len() as int, presented[k]));
    }
}

proof fn lemma_selections_prefix(
    presented: Seq<i64>,
    window_ms: u64,
    total: usize,
    a: nat,
    b: nat,
)
    requires
        a <= b,
    ensures
        ({
            let first = selections_of(presented, window_ms, total, a);
            let all = selections_of(presented, window_ms, total, b);
            &&& first.len() <= all.len()
            &&& forall|i: int| 0 <= i < first.len() ==> #[trigger] all[i] == first[i]
        }),
    decreases b,
{
    if a < b {
        lemma_selections_prefix(presented, window_ms, total, a, (b - 1) as nat);
    }
}

/// What is served from picture `k` on when every picture comes out in presentation order.
pub open spec fn serve_all<E>(v: SessionView<E>, presented: Seq<i64>, k: int) -> Seq<Selection>
    decreases presented.len() - k,
{
    if k < 0 || k >= presented.len() {
        Seq::empty()
    } else {
        let (after, service) = served(v, presented[k]);
        let rest = serve_all(stepped(after).0, presented, k + 1);
        if service.from < service.to {
            seq![Selection { pts: service.pts, epochs: (service.from, service.to) }] + rest
        } else {
            rest
        }
    }
}

proof fn lemma_serve_all<E>(v: SessionView<E>, times: Seq<i64>, k: int)
    requires
        follows(v, times, k),
    ensures
        ({
            let presented = sorted(times);
            selections_of(
                presented,
                v.stream.window_ms,
                v.stream.total_epochs,
                presented.len(),
            ) == selections_of(presented, v.stream.window_ms, v.stream.total_epochs, k as nat)
                + serve_all(v, presented, k)
        }),
    decreases sorted(times).len() - k,
{
    let presented = sorted(times);
    let before = selections_of(presented, v.stream.window_ms, v.stream.total_epochs, k as nat);
    if k < presented.len() {
        law_served_picture_is_next_selection(v, times, k);
        let (after, service) = served(v, presented[k]);
        let next = stepped(after).0;
        lemma_serve_all(next, times, k + 1);
        let rest = serve_all(next, presented, k + 1);
        if service.from < service.to {
            let selection = Selection { pts: service.pts, epochs: (service.from, service.to) };
            assert(before.push(selection) + rest =~= before + (seq![selection] + rest));
        }
    } else {
        assert(before + serve_all(v, presented, k) =~= before);
    }
}

/// One decoder whose pictures come out in presentation order serves exactly the selections
/// that are computed from the container's times alone, in their order.
pub proof fn law_one_decoder_serves_the_selections<E>(stream: Stream, pts: Seq<i64>)
    requires
        within_lookahead(kept_times(pts, stream.end)),
        kept_times(pts, stream.end).len() > 0,
    ensures
        ({
            let presented = sorted(kept_times(pts, stream.end));
            &&& opened(stream, readable::<E>(pts)) matches Ok(v)
            &&& serve_all(v, presented, 0) == selections_of(
                presented,
                stream.window_ms,
                stream.total_epochs,
                presented.len(),
            )
        }),
{
    law_session_opens_at_first_picture::<E>(stream, pts);
    let times = kept_times(pts, stream.end);
    let v = opened(stream, readable::<E>(pts))->Ok_0;
    lemma_serve_all(v, times, 0);
    assert(Seq::<Selection>::empty() + serve_all(v, sorted(times), 0) =~= serve_all(
        v,
        sorted(times),
        0,
    ));
}

/// What was served, after one more service.
pub open spec fn with_service(out: Seq<Selection>, service: Service) -> Seq<Selection> {
    if service.from < service.to {
        out.push(Selection { pts: service.pts, epochs: (service.from, service.to) })
    } else {
        out
    }
}

/// A session after `events`, and what was served in that order.
pub open spec fn stream_run<E>(v: SessionView<E>, events: Seq<DecodeEvent>) -> Result<
    (SessionView<E>, Seq<Selection>),
    SessionError<E>,
>
    decreases events.len(),
{
    if events.len() == 0 {
        Ok((v, Seq::empty()))
    } else {
        match stream_run(v, events.drop_last()) {
            Err(error) => Err(error),
            Ok((before, out)) => match events.last() {
                DecodeEvent::Submit(pts) => if submitted(before, pts).queue.len() <= MAX_REORDER {
                    Ok((submitted(before, pts), out))
                } else {
                    Err(SessionError::QueueFull)
                },
                DecodeEvent::Skip(pts) => Ok((left_out(before, pts), out)),
                DecodeEvent::Picture { width, height } => match shown(before, width, height) {
                    (after, Ok(Some(service))) => match stepped(after) {
                        (moved, None) => Ok((moved, with_service(out, service))),
                        (_, Some(error)) => Err(SessionError::Lookahead(error)),
                    },
                    (after, Ok(None)) => Ok((after, out)),
                    (_, Err(error)) => Err(error),
                },
            },
        }
    }
}

/// Which picture serves which epochs, by the times of a stream in decode order alone.
pub open spec fn stream_selections(stream: Stream, pts: Seq<i64>) -> Seq<Selection> {
    let presented = sorted(kept_times(pts, stream.end));
    selections_of(presented, stream.window_ms, stream.total_epochs, presented.len())
}

/// No time in `skipped` is one that `selections` name.
spec fn none_selected(skipped: Multiset<i64>, selections: Seq<Selection>) -> bool {
    forall|time: i64| #[trigger]
        skipped.count(time) > 0 ==> !names(selections, 0, selections.len() as int, time)
}

/// The session has come to picture `k` of `times`, `out` is what the pictures before it are
/// selected for, and no picture that was skipped is selected.
spec fn on_track<E>(v: SessionView<E>, times: Seq<i64>, out: Seq<Selection>, k: int) -> bool {
    let presented = sorted(times);
    &&& follows(v, times, k)
    &&& out == selections_of(presented, v.stream.window_ms, v.stream.total_epochs, k as nat)
    &&& v.resized == out.len()
    &&& none_selected(
        v.skipped,
        selections_of(presented, v.stream.window_ms, v.stream.total_epochs, presented.len()),
    )
}

/// Passing skipped pictures leaves a session on track.
proof fn lemma_passed_on_track<E>(
    v: SessionView<E>,
    limit: Option<i64>,
    times: Seq<i64>,
    out: Seq<Selection>,
    k: int,
) -> (there: int)
    requires
        on_track(v, times, out, k),
    ensures
        passed(v, limit).1 is None,
        on_track(passed(v, limit).0, times, out, there),
    decreases v.skipped.len(),
{
    broadcast use vstd::multiset::group_multiset_axioms;

    if can_pass(v, limit) {
        let time = v.current->Some_0;
        let less = SessionView { skipped: v.skipped.remove(time), ..v };
        assert(k < sorted(times).len() && time == sorted(times)[k]);
        assert(v.skipped.count(time) > 0);
        assert(follows(less, times, k));
        law_unselected_picture_can_be_passed(less, times, k);
        let after = stepped(less).0;
        assert(after.skipped == less.skipped);
        assert forall|t: i64| #[trigger] after.skipped.count(t) > 0 implies v.skipped.count(t)
            > 0 by {}
        assert(on_track(after, times, out, k + 1));
        lemma_passed_on_track(after, limit, times, out, k + 1)
    } else {
        k
    }
}

proof fn lemma_run_on_track<E>(v: SessionView<E>, events: Seq<DecodeEvent>, times: Seq<i64>) -> (k:
    int)
    requires
        on_track(v, times, Seq::empty(), 0),
        spares_selected(
            events,
            selections_of(
                sorted(times),
                v.stream.window_ms,
                v.stream.total_epochs,
                sorted(times).len(),
            ),
        ),
    ensures
        stream_run(v, events) matches Ok((after, out)) ==> after.stream == v.stream && on_track(
            after,
            times,
            out,
            k,
        ),
    decreases events.len(),
{
    broadcast use vstd::multiset::group_multiset_axioms;

    if events.len() == 0 {
        0
    } else {
        let earlier = events.drop_last();
        assert forall|i: int| 0 <= i < earlier.len() implies #[trigger] earlier[i] == events[i] by {
        }
        let k = lemma_run_on_track(v, earlier, times);
        match stream_run(v, earlier) {
            Err(_) => 0,
            Ok((before, out)) => match events.last() {
                DecodeEvent::Submit(pts) => {
                    assert(follows(submitted(before, pts), times, k));
                    k
                },
                DecodeEvent::Skip(pts) => {
                    let after = left_out(before, pts);
                    assert(events[events.len() - 1] == DecodeEvent::Skip(pts));
                    assert(follows(after, times, k));
                    assert forall|t: i64| #[trigger] after.skipped.count(t) > 0 implies t == pts
                        || before.skipped.count(t) > 0 by {}
                    k
                },
                DecodeEvent::Picture { width, height } => {
                    let pts = least(before.queue);
                    let counted = SessionView {
                        queue: before.queue.remove(pts),
                        produced: before.produced + 1,
                        ..before
                    };
                    assert(follows(counted, times, k));
                    match shown(before, width, height) {
                        (after, Ok(Some(service))) => {
                            let there = lemma_passed_on_track(counted, Some(pts), times, out, k);
                            lemma_passed_keeps(counted, Some(pts));
                            let here = passed(counted, Some(pts)).0;
                            assert(sorted(times)[there] == pts);
                            law_served_picture_is_next_selection(here, times, there);
                            there + 1
                        },
                        _ => k,
                    }
                },
            },
        }
    }
}

/// A session whose lookahead will fail stands at a picture for good.
spec fn stuck<E>(v: SessionView<E>) -> bool {
    &&& presentation(v.look) is Err
    &&& v.current is Some
    &&& v.next is Some
}

proof fn lemma_stepped_stuck<E>(v: SessionView<E>)
    requires
        stuck(v),
    ensures
        stepped(v).1 is None ==> stuck(stepped(v).0),
{
}

proof fn lemma_passed_stuck<E>(v: SessionView<E>, limit: Option<i64>)
    requires
        stuck(v),
    ensures
        passed(v, limit).1 is None ==> stuck(passed(v, limit).0),
    decreases v.skipped.len(),
{
    broadcast use vstd::multiset::group_multiset_axioms;

    if can_pass(v, limit) {
        let less = SessionView { skipped: v.skipped.remove(v.current->Some_0), ..v };
        lemma_stepped_stuck(less);
        if stepped(less).1 is None {
            lemma_passed_stuck(stepped(less).0, limit);
        }
    }
}

proof fn lemma_run_stuck<E>(v: SessionView<E>, events: Seq<DecodeEvent>)
    requires
        stuck(v),
    ensures
        stream_run(v, events) matches Ok((after, _)) ==> stuck(after),
    decreases events.len(),
{
    if events.len() > 0 {
        lemma_run_stuck(v, events.drop_last());
        if let Ok((before, _)) = stream_run(v, events.drop_last()) {
            if let DecodeEvent::Picture { width, height } = events.last() {
                let pts = least(before.queue);
                let counted = SessionView {
                    queue: before.queue.remove(pts),
                    produced: before.produced + 1,
                    ..before
                };
                lemma_passed_stuck(counted, Some(pts));
                if let (after, Ok(Some(_))) = shown(before, width, height) {
                    lemma_stepped_stuck(after);
                }
            }
        }
    }
}

/// How many pictures come out.
pub open spec fn pictures_in(events: Seq<DecodeEvent>) -> nat {
    events.filter(|event: DecodeEvent| event is Picture).len()
}

/// How many access units are left undecoded.
pub open spec fn skips_in(events: Seq<DecodeEvent>) -> nat {
    events.filter(|event: DecodeEvent| event is Skip).len()
}

proof fn lemma_run_counts<E>(v: SessionView<E>, events: Seq<DecodeEvent>)
    ensures
        stream_run(v, events) matches Ok((after, _)) ==> {
            &&& after.stream == v.stream
            &&& after.produced == v.produced + pictures_in(events)
            &&& after.skipped_count == v.skipped_count + skips_in(events)
        },
    decreases events.len(),
{
    reveal(Seq::filter);
    if events.len() > 0 {
        lemma_run_counts(v, events.drop_last());
        if let Ok((before, _)) = stream_run(v, events.drop_last()) {
            let pts = least(before.queue);
            lemma_passed_keeps(
                SessionView {
                    queue: before.queue.remove(pts),
                    produced: before.produced + 1,
                    ..before
                },
                Some(pts),
            );
        }
    }
}

/// Whatever the decoder does in between, a stream that ends well has served exactly the
/// selections that are computed from its times alone, each once and in order, so that every
/// epoch was called once and in order with the picture selected for it. It counts the pictures
/// that served an epoch and the access units that were left undecoded, and every access unit
/// is one of those or gave a picture. This holds as long as no access unit is left undecoded
/// at a time that is selected.
pub proof fn law_stream_serves_its_selections<E>(
    stream: Stream,
    pts: Seq<i64>,
    events: Seq<DecodeEvent>,
)
    requires
        opened(stream, readable::<E>(pts)) is Ok,
        stream_run(opened(stream, readable::<E>(pts))->Ok_0, events) is Ok,
        finished(stream_run(opened(stream, readable::<E>(pts))->Ok_0, events)->Ok_0.0) is Ok,
        spares_selected(events, stream_selections(stream, pts)),
    ensures
        ({
            let (after, out) = stream_run(opened(stream, readable::<E>(pts))->Ok_0, events)->Ok_0;
            &&& within_lookahead(kept_times(pts, stream.end))
            &&& out == stream_selections(stream, pts)
            &&& called_in_turn(out, stream.total_epochs)
            &&& finished(after) == Ok::<(int, int), SessionError<E>>(
                (out.len() as int, skips_in(events) as int),
            )
            &&& pictures_in(events) + skips_in(events) == stream.samples
        }),
{
    let times = kept_times(pts, stream.end);
    let v = opened(stream, readable::<E>(pts))->Ok_0;
    let (after, out) = stream_run(v, events)->Ok_0;
    lemma_source_of_readable::<E>(pts, stream.end);
    law_presents_in_order::<E>(times);
    lemma_run_counts(v, events);
    lemma_passed_keeps(after, None);
    if !within_lookahead(times) {
        let one = advanced(fresh::<E>(times)).0;
        assert(presentation(one) is Err);
        assert(v.look == advanced(one).0);
        assert(stuck(v));
        lemma_run_stuck(v, events);
        lemma_passed_stuck(after, None);
        assert(false);
    }
    law_session_opens_at_first_picture::<E>(stream, pts);
    assert(on_track(v, times, Seq::empty(), 0)) by {
        broadcast use vstd::multiset::group_multiset_axioms;

    }
    let k = lemma_run_on_track(v, events, times);
    let there = lemma_passed_on_track(after, None, times, out, k);
    lemma_sorted(times);
    assert(there == sorted(times).len());
    law_every_epoch_served_once(sorted(times), stream.window_ms, stream.total_epochs);
    law_contiguous_selections_are_handed_over(out);
    assert forall|i: int| 0 <= i < out.len() implies (#[trigger] out[i]).epochs.0
        <= out[i].epochs.1 by {}
    law_handed_over_epochs_are_called_in_turn(out, stream.total_epochs);
}

/// Judging each access unit by the guide of its own stream leaves none undecoded at a time
/// that is selected.
pub proof fn law_guided_skip_spares_selected(
    pts: Seq<i64>,
    stream: Stream,
    duration_ms: u64,
    config: VideoConfig,
    time: i64,
    data: Seq<u8>,
    length_size: nat,
)
    requires
        stream.window_ms == config.window_ms,
        stream.total_epochs == epoch_count(
            duration_ms,
            config.audio_duration_ms,
            config.window_ms,
        ),
        unit_skipped(skip_guide(pts, stream.end, duration_ms, config), time, data, length_size),
    ensures
        !names(
            stream_selections(stream, pts),
            0,
            stream_selections(stream, pts).len() as int,
            time,
        ),
{
}

/// The session is on track at picture `k`, its queue is what the decoder holds, and the times
/// that are due are those that it holds, those that were skipped and those that are to come.
spec fn in_step<E>(
    v: SessionView<E>,
    times: Seq<i64>,
    out: Seq<Selection>,
    k: int,
    events: Seq<DecodeEvent>,
    i: int,
) -> bool {
    &&& on_track(v, times, out, k)
    &&& v.queue == pending(events.take(i))
    &&& sorted(times).skip(k).to_multiset() == v.queue.filter(
        |time: i64| in_span(time, v.stream.end),
    ).add(v.skipped).add(to_come(events, i, v.stream.end))
}

proof fn lemma_due_in_order(times: Seq<i64>, k: int)
    requires
        0 <= k <= sorted(times).len(),
    ensures
        increasing(sorted(times).skip(k)),
{
    lemma_sorted(times);
    let rest = sorted(times).skip(k);
    assert forall|i: int, j: int| 0 <= i < j < rest.len() implies rest[i] <= rest[j] by {
        assert(sorted(times)[k + i] <= sorted(times)[k + j]);
    }
}

/// A session that passes the picture that is due next, which was skipped.
proof fn lemma_stream_passes_one<E>(
    v: SessionView<E>,
    times: Seq<i64>,
    out: Seq<Selection>,
    k: int,
) -> (w: SessionView<E>)
    requires
        on_track(v, times, out, k),
        k < sorted(times).len(),
        v.skipped.count(sorted(times)[k]) > 0,
    ensures
        ({
            let less = SessionView { skipped: v.skipped.remove(sorted(times)[k]), ..v };
            &&& stepped(less) == (w, None::<LookaheadError<E>>)
            &&& w.skipped == less.skipped
            &&& on_track(w, times, out, k + 1)
            &&& sorted(times).skip(k + 1).to_multiset() == sorted(times).skip(
                k,
            ).to_multiset().remove(sorted(times)[k])
        }),
{
    broadcast use vstd::multiset::group_multiset_axioms;

    let less = SessionView { skipped: v.skipped.remove(sorted(times)[k]), ..v };
    assert(follows(less, times, k));
    law_unselected_picture_can_be_passed(less, times, k);
    let w = stepped(less).0;
    assert forall|t: i64| #[trigger] w.skipped.count(t) > 0 implies v.skipped.count(t) > 0 by {}
    lemma_due_in_order(times, k);
    assert(sorted(times).skip(k).skip(1) =~= sorted(times).skip(k + 1));
    lemma_first_of(sorted(times).skip(k));
    w
}

proof fn lemma_stream_passes_to<E>(
    v: SessionView<E>,
    times: Seq<i64>,
    out: Seq<Selection>,
    k: int,
    pts: i64,
    others: Multiset<i64>,
) -> (there: int)
    requires
        on_track(v, times, out, k),
        sorted(times).skip(k).to_multiset() == others.add(v.skipped).insert(pts),
        forall|time: i64| #[trigger] others.count(time) > 0 ==> pts <= time,
    ensures
        ({
            let (w, error) = passed(v, Some(pts));
            &&& error is None
            &&& on_track(w, times, out, there)
            &&& there < sorted(times).len()
            &&& sorted(times)[there] == pts
            &&& sorted(times).skip(there).to_multiset() == others.add(w.skipped).insert(pts)
        }),
    decreases sorted(times).len() - k,
{
    broadcast use vstd::multiset::group_multiset_axioms;

    let presented = sorted(times);
    lemma_due_in_order(times, k);
    lemma_first_due(presented.skip(k), others, v.skipped, pts);
    assert(presented.skip(k)[0] == presented[k]);
    if can_pass(v, Some(pts)) {
        let w = lemma_stream_passes_one(v, times, out, k);
        assert(presented.skip(k + 1).to_multiset() =~= others.add(w.skipped).insert(pts));
        lemma_stream_passes_to(w, times, out, k + 1, pts, others)
    } else {
        k
    }
}

proof fn lemma_stream_passes_all<E>(
    v: SessionView<E>,
    times: Seq<i64>,
    out: Seq<Selection>,
    k: int,
)
    requires
        on_track(v, times, out, k),
        sorted(times).skip(k).to_multiset() == v.skipped,
    ensures
        ({
            let (w, error) = passed(v, None);
            &&& error is None
            &&& on_track(w, times, out, sorted(times).len() as int)
            &&& w.skipped.len() == 0
        }),
    decreases sorted(times).len() - k,
{
    broadcast use vstd::multiset::group_multiset_axioms;

    let rest = sorted(times).skip(k);
    vstd::seq_lib::to_multiset_len(rest);
    if k < sorted(times).len() {
        lemma_due_in_order(times, k);
        lemma_first_of(rest);
        assert(rest[0] == sorted(times)[k]);
        let w = lemma_stream_passes_one(v, times, out, k);
        assert(can_pass(v, None));
        lemma_stream_passes_all(w, times, out, k + 1);
    }
}

proof fn lemma_stream_goes_well<E>(
    v: SessionView<E>,
    times: Seq<i64>,
    events: Seq<DecodeEvent>,
    i: int,
) -> (k: int)
    requires
        0 <= i <= events.len(),
        in_step(v, times, Seq::empty(), 0, events, 0),
        v.sent == 0 && v.produced == 0 && v.skipped_count == 0,
        in_presentation_order(events, v.stream.width, v.stream.height, v.stream.end),
        spares_selected(
            events,
            selections_of(
                sorted(times),
                v.stream.window_ms,
                v.stream.total_epochs,
                sorted(times).len(),
            ),
        ),
    ensures
        stream_run(v, events.take(i)) matches Ok((after, out)) && {
            &&& in_step(after, times, out, k, events, i)
            &&& after.stream == v.stream
            &&& after.produced + after.queue.len() + after.skipped_count + unit_times(
                events,
                i,
            ).len() == unit_times(events, 0).len()
        },
    decreases i,
{
    broadcast use vstd::multiset::group_multiset_axioms;

    if i == 0 {
        assert(events.take(0) =~= Seq::<DecodeEvent>::empty());
        0
    } else {
        let last = i - 1;
        let k = lemma_stream_goes_well(v, times, events, last);
        assert(events.take(i).drop_last() =~= events.take(last));
        assert(events.take(i).last() == events[last]);
        let (before, out) = stream_run(v, events.take(last))->Ok_0;
        let end = v.stream.end;
        let keep = |time: i64| in_span(time, end);
        lemma_to_come(events, last, end);
        lemma_goes_in_turn(events, v.stream.width, v.stream.height, end, i);
        match events[last] {
            DecodeEvent::Submit(pts) => {
                let after = submitted(before, pts);
                if in_span(pts, end) {
                    assert(after.queue.filter(keep) =~= before.queue.filter(keep).insert(pts));
                } else {
                    assert(after.queue.filter(keep) =~= before.queue.filter(keep));
                }
                assert(sorted(times).skip(k).to_multiset() =~= after.queue.filter(keep).add(
                    after.skipped,
                ).add(to_come(events, i, end)));
                assert(follows(after, times, k));
                assert(in_step(after, times, out, k, events, i));
                k
            },
            DecodeEvent::Skip(pts) => {
                let after = left_out(before, pts);
                assert forall|t: i64| #[trigger] after.skipped.count(t) > 0 implies t == pts
                    || before.skipped.count(t) > 0 by {}
                assert(sorted(times).skip(k).to_multiset() =~= after.queue.filter(keep).add(
                    after.skipped,
                ).add(to_come(events, i, end)));
                assert(follows(after, times, k));
                assert(in_step(after, times, out, k, events, i));
                k
            },
            DecodeEvent::Picture { width, height } => {
                let pts = least(before.queue);
                lemma_has_least(before.queue);
                let counted = SessionView {
                    queue: before.queue.remove(pts),
                    produced: before.produced + 1,
                    ..before
                };
                assert(follows(counted, times, k));
                if !in_span(pts, end) {
                    assert(counted.queue.filter(keep) =~= before.queue.filter(keep));
                    assert(in_step(counted, times, out, k, events, i));
                    k
                } else {
                    lemma_first_to_come(events, v.stream.width, v.stream.height, end, last);
                    let others = counted.queue.filter(keep).add(to_come(events, i, end));
                    assert forall|time: i64| #[trigger] others.count(time) > 0 implies pts
                        <= time by {
                        if counted.queue.filter(keep).count(time) > 0 {
                            assert(before.queue.count(time) > 0);
                        } else {
                            assert(to_come(events, i, end).count(time) > 0);
                        }
                    }
                    assert(sorted(times).skip(k).to_multiset() =~= others.add(
                        counted.skipped,
                    ).insert(pts));
                    let there = lemma_stream_passes_to(counted, times, out, k, pts, others);
                    lemma_passed_keeps(counted, Some(pts));
                    let here = passed(counted, Some(pts)).0;
                    law_served_picture_is_next_selection(here, times, there);
                    let (after, now) = stream_run(v, events.take(i))->Ok_0;
                    lemma_due_in_order(times, there);
                    lemma_first_of(sorted(times).skip(there));
                    assert(sorted(times).skip(there)[0] == pts);
                    assert(sorted(times).skip(there).skip(1) =~= sorted(times).skip(there + 1));
                    assert(after.skipped == here.skipped && after.queue == counted.queue);
                    assert(sorted(times).skip(there + 1).to_multiset() =~= after.queue.filter(
                        keep,
                    ).add(after.skipped).add(to_come(events, i, end)));
                    assert(in_step(after, times, now, there + 1, events, i));
                    there + 1
                }
            },
        }
    }
}

/// A stream ends well where some picture is presented, the lookahead can put the pictures in
/// order, its decoder takes in the access units and puts out one picture of the right size for
/// each, in presentation order, and none is left undecoded at a time that is selected.
pub proof fn law_stream_ends_well<E>(stream: Stream, pts: Seq<i64>, events: Seq<DecodeEvent>)
    requires
        stream.samples == pts.len(),
        unit_times(events, 0) == pts,
        kept_times(pts, stream.end).len() > 0,
        within_lookahead(kept_times(pts, stream.end)),
        in_presentation_order(events, stream.width, stream.height, stream.end),
        spares_selected(events, stream_selections(stream, pts)),
    ensures
        opened(stream, readable::<E>(pts)) is Ok,
        stream_run(opened(stream, readable::<E>(pts))->Ok_0, events) is Ok,
        finished(stream_run(opened(stream, readable::<E>(pts))->Ok_0, events)->Ok_0.0) is Ok,
{
    broadcast use vstd::multiset::group_multiset_axioms;

    let times = kept_times(pts, stream.end);
    let presented = sorted(times);
    law_session_opens_at_first_picture::<E>(stream, pts);
    let v = opened(stream, readable::<E>(pts))->Ok_0;
    let keep = |time: i64| in_span(time, stream.end);
    lemma_sorted(times);
    assert(presented.skip(0) =~= presented);
    assert(events.take(0) =~= Seq::<DecodeEvent>::empty());
    assert(v.queue.filter(keep) =~= Multiset::empty());
    assert(presented.skip(0).to_multiset() =~= v.queue.filter(keep).add(v.skipped).add(
        to_come(events, 0, stream.end),
    ));
    assert(on_track(v, times, Seq::empty(), 0));
    assert(in_step(v, times, Seq::empty(), 0, events, 0));
    let k = lemma_stream_goes_well(v, times, events, events.len() as int);
    assert(events.take(events.len() as int) =~= events);
    let (after, out) = stream_run(v, events)->Ok_0;
    vstd::multiset::lemma_multiset_empty_len(after.queue);
    lemma_nothing_to_come(events, stream.end);
    assert(after.queue.filter(keep) =~= Multiset::empty());
    assert(presented.skip(k).to_multiset() =~= after.skipped);
    lemma_stream_passes_all(after, times, out, k);
    lemma_passed_keeps(after, None);
    law_every_epoch_served_once(presented, stream.window_ms, stream.total_epochs);
}

/// A run that goes well went well all along.
proof fn lemma_run_prefix<E>(v: SessionView<E>, events: Seq<DecodeEvent>, i: int)
    requires
        stream_run(v, events) is Ok,
        0 <= i <= events.len(),
    ensures
        stream_run(v, events.take(i)) is Ok,
    decreases events.len(),
{
    if i == events.len() {
        assert(events.take(i) =~= events);
    } else {
        lemma_run_prefix(v, events.drop_last(), i);
        assert(events.drop_last().take(i) =~= events.take(i));
    }
}

/// Passing skipped pictures takes them from what is due and leaves the others.
proof fn lemma_passed_due<E>(
    v: SessionView<E>,
    limit: Option<i64>,
    times: Seq<i64>,
    out: Seq<Selection>,
    k: int,
    others: Multiset<i64>,
) -> (there: int)
    requires
        on_track(v, times, out, k),
        sorted(times).skip(k).to_multiset() == others.add(v.skipped),
    ensures
        passed(v, limit).1 is None,
        on_track(passed(v, limit).0, times, out, there),
        k <= there,
        sorted(times).skip(there).to_multiset() == others.add(passed(v, limit).0.skipped),
    decreases v.skipped.len(),
{
    broadcast use vstd::multiset::group_multiset_axioms;

    if can_pass(v, limit) {
        assert(v.current == Some(sorted(times)[k]));
        let w = lemma_stream_passes_one(v, times, out, k);
        assert(sorted(times).skip(k + 1).to_multiset() =~= others.add(w.skipped));
        lemma_passed_due(w, limit, times, out, k + 1, others)
    } else {
        k
    }
}

/// Every picture that came out and is presented is one of the first `k` in presentation order.
spec fn came_before(events: Seq<DecodeEvent>, times: Seq<i64>, end: u64, k: int) -> bool {
    forall|p: i64| #[trigger]
        put_out(events).count(p) > 0 && in_span(p, end) ==> sorted(times).take(k).contains(p)
}

/// An access unit that is due comes after no picture of a later one.
proof fn lemma_due_not_overtaken(
    events: Seq<DecodeEvent>,
    times: Seq<i64>,
    end: u64,
    k: int,
    time: i64,
)
    requires
        came_before(events, times, end, k),
        0 <= k <= sorted(times).len(),
        in_span(time, end) ==> sorted(times).skip(k).to_multiset().count(time) > 0,
    ensures
        not_overtaken(put_out(events), time, end),
{
    let order = sorted(times);
    if in_span(time, end) {
        lemma_sorted(times);
        order.skip(k).to_multiset_ensures();
        assert(order.skip(k).contains(time));
        let b = choose|b: int| 0 <= b < order.skip(k).len() && order.skip(k)[b] == time;
        assert forall|p: i64| #[trigger]
            put_out(events).count(p) > 0 && in_span(p, end) implies p <= time by {
            assert(order.take(k).contains(p));
            let a = choose|a: int| 0 <= a < order.take(k).len() && order.take(k)[a] == p;
            assert(order[a] <= order[k + b]);
        }
    }
}

proof fn lemma_stream_went<E>(
    v: SessionView<E>,
    times: Seq<i64>,
    events: Seq<DecodeEvent>,
    i: int,
) -> (k: int)
    requires
        0 <= i <= events.len(),
        in_step(v, times, Seq::empty(), 0, events, 0),
        v.sent == 0 && v.produced == 0 && v.skipped_count == 0,
        stream_run(v, events) is Ok,
        spares_selected(
            events,
            selections_of(
                sorted(times),
                v.stream.window_ms,
                v.stream.total_epochs,
                sorted(times).len(),
            ),
        ),
    ensures
        stream_run(v, events.take(i)) matches Ok((after, out)) && {
            &&& in_step(after, times, out, k, events, i)
            &&& after.stream == v.stream
            &&& after.produced + after.queue.len() + after.skipped_count + unit_times(
                events,
                i,
            ).len() == unit_times(events, 0).len()
        },
        came_before(events.take(i), times, v.stream.end, k),
        goes_in_turn(events.take(i), v.stream.width, v.stream.height, v.stream.end),
    decreases i,
{
    broadcast use vstd::multiset::group_multiset_axioms;

    if i == 0 {
        assert(events.take(0) =~= Seq::<DecodeEvent>::empty());
        0
    } else {
        let last = i - 1;
        let k = lemma_stream_went(v, times, events, last);
        lemma_run_prefix(v, events, i);
        assert(events.take(i).drop_last() =~= events.take(last));
        assert(events.take(i).last() == events[last]);
        let (before, out) = stream_run(v, events.take(last))->Ok_0;
        let end = v.stream.end;
        let keep = |time: i64| in_span(time, end);
        lemma_to_come(events, last, end);
        match events[last] {
            DecodeEvent::Submit(pts) => {
                let after = submitted(before, pts);
                if in_span(pts, end) {
                    assert(after.queue.filter(keep) =~= before.queue.filter(keep).insert(pts));
                } else {
                    assert(after.queue.filter(keep) =~= before.queue.filter(keep));
                }
                assert(sorted(times).skip(k).to_multiset() =~= after.queue.filter(keep).add(
                    after.skipped,
                ).add(to_come(events, i, end)));
                assert(follows(after, times, k));
                assert(in_step(after, times, out, k, events, i));
                lemma_due_not_overtaken(events.take(last), times, end, k, pts);
                k
            },
            DecodeEvent::Skip(pts) => {
                let after = left_out(before, pts);
                assert forall|t: i64| #[trigger] after.skipped.count(t) > 0 implies t == pts
                    || before.skipped.count(t) > 0 by {}
                assert(sorted(times).skip(k).to_multiset() =~= after.queue.filter(keep).add(
                    after.skipped,
                ).add(to_come(events, i, end)));
                assert(follows(after, times, k));
                assert(in_step(after, times, out, k, events, i));
                lemma_due_not_overtaken(events.take(last), times, end, k, pts);
                k
            },
            DecodeEvent::Picture { width, height } => {
                let pts = least(before.queue);
                lemma_has_least(before.queue);
                let counted = SessionView {
                    queue: before.queue.remove(pts),
                    produced: before.produced + 1,
                    ..before
                };
                assert(follows(counted, times, k));
                if !in_span(pts, end) {
                    assert(counted.queue.filter(keep) =~= before.queue.filter(keep));
                    assert(in_step(counted, times, out, k, events, i));
                    k
                } else {
                    let others = before.queue.filter(keep).add(to_come(events, i, end));
                    assert(sorted(times).skip(k).to_multiset() =~= others.add(counted.skipped));
                    let there = lemma_passed_due(counted, Some(pts), times, out, k, others);
                    lemma_passed_keeps(counted, Some(pts));
                    let here = passed(counted, Some(pts)).0;
                    assert(sorted(times)[there] == pts);
                    law_served_picture_is_next_selection(here, times, there);
                    let (after, now) = stream_run(v, events.take(i))->Ok_0;
                    lemma_due_in_order(times, there);
                    lemma_first_of(sorted(times).skip(there));
                    assert(sorted(times).skip(there)[0] == pts);
                    assert(sorted(times).skip(there).skip(1) =~= sorted(times).skip(there + 1));
                    assert(after.skipped == here.skipped && after.queue == counted.queue);
                    assert(after.queue.filter(keep) =~= before.queue.filter(keep).remove(pts));
                    assert(sorted(times).skip(there + 1).to_multiset() =~= after.queue.filter(
                        keep,
                    ).add(after.skipped).add(to_come(events, i, end)));
                    assert(in_step(after, times, now, there + 1, events, i));
                    let order = sorted(times);
                    assert forall|p: i64| #[trigger]
                        put_out(events.take(i)).count(p) > 0 && in_span(p, end) implies order.take(
                        there + 1,
                    ).contains(p) by {
                        if p == pts {
                            assert(order.take(there + 1)[there] == p);
                        } else {
                            assert(put_out(events.take(last)).count(p) > 0);
                            assert(order.take(k).contains(p));
                            let a = choose|a: int|
                                0 <= a < order.take(k).len() && order.take(k)[a] == p;
                            assert(order.take(there + 1)[a] == p);
                        }
                    }
                    there + 1
                }
            },
        }
    }
}

/// A stream that took in its access units, left none undecoded at a time that is selected and
/// ended well had its pictures put out in presentation order, one of the right size for each
/// access unit that was decoded.
pub proof fn law_stream_that_ends_well_went_in_order<E>(
    stream: Stream,
    pts: Seq<i64>,
    events: Seq<DecodeEvent>,
)
    requires
        stream.samples == pts.len(),
        unit_times(events, 0) == pts,
        opened(stream, readable::<E>(pts)) is Ok,
        stream_run(opened(stream, readable::<E>(pts))->Ok_0, events) is Ok,
        finished(stream_run(opened(stream, readable::<E>(pts))->Ok_0, events)->Ok_0.0) is Ok,
        spares_selected(events, stream_selections(stream, pts)),
    ensures
        in_presentation_order(events, stream.width, stream.height, stream.end),
{
    broadcast use vstd::multiset::group_multiset_axioms;

    let times = kept_times(pts, stream.end);
    let presented = sorted(times);
    let v = opened(stream, readable::<E>(pts))->Ok_0;
    let keep = |time: i64| in_span(time, stream.end);
    law_stream_serves_its_selections::<E>(stream, pts, events);
    law_session_opens_at_first_picture::<E>(stream, pts);
    lemma_sorted(times);
    assert(presented.skip(0) =~= presented);
    assert(events.take(0) =~= Seq::<DecodeEvent>::empty());
    assert(v.queue.filter(keep) =~= Multiset::empty());
    assert(presented.skip(0).to_multiset() =~= v.queue.filter(keep).add(v.skipped).add(
        to_come(events, 0, stream.end),
    ));
    assert(on_track(v, times, Seq::empty(), 0));
    assert(in_step(v, times, Seq::empty(), 0, events, 0));
    let k = lemma_stream_went(v, times, events, events.len() as int);
    assert(events.take(events.len() as int) =~= events);
    lemma_passed_keeps(stream_run(v, events)->Ok_0.0, None);
}

/// An access unit is left undecoded exactly where there is a guide, it is disposable, and none
/// of the guide's selections names its time.
pub proof fn law_stream_leaves_out(
    guide: Seq<Selection>,
    pts: i64,
    data: Seq<u8>,
    length_size: nat,
)
    ensures
        !unit_skipped(None, pts, data, length_size),
        unit_skipped(Some(guide), pts, data, length_size) <==> disposable(data, length_size)
            && forall|s: int| 0 <= s < guide.len() ==> (#[trigger] guide[s]).pts != pts,
{
}

/// There is a guide exactly where leaving out is asked for and the lookahead can put the
/// pictures in order, and it names the selections of the whole clip.
pub proof fn law_guide_is_the_selection(
    pts: Seq<i64>,
    end: u64,
    duration_ms: u64,
    config: VideoConfig,
)
    ensures
        skip_guide(pts, end, duration_ms, config) is Some <==> config.skip_nonref
            && within_lookahead(kept_times(pts, end)),
        skip_guide(pts, end, duration_ms, config) matches Some(guide) ==> guide == selections_of(
            sorted(kept_times(pts, end)),
            config.window_ms,
            epoch_count(duration_ms, config.audio_duration_ms, config.window_ms),
            sorted(kept_times(pts, end)).len(),
        ),
{
}

/// What a session is refused a picture for comes in this order: that none was submitted, that
/// its size is another, that the lookahead fails, and that its time is not the next one.
pub proof fn law_stream_refuses_pictures<E>(v: SessionView<E>, width: usize, height: usize)
    ensures
        v.queue.len() == 0 ==> shown(v, width, height).1 == Err::<Option<Service>, SessionError<E>>(
            SessionError::ExtraPicture,
        ),
        v.queue.len() > 0 && !(width == v.stream.width && height == v.stream.height) ==> shown(
            v,
            width,
            height,
        ).1 == Err::<Option<Service>, SessionError<E>>(SessionError::ResolutionChanged),
{
}

/// A stream ends well exactly where, after passing what was skipped, the lookahead did not fail,
/// every access unit gave a picture or was left undecoded, every skipped time was passed, no
/// picture is due any more and every epoch was served. Otherwise the lookahead's failure is
/// reported first, then the number of pictures.
pub proof fn law_how_a_stream_ends<E>(v: SessionView<E>)
    ensures
        ({
            let (w, error) = passed(v, None);
            let counted = w.produced + w.skipped_count == w.stream.samples && w.skipped.len() == 0;
            let complete = w.current is None && w.epoch == w.stream.total_epochs;
            &&& finished(v) is Ok <==> error is None && counted && complete
            &&& finished(v) is Ok ==> finished(v)->Ok_0 == (w.resized, w.skipped_count)
            &&& error matches Some(e) ==> finished(v) == Err::<(int, int), SessionError<E>>(
                SessionError::Lookahead(e),
            )
            &&& error is None && !counted ==> finished(v) == Err::<(int, int), SessionError<E>>(
                SessionError::CountMismatch {
                    produced: w.produced as usize,
                    expected: (w.stream.samples - w.skipped_count) as usize,
                },
            )
            &&& error is None && counted && !complete ==> finished(v) == Err::<
                (int, int),
                SessionError<E>,
            >(SessionError::Incomplete)
        }),
{
}

} // verus!
