//! The schedule of an ordered, window-bounded parallel map: which piece of work a worker may
//! start, and which result is handed over next. Threads and waiting are the caller's.
use std::collections::BTreeMap;
use vstd::prelude::*;
use crate::concurrency::Failure;

verus! {

/// What a worker does next.
#[derive(Clone, Copy, Debug, PartialEq, Eq, Structural)]
pub enum Claim {
    /// There is nothing left to do.
    Stop,
    /// Work on this piece.
    Work(usize),
    /// Wait until a result was handed over.
    Wait,
}

/// What the one that hands results over does next.
#[derive(Debug)]
pub enum Handover<T, X> {
    /// Give up for this reason.
    GiveUp(Failure<X>),
    /// Hand this result over.
    Value(T),
    /// Wait until the next result is there.
    Wait,
}

/// What a schedule holds.
pub struct ScheduleView<T, X> {
    pub count: usize,
    pub window: usize,
    pub next_claim: usize,
    pub next_emit: usize,
    pub done: Map<usize, T>,
    pub error: Option<Failure<X>>,
}

/// The pieces of work from zero up to `count`: those claimed, those done and those handed
/// over.
pub struct Schedule<T, X> {
    count: usize,
    window: usize,
    next_claim: usize,
    next_emit: usize,
    done: BTreeMap<usize, T>,
    error: Option<Failure<X>>,
}

impl<T, X> View for Schedule<T, X> {
    type V = ScheduleView<T, X>;

    closed spec fn view(&self) -> ScheduleView<T, X> {
        ScheduleView {
            count: self.count,
            window: self.window,
            next_claim: self.next_claim,
            next_emit: self.next_emit,
            done: self.done@,
            error: self.error,
        }
    }
}

/// No more than `window` pieces are claimed and not handed over, and results are held for
/// those only.
pub open spec fn in_window<T, X>(v: ScheduleView<T, X>) -> bool {
    &&& v.window >= 1
    &&& 0 <= v.next_emit <= v.next_claim <= v.count
    &&& v.next_claim - v.next_emit <= v.window
    &&& forall|c: usize| #[trigger] v.done.dom().contains(c) ==> v.next_emit <= c < v.next_claim
}

/// What a worker may do.
pub open spec fn claim_of<T, X>(v: ScheduleView<T, X>, cancelled: bool) -> Claim {
    if v.error is Some || cancelled || v.next_claim >= v.count {
        Claim::Stop
    } else if v.next_claim < v.next_emit + v.window {
        Claim::Work(v.next_claim)
    } else {
        Claim::Wait
    }
}

/// What is handed over next.
pub open spec fn next_of<T, X>(v: ScheduleView<T, X>, cancelled: bool) -> Handover<T, X> {
    match v.error {
        Some(failure) => Handover::GiveUp(failure),
        None => if cancelled {
            Handover::GiveUp(Failure::Cancelled)
        } else if v.done.dom().contains(v.next_emit) {
            Handover::Value(v.done[v.next_emit])
        } else {
            Handover::Wait
        },
    }
}

/// The first failure that is not a mere consequence of a cancellation is the one that stays.
pub open spec fn kept_failure<X>(old_failure: Option<Failure<X>>, new_failure: Failure<X>) -> Failure<
    X,
> {
    match old_failure {
        None => new_failure,
        Some(Failure::Cancelled) => new_failure,
        Some(Failure::Fault(fault)) => Failure::Fault(fault),
    }
}

impl<T, X> Schedule<T, X> {
    /// The schedule keeps to its window.
    pub open spec fn valid(&self) -> bool {
        in_window(self@)
    }

    /// A schedule of `count` pieces, of which no more than `window`, and at least one, may be
    /// under way.
    pub fn new(count: usize, window: usize) -> (schedule: Self)
        ensures
            schedule.valid(),
            schedule@ == fresh_schedule::<T, X>(count, window),
    {
        Schedule {
            count,
            window: window.max(1),
            next_claim: 0,
            next_emit: 0,
            done: BTreeMap::new(),
            error: None,
        }
    }

    /// How many pieces were handed over.
    pub fn emitted(&self) -> (count: usize)
        ensures
            count == self@.next_emit,
    {
        self.next_emit
    }

    /// Claims the next piece of work for a worker.
    pub fn claim(&mut self, cancelled: bool) -> (claim: Claim)
        requires
            old(self).valid(),
        ensures
            final(self).valid(),
            claim == claim_of(old(self)@, cancelled),
            final(self)@ == after_event(old(self)@, ScheduleEvent::Claim { cancelled }),
            final(self)@ == (ScheduleView {
                next_claim: if claim is Work {
                    (old(self)@.next_claim + 1) as usize
                } else {
                    old(self)@.next_claim
                },
                ..old(self)@
            }),
    {
        if self.error.is_some() || cancelled || self.next_claim >= self.count {
            return Claim::Stop;
        }
        if self.next_claim - self.next_emit < self.window {
            let piece: usize = self.next_claim;
            self.next_claim += 1;
            return Claim::Work(piece);
        }
        Claim::Wait
    }

    /// Takes in the result of piece `c`.
    pub fn complete(&mut self, c: usize, value: T)
        requires
            old(self).valid(),
            old(self)@.next_emit <= c < old(self)@.next_claim,
        ensures
            final(self).valid(),
            final(self)@ == (ScheduleView { done: old(self)@.done.insert(c, value), ..old(self)@ }),
            final(self)@ == after_event(old(self)@, ScheduleEvent::Complete { piece: c, value }),
    {
        broadcast use vstd::laws_cmp::group_laws_cmp;

        self.done.insert(c, value);
    }

    /// Takes in a failure.
    pub fn fail(&mut self, failure: Failure<X>)
        requires
            old(self).valid(),
        ensures
            final(self).valid(),
            final(self)@ == (ScheduleView {
                error: Some(kept_failure(old(self)@.error, failure)),
                ..old(self)@
            }),
    {
        let replace: bool = match (&self.error, &failure) {
            (None, _) => true,
            (Some(Failure::Cancelled), Failure::Fault(_)) => true,
            _ => false,
        };
        if replace {
            self.error = Some(failure);
        }
    }

    /// The next result in order, if it is there and nothing failed.
    pub fn take_next(&mut self, cancelled: bool) -> (next: Handover<T, X>)
        requires
            old(self).valid(),
            old(self)@.next_emit < old(self)@.count,
        ensures
            final(self).valid(),
            next == next_of(old(self)@, cancelled),
            match old(self)@.error {
                Some(failure) => {
                    &&& next == Handover::<T, X>::GiveUp(failure)
                    &&& final(self)@ == (ScheduleView { error: None, ..old(self)@ })
                },
                None => if cancelled {
                    &&& next == Handover::<T, X>::GiveUp(Failure::Cancelled)
                    &&& final(self)@ == old(self)@
                } else if old(self)@.done.dom().contains(old(self)@.next_emit) {
                    &&& next == Handover::<T, X>::Value(
                        old(self)@.done[old(self)@.next_emit],
                    )
                    &&& final(self)@ == (ScheduleView {
                        done: old(self)@.done.remove(old(self)@.next_emit),
                        ..old(self)@
                    })
                } else {
                    &&& next == Handover::<T, X>::Wait
                    &&& final(self)@ == old(self)@
                },
            },
    {
        broadcast use vstd::laws_cmp::group_laws_cmp;

        let ghost before = self@;
        if let Some(failure) = self.error.take() {
            return Handover::GiveUp(failure);
        }
        if cancelled {
            return Handover::GiveUp(Failure::Cancelled);
        }
        let piece: usize = self.next_emit;
        match self.done.remove(&piece) {
            Some(value) => {
                assert(self@.done =~= before.done.remove(piece));
                Handover::Value(value)
            },
            None => {
                assert(self@.done =~= before.done);
                Handover::Wait
            },
        }
    }

    /// Counts the result of the next piece as handed over, which lets another piece be
    /// claimed.
    pub fn emitted_next(&mut self)
        requires
            old(self).valid(),
            old(self)@.next_emit < old(self)@.next_claim,
            !old(self)@.done.dom().contains(old(self)@.next_emit),
        ensures
            final(self).valid(),
            final(self)@ == (ScheduleView {
                next_emit: (old(self)@.next_emit + 1) as usize,
                ..old(self)@
            }),
    {
        self.next_emit += 1;
    }

    /// How the schedule ended.
    pub fn finish(self) -> (res: Result<(), Failure<X>>)
        ensures
            res == match self@.error {
                None => Ok::<(), Failure<X>>(()),
                Some(failure) => Err(failure),
            },
    {
        match self.error {
            None => Ok(()),
            Some(failure) => Err(failure),
        }
    }
}

/// Whatever was claimed and completed, no more results are held than the window allows.
pub proof fn law_results_fit_window<T, X>(v: ScheduleView<T, X>)
    requires
        in_window(v),
    ensures
        v.done.dom().finite(),
        v.done.dom().len() <= v.next_claim - v.next_emit <= v.window,
{
    let held = vstd::set_lib::set_int_range(v.next_emit as int, v.next_claim as int);
    vstd::set_lib::lemma_int_range(v.next_emit as int, v.next_claim as int);
    let places = v.done.dom().map(|c: usize| c as int);
    assert(places.subset_of(held)) by {
        assert forall|i: int| places.contains(i) implies held.contains(i) by {
            let c = choose|c: usize| v.done.dom().contains(c) && c as int == i;
        }
    }
    vstd::set_lib::lemma_len_subset(places, held);
    assert(v.done.dom() =~= places.map(|i: int| i as usize)) by {
        assert forall|c: usize| v.done.dom().contains(c) implies places.map(
            |i: int| i as usize,
        ).contains(c) by {
            assert(places.contains(c as int));
        }
    }
    vstd::set_lib::lemma_map_size(places, v.done.dom(), |i: int| i as usize);
}

/// A worker is made to wait only while the piece that is handed over next was claimed, so
/// somebody is at work on it or its result is there: a schedule never comes to a halt.
pub proof fn law_waiting_worker_has_work_ahead<T, X>(v: ScheduleView<T, X>)
    requires
        in_window(v),
        claim_of(v, false) is Wait,
    ensures
        v.next_emit < v.next_claim,
        v.next_claim == v.next_emit + v.window,
{
}

/// The failure that stays is the first fault, whatever cancellations came before or after it.
pub proof fn law_first_fault_is_kept<X>(failures: Seq<Failure<X>>, first: int)
    requires
        0 <= first < failures.len(),
        failures[first] is Fault,
        forall|i: int| 0 <= i < first ==> (#[trigger] failures[i]) is Cancelled,
    ensures
        kept_of(failures) == Some(failures[first]),
    decreases failures.len(),
{
    let earlier = failures.drop_last();
    if first < failures.len() - 1 {
        assert forall|i: int| 0 <= i < first implies (#[trigger] earlier[i]) is Cancelled by {
            assert(earlier[i] == failures[i]);
        }
        law_first_fault_is_kept(earlier, first);
    } else {
        lemma_only_cancelled(earlier);
    }
}

/// The failure that stays after `failures` came in, in that order.
pub open spec fn kept_of<X>(failures: Seq<Failure<X>>) -> Option<Failure<X>>
    decreases failures.len(),
{
    if failures.len() == 0 {
        None
    } else {
        Some(kept_failure(kept_of(failures.drop_last()), failures.last()))
    }
}

proof fn lemma_only_cancelled<X>(failures: Seq<Failure<X>>)
    requires
        forall|i: int| 0 <= i < failures.len() ==> (#[trigger] failures[i]) is Cancelled,
    ensures
        kept_of(failures) matches Some(failure) ==> failure is Cancelled,
    decreases failures.len(),
{
    if failures.len() > 0 {
        assert forall|i: int| 0 <= i < failures.drop_last().len() implies (
        #[trigger] failures.drop_last()[i]) is Cancelled by {
            assert(failures.drop_last()[i] == failures[i]);
        }
        lemma_only_cancelled(failures.drop_last());
        assert(failures[failures.len() - 1] is Cancelled);
    }
}

/// What happens to a schedule.
pub enum ScheduleEvent<T> {
    /// A worker asks for work.
    Claim { cancelled: bool },
    /// A worker completes a piece.
    Complete { piece: usize, value: T },
    /// The next result is handed over.
    HandOver,
}

/// An event that can happen: only claimed pieces are completed, each once, and only results
/// that are there are handed over.
pub open spec fn can_happen<T, X>(v: ScheduleView<T, X>, event: ScheduleEvent<T>) -> bool {
    match event {
        ScheduleEvent::Claim { .. } => true,
        ScheduleEvent::Complete { piece, .. } => v.next_emit <= piece < v.next_claim
            && !v.done.dom().contains(piece),
        ScheduleEvent::HandOver => v.done.dom().contains(v.next_emit),
    }
}

/// The schedule after an event.
pub open spec fn after_event<T, X>(v: ScheduleView<T, X>, event: ScheduleEvent<T>) -> ScheduleView<
    T,
    X,
> {
    match event {
        ScheduleEvent::Claim { cancelled } => ScheduleView {
            next_claim: if claim_of(v, cancelled) is Work {
                (v.next_claim + 1) as usize
            } else {
                v.next_claim
            },
            ..v
        },
        ScheduleEvent::Complete { piece, value } => ScheduleView {
            done: v.done.insert(piece, value),
            ..v
        },
        ScheduleEvent::HandOver => ScheduleView {
            done: v.done.remove(v.next_emit),
            next_emit: (v.next_emit + 1) as usize,
            ..v
        },
    }
}

/// The schedule after events, the results that were handed over, in that order, and the
/// results that were completed, by piece. Nothing where an event could not happen.
pub open spec fn schedule_run<T, X>(v: ScheduleView<T, X>, events: Seq<ScheduleEvent<T>>) -> Option<
    (ScheduleView<T, X>, Seq<T>, Map<usize, T>),
>
    decreases events.len(),
{
    if events.len() == 0 {
        Some((v, Seq::empty(), Map::empty()))
    } else {
        match schedule_run(v, events.drop_last()) {
            None => None,
            Some((before, handed, completed)) => if !can_happen(before, events.last()) {
                None
            } else {
                Some(
                    (
                        after_event(before, events.last()),
                        match events.last() {
                            ScheduleEvent::HandOver => handed.push(before.done[before.next_emit]),
                            _ => handed,
                        },
                        match events.last() {
                            ScheduleEvent::Complete { piece, value } => completed.insert(
                                piece,
                                value,
                            ),
                            _ => completed,
                        },
                    ),
                )
            },
        }
    }
}

/// What was handed over in place `i` is the result of piece `i`.
pub open spec fn is_result_of<T>(handed: Seq<T>, completed: Map<usize, T>, i: int) -> bool {
    completed.dom().contains(i as usize) && handed[i] == completed[i as usize]
}

/// A schedule that nothing happened to yet.
pub open spec fn fresh_schedule<T, X>(count: usize, window: usize) -> ScheduleView<T, X> {
    ScheduleView {
        count,
        window: if window >= 1 {
            window
        } else {
            1
        },
        next_claim: 0,
        next_emit: 0,
        done: Map::empty(),
        error: None,
    }
}

/// Whatever order the pieces are completed in, their results are handed over in the order of
/// the pieces, each once and none left out, and the schedule keeps to its window throughout.
pub proof fn law_results_come_in_order<T, X>(
    count: usize,
    window: usize,
    events: Seq<ScheduleEvent<T>>,
)
    requires
        schedule_run(fresh_schedule::<T, X>(count, window), events) is Some,
    ensures
        ({
            let (v, handed, completed) = schedule_run(
                fresh_schedule::<T, X>(count, window),
                events,
            )->Some_0;
            &&& in_window(v)
            &&& handed.len() == v.next_emit
            &&& forall|i: int|
                0 <= i < handed.len() ==> #[trigger] is_result_of(handed, completed, i)
            &&& forall|c: usize| #[trigger]
                v.done.dom().contains(c) ==> completed.dom().contains(c) && v.done[c]
                    == completed[c]
        }),
    decreases events.len(),
{
    let start = fresh_schedule::<T, X>(count, window);
    if events.len() > 0 {
        law_results_come_in_order::<T, X>(count, window, events.drop_last());
        let (before, handed, completed) = schedule_run(start, events.drop_last())->Some_0;
        let (v, now, all) = schedule_run(start, events)->Some_0;
        if events.last() is HandOver {
            assert(before.done.dom().contains(before.next_emit));
            assert(before.next_emit <= before.next_emit < before.next_claim);
        }
        assert forall|c: usize| #[trigger] v.done.dom().contains(c) implies all.dom().contains(c)
            && v.done[c] == all[c] && v.next_emit <= c < v.next_claim by {
            match events.last() {
                ScheduleEvent::Complete { piece, .. } => {
                    if c != piece {
                        assert(before.done.dom().contains(c));
                    }
                },
                _ => {
                    assert(before.done.dom().contains(c));
                },
            }
        }
        assert forall|i: int| 0 <= i < now.len() implies #[trigger] is_result_of(now, all, i) by {
            if i < handed.len() {
                assert(is_result_of(handed, completed, i));
            }
        }
    }
}

/// A worker is given the next piece exactly where there is one, nothing failed or was
/// cancelled, and the piece is less than a window ahead of what was handed over. It stops where
/// nothing is left to do or the work is off, and waits otherwise.
pub proof fn law_claims_fill_the_window<T, X>(v: ScheduleView<T, X>, cancelled: bool, c: usize)
    ensures
        claim_of(v, cancelled) == Claim::Work(c) <==> !cancelled && v.error is None && c
            == v.next_claim && c < v.count && c - v.next_emit < v.window,
        claim_of(v, cancelled) == Claim::Stop <==> cancelled || v.error is Some || v.next_claim
            >= v.count,
        claim_of(v, cancelled) == Claim::Wait <==> !cancelled && v.error is None && v.next_claim
            < v.count && v.next_claim - v.next_emit >= v.window,
{
}

/// A schedule starts with nothing claimed or handed over, and lets at least one piece be under
/// way.
pub proof fn law_fresh_schedule<T, X>(count: usize, window: usize)
    ensures
        fresh_schedule::<T, X>(count, window).count == count,
        window > 0 ==> fresh_schedule::<T, X>(count, window).window == window,
        window == 0 ==> fresh_schedule::<T, X>(count, window).window == 1,
        fresh_schedule::<T, X>(count, window).next_claim == 0,
        fresh_schedule::<T, X>(count, window).next_emit == 0,
        fresh_schedule::<T, X>(count, window).done.dom() =~= Set::<usize>::empty(),
        fresh_schedule::<T, X>(count, window).error is None,
{
}

/// A result is handed over exactly where it is the next in order and is there, nothing failed
/// and nothing was cancelled; a failure is reported as it is, before a cancellation.
pub proof fn law_next_result_is_handed_over<T, X>(v: ScheduleView<T, X>, cancelled: bool)
    ensures
        v.error matches Some(failure) ==> next_of(v, cancelled) == Handover::<T, X>::GiveUp(
            failure,
        ),
        v.error is None && cancelled ==> next_of(v, cancelled) == Handover::<T, X>::GiveUp(
            Failure::Cancelled,
        ),
        v.error is None && !cancelled && v.done.dom().contains(v.next_emit) ==> next_of(
            v,
            cancelled,
        ) == Handover::<T, X>::Value(v.done[v.next_emit]),
        v.error is None && !cancelled && !v.done.dom().contains(v.next_emit) ==> next_of(
            v,
            cancelled,
        ) == Handover::<T, X>::Wait,
{
}

/// A claim takes one piece where it gives work and none otherwise; a completed piece is held
/// until it is handed over; and handing over moves on by one.
pub proof fn law_events_change_one_thing<T, X>(
    v: ScheduleView<T, X>,
    cancelled: bool,
    piece: usize,
    value: T,
)
    requires
        in_window(v),
    ensures
        ({
            let claimed = after_event(v, ScheduleEvent::Claim { cancelled });
            let done = after_event(v, ScheduleEvent::Complete { piece, value });
            let handed = after_event(v, ScheduleEvent::<T>::HandOver);
            &&& claim_of(v, cancelled) is Work ==> claimed.next_claim == v.next_claim + 1
            &&& !(claim_of(v, cancelled) is Work) ==> claimed.next_claim == v.next_claim
            &&& claimed.next_emit == v.next_emit && claimed.done == v.done && claimed.error
                == v.error
            &&& done.done.dom().contains(piece) && done.done[piece] == value
            &&& done.next_claim == v.next_claim && done.next_emit == v.next_emit
            &&& v.next_emit < v.count ==> handed.next_emit == v.next_emit + 1
            &&& !handed.done.dom().contains(v.next_emit)
            &&& handed.next_claim == v.next_claim
        }),
{
}

} // verus!
