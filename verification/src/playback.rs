//! What happens while a decoder works on access units, event by event, and runs in which it
//! puts its pictures out in presentation order.
use vstd::multiset::Multiset;
use vstd::prelude::*;
use crate::order::increasing;
use crate::presentation::MAX_REORDER;
use crate::queue::{least, lemma_has_least};
use crate::video::{in_span, kept_times};
use crate::video_parallel::{names, Selection};

verus! {

/// What happens to a session between its opening and its end.
pub enum DecodeEvent {
    /// An access unit at this time goes to the decoder.
    Submit(i64),
    /// An access unit at this time is left undecoded.
    Skip(i64),
    /// A picture comes out of the decoder.
    Picture { width: usize, height: usize },
}

/// The time of the access unit that an event is about.
pub open spec fn unit_time(event: DecodeEvent) -> Option<i64> {
    match event {
        DecodeEvent::Submit(pts) => Some(pts),
        DecodeEvent::Skip(pts) => Some(pts),
        DecodeEvent::Picture { .. } => None,
    }
}

/// The times of the access units from event `from` on, in decode order.
pub open spec fn unit_times(events: Seq<DecodeEvent>, from: int) -> Seq<i64>
    decreases events.len() - from,
{
    if from < 0 || from >= events.len() {
        Seq::empty()
    } else {
        match unit_time(events[from]) {
            Some(time) => seq![time] + unit_times(events, from + 1),
            None => unit_times(events, from + 1),
        }
    }
}

/// The times of the access units whose pictures did not come out yet. The picture that comes
/// out is the earliest of them.
pub open spec fn pending(events: Seq<DecodeEvent>) -> Multiset<i64>
    decreases events.len(),
{
    if events.len() == 0 {
        Multiset::empty()
    } else {
        let before = pending(events.drop_last());
        match events.last() {
            DecodeEvent::Submit(pts) => before.insert(pts),
            DecodeEvent::Skip(_) => before,
            DecodeEvent::Picture { .. } => before.remove(least(before)),
        }
    }
}

/// The times of the pictures that came out.
pub open spec fn put_out(events: Seq<DecodeEvent>) -> Multiset<i64>
    decreases events.len(),
{
    if events.len() == 0 {
        Multiset::empty()
    } else {
        let before = put_out(events.drop_last());
        match events.last() {
            DecodeEvent::Picture { .. } => before.insert(least(pending(events.drop_last()))),
            _ => before,
        }
    }
}

/// No picture in `out` presents after `time`, as far as they are presented before `end`.
pub open spec fn not_overtaken(out: Multiset<i64>, time: i64, end: u64) -> bool {
    in_span(time, end) ==> forall|p: i64| #[trigger]
        out.count(p) > 0 && in_span(p, end) ==> p <= time
}

/// Every picture that came out has the right size and was submitted, no access unit came after
/// the picture of a later one, and the decoder never held more than it may. Pictures that are
/// not presented before `end` may come out in any order.
pub open spec fn goes_in_turn(
    events: Seq<DecodeEvent>,
    width: usize,
    height: usize,
    end: u64,
) -> bool
    decreases events.len(),
{
    if events.len() == 0 {
        true
    } else {
        let before = events.drop_last();
        goes_in_turn(before, width, height, end) && match events.last() {
            DecodeEvent::Submit(pts) => pending(events).len() <= MAX_REORDER && not_overtaken(
                put_out(before),
                pts,
                end,
            ),
            DecodeEvent::Skip(pts) => not_overtaken(put_out(before), pts, end),
            DecodeEvent::Picture { width: w, height: h } => w == width && h == height && pending(
                before,
            ).len() > 0,
        }
    }
}

/// A decoder takes in access units and puts out one picture of the right size for each, in
/// presentation order and without ever holding more than it may.
pub open spec fn in_presentation_order(
    events: Seq<DecodeEvent>,
    width: usize,
    height: usize,
    end: u64,
) -> bool {
    &&& goes_in_turn(events, width, height, end)
    &&& pending(events).len() == 0
}

/// What goes in turn went in turn all along.
pub proof fn lemma_goes_in_turn(
    events: Seq<DecodeEvent>,
    width: usize,
    height: usize,
    end: u64,
    i: int,
)
    requires
        goes_in_turn(events, width, height, end),
        0 <= i <= events.len(),
    ensures
        goes_in_turn(events.take(i), width, height, end),
    decreases events.len(),
{
    if i == events.len() {
        assert(events.take(i) =~= events);
    } else {
        lemma_goes_in_turn(events.drop_last(), width, height, end, i);
        assert(events.drop_last().take(i) =~= events.take(i));
    }
}

proof fn lemma_put_out_stays(events: Seq<DecodeEvent>, i: int, j: int)
    requires
        0 <= i < j <= events.len(),
        events[i] is Picture,
    ensures
        put_out(events.take(j)).count(least(pending(events.take(i)))) > 0,
    decreases j,
{
    broadcast use vstd::multiset::group_multiset_axioms;

    assert(events.take(j).drop_last() =~= events.take(j - 1));
    assert(events.take(j).last() == events[j - 1]);
    if i < j - 1 {
        lemma_put_out_stays(events, i, j - 1);
    }
}

/// A picture that is presented presents no later than anything that is to come after it.
pub proof fn lemma_first_to_come(
    events: Seq<DecodeEvent>,
    width: usize,
    height: usize,
    end: u64,
    i: int,
)
    requires
        goes_in_turn(events, width, height, end),
        0 <= i < events.len(),
        events[i] is Picture,
        in_span(least(pending(events.take(i))), end),
    ensures
        forall|time: i64| #[trigger]
            to_come(events, i + 1, end).count(time) > 0 ==> least(pending(events.take(i)))
                <= time,
{
    let first = least(pending(events.take(i)));
    assert forall|j: int| i + 1 <= j < events.len() implies (unit_time(
        #[trigger] events[j],
    ) matches Some(time) ==> in_span(time, end) ==> first <= time) by {
        lemma_goes_in_turn(events, width, height, end, j + 1);
        lemma_put_out_stays(events, i, j);
        assert(events.take(j + 1).drop_last() =~= events.take(j));
        assert(events.take(j + 1).last() == events[j]);
    }
    lemma_all_to_come(events, i + 1, end, first);
}

/// No access unit is left undecoded at a time that `selections` name.
pub open spec fn spares_selected(events: Seq<DecodeEvent>, selections: Seq<Selection>) -> bool {
    forall|i: int|
        0 <= i < events.len() ==> (#[trigger] events[i] matches DecodeEvent::Skip(pts) ==> !names(
            selections,
            0,
            selections.len() as int,
            pts,
        ))
}

/// The times before `end` of the access units from event `from` on.
pub open spec fn to_come(events: Seq<DecodeEvent>, from: int, end: u64) -> Multiset<i64> {
    kept_times(unit_times(events, from), end).to_multiset()
}

/// One event on, its access unit is no longer to come.
pub proof fn lemma_to_come(events: Seq<DecodeEvent>, from: int, end: u64)
    requires
        0 <= from < events.len(),
    ensures
        to_come(events, from, end) == match unit_time(events[from]) {
            Some(time) => if in_span(time, end) {
                to_come(events, from + 1, end).insert(time)
            } else {
                to_come(events, from + 1, end)
            },
            None => to_come(events, from + 1, end),
        },
{
    broadcast use vstd::multiset::group_multiset_axioms;

    if let Some(time) = unit_time(events[from]) {
        let rest = unit_times(events, from + 1);
        let keep = |p: i64| in_span(p, end);
        Seq::<i64>::filter_distributes_over_add(seq![time], rest, keep);
        let head = seq![time].filter(keep);
        let tail = rest.filter(keep);
        reveal(Seq::filter);
        assert(seq![time].drop_last() =~= Seq::<i64>::empty());
        assert(Seq::<i64>::empty().filter(keep) =~= Seq::<i64>::empty());
        if in_span(time, end) {
            assert(head =~= seq![time]);
            vstd::seq_lib::lemma_multiset_commutative(head, tail);
            lemma_single(time);
            assert((head + tail).to_multiset() =~= tail.to_multiset().insert(time));
        } else {
            assert(head =~= Seq::<i64>::empty());
            assert(head + tail =~= tail);
        }
    }
}

proof fn lemma_single(time: i64)
    ensures
        seq![time].to_multiset() =~= Multiset::singleton(time),
{
    broadcast use vstd::multiset::group_multiset_axioms;

    assert(seq![time] =~= Seq::<i64>::empty().push(time));
    vstd::seq_lib::to_multiset_build(Seq::<i64>::empty(), time);
    vstd::seq_lib::to_multiset_len(Seq::<i64>::empty());
    vstd::multiset::lemma_multiset_empty_len(Seq::<i64>::empty().to_multiset());
}

/// Nothing is to come after the last event.
pub proof fn lemma_nothing_to_come(events: Seq<DecodeEvent>, end: u64)
    ensures
        to_come(events, events.len() as int, end) == Multiset::<i64>::empty(),
{
    reveal(Seq::filter);
    let none = kept_times(unit_times(events, events.len() as int), end);
    assert(none =~= Seq::<i64>::empty());
    vstd::seq_lib::to_multiset_len(none);
    vstd::multiset::lemma_multiset_empty_len(none.to_multiset());
    assert(none.to_multiset() =~= Multiset::<i64>::empty());
}

/// What is to come presents no earlier than a time that no access unit to come precedes.
proof fn lemma_all_to_come(events: Seq<DecodeEvent>, from: int, end: u64, least_time: i64)
    requires
        0 <= from <= events.len(),
        forall|j: int|
            from <= j < events.len() ==> (unit_time(#[trigger] events[j]) matches Some(time)
                ==> in_span(time, end) ==> least_time <= time),
    ensures
        forall|time: i64| #[trigger]
            to_come(events, from, end).count(time) > 0 ==> least_time <= time,
    decreases events.len() - from,
{
    broadcast use vstd::multiset::group_multiset_axioms;

    if from < events.len() {
        lemma_to_come(events, from, end);
        lemma_all_to_come(events, from + 1, end, least_time);
        assert(unit_time(events[from]) matches Some(time) ==> in_span(time, end) ==> least_time
            <= time);
    } else {
        lemma_nothing_to_come(events, end);
    }
}

/// The first of some times in order is the earliest of them all.
pub proof fn lemma_first_of(times: Seq<i64>)
    requires
        increasing(times),
        times.len() > 0,
    ensures
        times.to_multiset().count(times[0]) > 0,
        forall|time: i64| #[trigger] times.to_multiset().count(time) > 0 ==> times[0] <= time,
        times.skip(1).to_multiset() == times.to_multiset().remove(times[0]),
        increasing(times.skip(1)),
{
    broadcast use vstd::multiset::group_multiset_axioms;

    times.to_multiset_ensures();
    assert forall|time: i64| #[trigger] times.to_multiset().count(time) > 0 implies times[0]
        <= time by {
        assert(times.contains(time));
        let i = choose|i: int| 0 <= i < times.len() && times[i] == time;
        if i > 0 {
            assert(times[0] <= times[i]);
        }
    }
    assert(times.contains(times[0]));
    assert(times.skip(1) =~= times.remove(0));
    assert forall|i: int, j: int| 0 <= i < j < times.skip(1).len() implies times.skip(1)[i]
        <= times.skip(1)[j] by {
        assert(times[i + 1] <= times[j + 1]);
    }
}

/// Of times that are due, in order, the first is `pts` or one that was skipped, if `pts` is
/// among them and the others present no earlier.
pub proof fn lemma_first_due(
    due: Seq<i64>,
    others: Multiset<i64>,
    skipped: Multiset<i64>,
    pts: i64,
)
    requires
        increasing(due),
        due.to_multiset() == others.add(skipped).insert(pts),
        forall|time: i64| #[trigger] others.count(time) > 0 ==> pts <= time,
    ensures
        due.len() > 0,
        due[0] <= pts,
        due[0] < pts ==> skipped.count(due[0]) > 0,
{
    broadcast use vstd::multiset::group_multiset_axioms;

    vstd::seq_lib::to_multiset_len(due);
    assert(due.to_multiset().count(pts) > 0);
    assert(due.len() > 0);
    lemma_first_of(due);
}

/// The time of the access unit or the picture that the last event is about.
pub open spec fn last_time(events: Seq<DecodeEvent>) -> i64 {
    match events.last() {
        DecodeEvent::Submit(pts) => pts,
        DecodeEvent::Skip(pts) => pts,
        DecodeEvent::Picture { .. } => least(pending(events.drop_last())),
    }
}

/// The part of a run that is about the access units at the times in `part`.
pub open spec fn part_of(events: Seq<DecodeEvent>, part: Seq<i64>) -> Seq<DecodeEvent>
    decreases events.len(),
{
    if events.len() == 0 {
        Seq::empty()
    } else {
        let earlier = part_of(events.drop_last(), part);
        if part.contains(last_time(events)) {
            earlier.push(events.last())
        } else {
            earlier
        }
    }
}

/// A part of a run that goes in turn goes in turn, and what it has pending is its share of
/// what the whole run has pending.
pub proof fn lemma_part_goes_in_turn(
    events: Seq<DecodeEvent>,
    part: Seq<i64>,
    width: usize,
    height: usize,
    end: u64,
)
    requires
        goes_in_turn(events, width, height, end),
    ensures
        goes_in_turn(part_of(events, part), width, height, end),
        pending(part_of(events, part)) == pending(events).filter(|time: i64| part.contains(time)),
        forall|time: i64| #[trigger]
            put_out(part_of(events, part)).count(time) > 0 ==> put_out(events).count(time) > 0,
    decreases events.len(),
{
    broadcast use vstd::multiset::group_multiset_axioms;

    let belongs = |time: i64| part.contains(time);
    if events.len() == 0 {
        assert(pending(events).filter(belongs) =~= Multiset::empty());
    } else {
        let before = events.drop_last();
        let last = events.last();
        let time = last_time(events);
        let some = part_of(before, part);
        lemma_part_goes_in_turn(before, part, width, height, end);
        assert(some.push(last).drop_last() =~= some);
        assert(some.push(last).last() == last);
        match last {
            DecodeEvent::Submit(pts) => {
                if part.contains(pts) {
                    assert(pending(events).filter(belongs) =~= pending(some).insert(pts));
                    lemma_filter_no_longer(pending(events), belongs);
                } else {
                    assert(pending(events).filter(belongs) =~= pending(some));
                }
            },
            DecodeEvent::Skip(_) => {},
            DecodeEvent::Picture { .. } => {
                lemma_has_least(pending(before));
                if part.contains(time) {
                    assert(pending(some).count(time) > 0);
                    lemma_has_least(pending(some));
                    assert(pending(before).count(least(pending(some))) > 0);
                    assert(least(pending(some)) == time);
                    assert(pending(events).filter(belongs) =~= pending(some).remove(time));
                } else {
                    assert(pending(events).filter(belongs) =~= pending(some));
                }
            },
        }
        let now = part_of(events, part);
        assert forall|t: i64| #[trigger] put_out(now).count(t) > 0 implies put_out(events).count(t)
            > 0 by {
            assert(put_out(some).count(t) > 0 ==> put_out(before).count(t) > 0);
        }
    }
}

proof fn lemma_filter_no_longer(times: Multiset<i64>, test: spec_fn(i64) -> bool)
    ensures
        times.filter(test).len() <= times.len(),
{
    broadcast use vstd::multiset::group_multiset_axioms;

    let kept = times.filter(test);
    let dropped = times.sub(kept);
    assert(kept.subset_of(times));
    assert(dropped.len() == times.len() - kept.len());
}

/// A part of a run leaves undecoded only what the whole run does.
pub proof fn lemma_part_spares_selected(
    events: Seq<DecodeEvent>,
    part: Seq<i64>,
    selections: Seq<Selection>,
)
    requires
        spares_selected(events, selections),
    ensures
        spares_selected(part_of(events, part), selections),
    decreases events.len(),
{
    if events.len() > 0 {
        let before = events.drop_last();
        assert forall|i: int| 0 <= i < before.len() implies (
        #[trigger] before[i] matches DecodeEvent::Skip(pts) ==> !names(
            selections,
            0,
            selections.len() as int,
            pts,
        )) by {
            assert(before[i] == events[i]);
        }
        lemma_part_spares_selected(before, part, selections);
        let some = part_of(before, part);
        let now = part_of(events, part);
        assert forall|i: int| 0 <= i < now.len() implies (
        #[trigger] now[i] matches DecodeEvent::Skip(pts) ==> !names(
            selections,
            0,
            selections.len() as int,
            pts,
        )) by {
            if i < some.len() {
                assert(now[i] == some[i]);
            } else {
                assert(now[i] == events[events.len() - 1]);
            }
        }
    }
}

proof fn lemma_unit_times_push(events: Seq<DecodeEvent>, event: DecodeEvent, from: int)
    requires
        0 <= from <= events.len(),
    ensures
        unit_times(events.push(event), from) == unit_times(events, from) + match unit_time(event) {
            Some(time) => seq![time],
            None => Seq::empty(),
        },
    decreases events.len() - from,
{
    let more = events.push(event);
    let added = match unit_time(event) {
        Some(time) => seq![time],
        None => Seq::<i64>::empty(),
    };
    if from < events.len() {
        lemma_unit_times_push(events, event, from + 1);
        assert(more[from] == events[from]);
        if let Some(time) = unit_time(events[from]) {
            assert(seq![time] + (unit_times(events, from + 1) + added) =~= (seq![time]
                + unit_times(events, from + 1)) + added);
        }
    } else {
        assert(more[from] == event);
        assert(unit_times(more, from + 1) =~= Seq::<i64>::empty());
        assert(added + Seq::<i64>::empty() =~= added);
        assert(unit_times(more, from) =~= added);
        assert(Seq::<i64>::empty() + added =~= added);
    }
}

/// The access units of a part of a run are those of the run at the times in `part`.
pub proof fn lemma_part_units(events: Seq<DecodeEvent>, part: Seq<i64>)
    ensures
        unit_times(part_of(events, part), 0) == unit_times(events, 0).filter(
            |time: i64| part.contains(time),
        ),
    decreases events.len(),
{
    reveal(Seq::filter);
    let belongs = |time: i64| part.contains(time);
    if events.len() == 0 {
        assert(unit_times(events, 0).filter(belongs) =~= Seq::<i64>::empty());
    } else {
        let before = events.drop_last();
        let last = events.last();
        let some = part_of(before, part);
        lemma_part_units(before, part);
        assert(before.push(last) =~= events);
        lemma_unit_times_push(before, last, 0);
        lemma_unit_times_push(some, last, 0);
        match unit_time(last) {
            Some(time) => {
                let earlier = unit_times(before, 0);
                assert(unit_times(events, 0) =~= earlier.push(time));
                assert(earlier.push(time).drop_last() =~= earlier);
                assert(unit_times(some, 0) + seq![time] =~= unit_times(some, 0).push(time));
            },
            None => {
                assert(unit_times(events, 0) =~= unit_times(before, 0));
                assert(unit_times(some.push(last), 0) =~= unit_times(some, 0));
            },
        }
    }
}

proof fn lemma_filter_all(times: Seq<i64>, test: spec_fn(i64) -> bool)
    requires
        forall|i: int| 0 <= i < times.len() ==> test(#[trigger] times[i]),
    ensures
        times.filter(test) == times,
    decreases times.len(),
{
    reveal(Seq::filter);
    if times.len() > 0 {
        assert forall|i: int| 0 <= i < times.drop_last().len() implies test(
            #[trigger] times.drop_last()[i],
        ) by {
            assert(test(times[i]));
        }
        lemma_filter_all(times.drop_last(), test);
        assert(test(times[times.len() - 1]));
        assert(times.drop_last().push(times.last()) =~= times);
    } else {
        assert(times.filter(test) =~= times);
    }
}

proof fn lemma_filter_none(times: Seq<i64>, test: spec_fn(i64) -> bool)
    requires
        forall|i: int| 0 <= i < times.len() ==> !test(#[trigger] times[i]),
    ensures
        times.filter(test) == Seq::<i64>::empty(),
    decreases times.len(),
{
    reveal(Seq::filter);
    if times.len() > 0 {
        assert forall|i: int| 0 <= i < times.drop_last().len() implies !test(
            #[trigger] times.drop_last()[i],
        ) by {
            assert(!test(times[i]));
        }
        lemma_filter_none(times.drop_last(), test);
        assert(!test(times[times.len() - 1]));
    } else {
        assert(times.filter(test) =~= times);
    }
}

/// A stretch of times whose times occur nowhere else is what is found by its times.
pub proof fn lemma_stretch_by_times(times: Seq<i64>, from: int, to: int)
    requires
        0 <= from <= to <= times.len(),
        forall|i: int, j: int|
            0 <= i < times.len() && !(from <= i < to) && from <= j < to ==> times[i] != times[j],
    ensures
        times.filter(|time: i64| times.subrange(from, to).contains(time)) == times.subrange(
            from,
            to,
        ),
{
    let part = times.subrange(from, to);
    let belongs = |time: i64| part.contains(time);
    let head = times.take(from);
    let tail = times.skip(to);
    assert forall|i: int| 0 <= i < part.len() implies belongs(#[trigger] part[i]) by {}
    assert forall|i: int| 0 <= i < head.len() implies !belongs(#[trigger] head[i]) by {
        if part.contains(head[i]) {
            let j = choose|j: int| 0 <= j < part.len() && part[j] == head[i];
            assert(times[i] != times[from + j]);
        }
    }
    assert forall|i: int| 0 <= i < tail.len() implies !belongs(#[trigger] tail[i]) by {
        if part.contains(tail[i]) {
            let j = choose|j: int| 0 <= j < part.len() && part[j] == tail[i];
            assert(times[to + i] != times[from + j]);
        }
    }
    lemma_filter_all(part, belongs);
    lemma_filter_none(head, belongs);
    lemma_filter_none(tail, belongs);
    Seq::<i64>::filter_distributes_over_add(head, part + tail, belongs);
    Seq::<i64>::filter_distributes_over_add(part, tail, belongs);
    assert(times =~= head + (part + tail));
    assert(Seq::<i64>::empty() + (part + Seq::<i64>::empty()) =~= part);
}

} // verus!
