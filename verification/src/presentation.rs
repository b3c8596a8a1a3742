//! Presentation order from decode order, with a bounded lookahead.
use std::collections::VecDeque;
use vstd::multiset::Multiset;
use vstd::prelude::*;
use crate::order::{increasing, lemma_sorted, lemma_sorted_unique, sorted};
use crate::queue::{least, lemma_has_least, TimeQueue};

verus! {

/// The most pictures that may wait for their turn at once.
pub const MAX_REORDER: usize = 34;

/// Why the next presentation time is not known.
#[derive(Debug)]
pub enum LookaheadError<E> {
    /// The source of times reported a failure of its own.
    Source(E),
    /// H.264 presentation reordering exceeds supported lookahead.
    Reordered,
}

/// What a lookahead holds: the times still to be read, those read and not yet presented,
/// and the last one presented.
pub struct Lookahead<E> {
    pub waiting: Seq<Result<i64, E>>,
    pub held: Multiset<i64>,
    pub previous: Option<i64>,
}

/// One more time may be read.
pub open spec fn can_read<E>(l: Lookahead<E>) -> bool {
    &&& l.held.len() < MAX_REORDER
    &&& l.waiting.len() > 0
    &&& l.waiting[0] is Ok
}

/// `l` after one time was read.
pub open spec fn read_one<E>(l: Lookahead<E>) -> Lookahead<E> {
    Lookahead {
        waiting: l.waiting.drop_first(),
        held: l.held.insert(l.waiting[0]->Ok_0),
        previous: l.previous,
    }
}

/// `l` after as many times were read as it may hold.
pub open spec fn filled<E>(l: Lookahead<E>) -> Lookahead<E>
    decreases l.waiting.len(),
{
    if can_read(l) {
        filled(read_one(l))
    } else {
        l
    }
}

/// A full lookahead after one time was presented, and that time.
pub open spec fn presented_one<E>(l: Lookahead<E>) -> (Lookahead<E>, Result<Option<i64>, LookaheadError<E>>) {
    if l.held.len() < MAX_REORDER && l.waiting.len() > 0 {
        (
            Lookahead { waiting: l.waiting.drop_first(), held: l.held, previous: l.previous },
            Err(LookaheadError::Source(l.waiting[0]->Err_0)),
        )
    } else if l.held.len() == 0 {
        (Lookahead { waiting: l.waiting, held: l.held, previous: None }, Ok(None))
    } else {
        let time = least(l.held);
        if l.previous matches Some(p) && time < p {
            (
                Lookahead { waiting: l.waiting, held: l.held.remove(time), previous: l.previous },
                Err(LookaheadError::Reordered),
            )
        } else {
            (
                Lookahead { waiting: l.waiting, held: l.held.remove(time), previous: Some(time) },
                Ok(Some(time)),
            )
        }
    }
}

/// The next presentation time of `l`, and what the lookahead holds after it.
pub open spec fn advanced<E>(l: Lookahead<E>) -> (Lookahead<E>, Result<Option<i64>, LookaheadError<E>>) {
    presented_one(filled(l))
}

/// Presentation times in increasing order, read from a source in decode order. No more
/// than `MAX_REORDER` of them are held at once, however long the source is.
pub struct PresentationTimes<E> {
    source: VecDeque<Result<i64, E>>,
    heap: TimeQueue,
    previous: Option<i64>,
}

impl<E> View for PresentationTimes<E> {
    type V = Lookahead<E>;

    closed spec fn view(&self) -> Lookahead<E> {
        Lookahead { waiting: self.source@, held: self.heap@, previous: self.previous }
    }
}

impl<E> PresentationTimes<E> {
    /// A lookahead over `source` that has read nothing yet.
    pub fn new(source: VecDeque<Result<i64, E>>) -> (times: Self)
        ensures
            times@ == (Lookahead {
                waiting: source@,
                held: Multiset::<i64>::empty(),
                previous: None,
            }),
    {
        PresentationTimes { source, heap: TimeQueue::new(), previous: None }
    }

    /// How many times are held back.
    pub fn pending(&self) -> (count: usize)
        ensures
            count == self@.held.len(),
    {
        self.heap.len()
    }

    /// The next presentation time, or `None` after the last one. Fails with the source's own
    /// error, and where a time comes after a later one was already presented.
    pub fn next_pts(&mut self) -> (next: Result<Option<i64>, LookaheadError<E>>)
        ensures
            (final(self)@, next) == advanced(old(self)@),
    {
        let ghost start = self@;
        while self.heap.len() < MAX_REORDER
            invariant_except_break
                start == old(self)@,
                filled(self@) == filled(start),
            ensures
                start == old(self)@,
                filled(self@) == filled(start),
                !(self@.held.len() < MAX_REORDER && self@.waiting.len() > 0),
            decreases self.source@.len(),
        {
            let ghost before = self@;
            match self.source.pop_front() {
                Some(Ok(pts)) => {
                    self.heap.push(pts);
                    assert(before.waiting.drop_first() =~= self.source@);
                    assert(self@ == read_one(before));
                },
                Some(Err(error)) => {
                    assert(before.waiting.drop_first() =~= self.source@);
                    assert(!can_read(before) && filled(before) == before);
                    return Err(LookaheadError::Source(error));
                },
                None => {
                    break;
                },
            }
        }
        assert(filled(self@) == self@);
        let pts: Option<i64> = self.heap.pop();
        if let (Some(previous), Some(pts)) = (self.previous, pts) {
            if pts < previous {
                return Err(LookaheadError::Reordered);
            }
        }
        self.previous = pts;
        Ok(pts)
    }
}

/// The source of a lookahead over times that can all be read.
pub open spec fn readable<E>(times: Seq<i64>) -> Seq<Result<i64, E>> {
    times.map_values(|time: i64| Ok::<i64, E>(time))
}

/// A lookahead over `times` that has read nothing yet.
pub open spec fn fresh<E>(times: Seq<i64>) -> Lookahead<E> {
    Lookahead { waiting: readable(times), held: Multiset::empty(), previous: None }
}

proof fn lemma_filled_shrinks<E>(l: Lookahead<E>)
    ensures
        filled(l).waiting.len() + filled(l).held.len() == l.waiting.len() + l.held.len(),
        filled(l).waiting.len() <= l.waiting.len(),
    decreases l.waiting.len(),
{
    broadcast use vstd::multiset::group_multiset_axioms;

    if can_read(l) {
        lemma_filled_shrinks(read_one(l));
    }
}

/// A time that is presented leaves the lookahead.
pub proof fn lemma_advanced_shrinks<E>(l: Lookahead<E>)
    ensures
        advanced(l).1 matches Ok(Some(_)) ==> advanced(l).0.waiting.len() + advanced(l).0.held.len()
            < l.waiting.len() + l.held.len(),
{
    broadcast use vstd::multiset::group_multiset_axioms;

    lemma_filled_shrinks(l);
    let full = filled(l);
    if full.held.len() > 0 {
        lemma_has_least(full.held);
    }
}

/// Every time that `l` presents, in order, or the failure that ends the sequence.
pub open spec fn presentation<E>(l: Lookahead<E>) -> Result<Seq<i64>, LookaheadError<E>>
    decreases l.waiting.len() + l.held.len() via presentation_ends::<E>
{
    let (after, next) = advanced(l);
    match next {
        Err(error) => Err(error),
        Ok(None) => Ok(Seq::empty()),
        Ok(Some(time)) => match presentation(after) {
            Err(error) => Err(error),
            Ok(rest) => Ok(seq![time] + rest),
        },
    }
}

#[via_fn]
proof fn presentation_ends<E>(l: Lookahead<E>) {
    lemma_advanced_shrinks(l);
}

/// How many of the times before `times[j]` are later than it.
pub open spec fn overtaken_by(times: Seq<i64>, j: int) -> nat {
    times.take(j).to_multiset().filter(|time: i64| time > times[j]).len()
}

/// No time is overtaken by as many as the lookahead can hold.
pub open spec fn within_lookahead(times: Seq<i64>) -> bool {
    forall|j: int| 0 <= j < times.len() ==> #[trigger] overtaken_by(times, j) < MAX_REORDER
}

/// `done` was presented and `l` holds the rest of the first `read` of `times`, in order.
spec fn on_course<E>(times: Seq<i64>, read: int, done: Multiset<i64>, l: Lookahead<E>) -> bool {
    &&& 0 <= read <= times.len()
    &&& l.waiting == readable::<E>(times.skip(read))
    &&& done.add(l.held) == times.take(read).to_multiset()
    &&& l.held.len() <= MAX_REORDER
    &&& match l.previous {
        None => done.len() == 0,
        Some(p) => {
            &&& done.count(p) > 0
            &&& forall|t: i64| #[trigger] done.count(t) > 0 ==> t <= p
            &&& forall|t: i64| #[trigger] l.held.count(t) > 0 ==> p <= t
            &&& read < times.len() ==> l.held.len() >= MAX_REORDER - 1
        },
    }
}

proof fn lemma_overtaken<E>(times: Seq<i64>, read: int, done: Multiset<i64>, l: Lookahead<E>)
    requires
        on_course(times, read, done, l),
        read < times.len(),
        l.held.len() < MAX_REORDER,
    ensures
        overtaken_by(times, read) < MAX_REORDER <==> (l.previous matches Some(p) ==> p
            <= times[read]),
{
    broadcast use vstd::multiset::group_multiset_axioms;

    let time = times[read];
    let later = |t: i64| t > time;
    let all = times.take(read).to_multiset();
    let counted = all.filter(|t: i64| t > times[read]);
    assert(counted =~= done.filter(later).add(l.held.filter(later)));
    let kept = l.held.filter(later);
    assert(kept.len() <= l.held.len()) by {
        let dropped = l.held.sub(kept);
        assert(kept.subset_of(l.held));
        assert(dropped.len() == l.held.len() - kept.len());
    }
    match l.previous {
        None => {
            vstd::multiset::lemma_multiset_empty_len(done);
            assert(done.filter(later) =~= Multiset::empty());
        },
        Some(p) => {
            if p <= time {
                assert(done.filter(later) =~= Multiset::empty());
            } else {
                assert(kept =~= l.held);
                assert(done.filter(later).count(p) > 0);
            }
        },
    }
}

proof fn lemma_presentation<E>(times: Seq<i64>, read: int, done: Multiset<i64>, l: Lookahead<E>)
    requires
        on_course(times, read, done, l),
    ensures
        presentation(l) is Ok <==> (forall|j: int|
            read <= j < times.len() ==> #[trigger] overtaken_by(times, j) < MAX_REORDER),
        presentation(l) matches Ok(out) ==> {
            &&& increasing(out)
            &&& done.add(out.to_multiset()) =~= times.to_multiset()
            &&& l.previous matches Some(p) ==> (forall|i: int|
                0 <= i < out.len() ==> p <= #[trigger] out[i])
        },
    decreases 2 * l.waiting.len() + l.held.len(),
{
    broadcast use vstd::multiset::group_multiset_axioms;

    if read < times.len() && l.held.len() < MAX_REORDER {
        assert(l.waiting[0] == Ok::<i64, E>(times[read]));
        assert(can_read(l));
        let next = read_one(l);
        assert(filled(l) == filled(next));
        assert(presentation(l) == presentation(next));
        lemma_overtaken(times, read, done, l);
        assert(next.waiting =~= readable::<E>(times.skip(read + 1)));
        assert(times.take(read + 1) =~= times.take(read).push(times[read]));
        vstd::seq_lib::to_multiset_build(times.take(read), times[read]);
        assert(done.add(next.held) =~= times.take(read + 1).to_multiset());
        if overtaken_by(times, read) < MAX_REORDER {
            assert(on_course(times, read + 1, done, next)) by {
                assert forall|t: i64| #[trigger] next.held.count(t) > 0 implies (
                l.previous matches Some(p) ==> p <= t) by {
                    if t != times[read] {
                        assert(l.held.count(t) > 0);
                    }
                }
            }
            lemma_presentation(times, read + 1, done, next);
        } else {
            let p = l.previous->Some_0;
            assert(next.held.len() == MAX_REORDER);
            assert(!can_read(next));
            lemma_has_least(next.held);
            assert(next.held.count(times[read]) > 0);
            assert(least(next.held) < p);
            assert(presentation(next) is Err);
        }
    } else {
        assert(!can_read(l));
        assert(filled(l) == l);
        if l.held.len() == 0 {
            assert(read == times.len());
            assert(times.take(read) =~= times);
            vstd::multiset::lemma_multiset_empty_len(l.held);
            assert(Seq::<i64>::empty().to_multiset() =~= Multiset::<i64>::empty()) by {
                vstd::seq_lib::to_multiset_len(Seq::<i64>::empty());
                vstd::multiset::lemma_multiset_empty_len(Seq::<i64>::empty().to_multiset());
            }
        } else {
            lemma_has_least(l.held);
            let time = least(l.held);
            assert(l.held.count(time) > 0);
            let after = advanced(l).0;
            let done_after = done.insert(time);
            assert(advanced(l).1 == Ok::<Option<i64>, LookaheadError<E>>(Some(time)));
            assert(done_after.add(after.held) =~= done.add(l.held));
            assert forall|t: i64| #[trigger] done_after.count(t) > 0 implies t <= time by {
                if t != time {
                    assert(done.count(t) > 0);
                    vstd::multiset::lemma_multiset_empty_len(done);
                    if l.previous is None {
                        assert(done.count(t) == 0);
                    }
                }
            }
            assert forall|t: i64| #[trigger] after.held.count(t) > 0 implies time <= t by {
                assert(l.held.count(t) > 0);
            }
            assert(on_course(times, read, done_after, after));
            lemma_presentation(times, read, done_after, after);
            if let Ok(rest) = presentation(after) {
                let out = seq![time] + rest;
                assert(presentation(l) == Ok::<Seq<i64>, LookaheadError<E>>(out));
                assert(out.drop_first() =~= rest);
                vstd::seq_lib::lemma_multiset_commutative(seq![time], rest);
                assert(seq![time].to_multiset() =~= Multiset::singleton(time)) by {
                    assert(seq![time] =~= Seq::<i64>::empty().push(time));
                    vstd::seq_lib::to_multiset_build(Seq::<i64>::empty(), time);
                    vstd::seq_lib::to_multiset_len(Seq::<i64>::empty());
                    vstd::multiset::lemma_multiset_empty_len(Seq::<i64>::empty().to_multiset());
                }
                assert(done.add(out.to_multiset()) =~= done_after.add(rest.to_multiset()));
                assert forall|i: int, j: int| 0 <= i < j < out.len() implies out[i] <= out[j] by {
                    assert(out[j] == rest[j - 1]);
                    if i > 0 {
                        assert(out[i] == rest[i - 1]);
                    }
                }
            }
        }
    }
}

/// The lookahead presents every time exactly once and in increasing order, and it does so
/// for just those sources in which no time is overtaken by `MAX_REORDER` later ones.
pub proof fn law_presents_in_order<E>(times: Seq<i64>)
    ensures
        presentation(fresh::<E>(times)) is Ok <==> within_lookahead(times),
        presentation(fresh::<E>(times)) matches Ok(out) ==> {
            &&& increasing(out)
            &&& out.to_multiset() == times.to_multiset()
        },
{
    broadcast use vstd::multiset::group_multiset_axioms;

    let none = Multiset::<i64>::empty();
    assert(times.skip(0) =~= times);
    assert(times.take(0) =~= Seq::<i64>::empty());
    vstd::seq_lib::to_multiset_len(Seq::<i64>::empty());
    vstd::multiset::lemma_multiset_empty_len(Seq::<i64>::empty().to_multiset());
    assert(none.add(none) =~= none);
    lemma_presentation(times, 0, none, fresh::<E>(times));
    if let Ok(out) = presentation(fresh::<E>(times)) {
        assert(none.add(out.to_multiset()) =~= out.to_multiset());
    }
}

/// How many of the times are at most `limit`.
pub open spec fn at_most(times: Seq<i64>, limit: i64) -> nat
    decreases times.len(),
{
    if times.len() == 0 {
        0
    } else if times.last() <= limit {
        at_most(times.drop_last(), limit) + 1
    } else {
        at_most(times.drop_last(), limit)
    }
}

/// How many times were read when time number `k` is presented.
pub open spec fn read_by(count: nat, k: int) -> int {
    if k + MAX_REORDER <= count {
        k + MAX_REORDER
    } else {
        count as int
    }
}

/// Each time is read before its turn comes: when time number `k` of the increasing order is
/// due, more than `k` of the times read so far are at most that time.
pub open spec fn read_in_time(times: Seq<i64>) -> bool {
    forall|k: int|
        0 <= k < times.len() ==> at_most(
            times.take(read_by(times.len(), k)),
            #[trigger] sorted(times)[k],
        ) > k
}

proof fn lemma_at_most_counts(times: Seq<i64>, limit: i64)
    ensures
        times.to_multiset().filter(|time: i64| time <= limit).len() == at_most(times, limit),
        times.to_multiset().filter(|time: i64| time > limit).len() == times.len() - at_most(
            times,
            limit,
        ),
    decreases times.len(),
{
    broadcast use vstd::multiset::group_multiset_axioms;

    let early = |time: i64| time <= limit;
    let late = |time: i64| time > limit;
    if times.len() == 0 {
        vstd::seq_lib::to_multiset_len(times);
        vstd::multiset::lemma_multiset_empty_len(times.to_multiset());
        assert(times.to_multiset().filter(early) =~= Multiset::empty());
        assert(times.to_multiset().filter(late) =~= Multiset::empty());
    } else {
        let before = times.drop_last();
        let last = times.last();
        lemma_at_most_counts(before, limit);
        assert(times =~= before.push(last));
        vstd::seq_lib::to_multiset_build(before, last);
        let all = before.to_multiset();
        if last <= limit {
            assert(times.to_multiset().filter(early) =~= all.filter(early).insert(last));
            assert(times.to_multiset().filter(late) =~= all.filter(late));
        } else {
            assert(times.to_multiset().filter(early) =~= all.filter(early));
            assert(times.to_multiset().filter(late) =~= all.filter(late).insert(last));
        }
    }
}

/// Counting goes on where more times are read, and the later limit counts more.
proof fn lemma_at_most_grows(times: Seq<i64>, a: int, b: int, low: i64, high: i64)
    requires
        0 <= a <= b <= times.len(),
        low <= high,
    ensures
        at_most(times.take(a), low) <= at_most(times.take(b), high),
        at_most(times.take(b), low) <= at_most(times.take(a), high) + (b - a),
        at_most(times.take(a), low) <= a,
    decreases b,
{
    if b > 0 {
        assert(times.take(b).drop_last() =~= times.take(b - 1));
        if a < b {
            lemma_at_most_grows(times, a, b - 1, low, high);
        } else {
            lemma_at_most_grows(times, a - 1, b - 1, low, high);
        }
    }
}

/// Past `a` no time is at most `limit`, so none is counted.
proof fn lemma_at_most_stays(times: Seq<i64>, a: int, b: int, limit: i64)
    requires
        0 <= a <= b <= times.len(),
        forall|i: int| a <= i < b ==> #[trigger] times[i] > limit,
    ensures
        at_most(times.take(b), limit) == at_most(times.take(a), limit),
    decreases b,
{
    if a < b {
        assert(times.take(b).drop_last() =~= times.take(b - 1));
        assert(times.take(b).last() == times[b - 1]);
        lemma_at_most_stays(times, a, b - 1, limit);
    }
}

/// Every time up to number `k` of an increasing order is at most that time.
proof fn lemma_at_most_of_rank(times: Seq<i64>, k: int, limit: i64)
    requires
        increasing(times),
        0 <= k < times.len(),
        times[k] <= limit,
    ensures
        at_most(times, limit) > k,
{
    lemma_all_counted(times, k + 1, limit);
    lemma_at_most_grows(times, k + 1, times.len() as int, limit, limit);
    assert(times.take(times.len() as int) =~= times);
}

proof fn lemma_all_counted(times: Seq<i64>, count: int, limit: i64)
    requires
        0 <= count <= times.len(),
        forall|i: int| 0 <= i < count ==> #[trigger] times[i] <= limit,
    ensures
        at_most(times.take(count), limit) == count,
    decreases count,
{
    if count > 0 {
        assert(times.take(count).drop_last() =~= times.take(count - 1));
        assert(times.take(count).last() == times[count - 1]);
        lemma_all_counted(times, count - 1, limit);
    }
}

/// Sorting changes no count.
proof fn lemma_at_most_sorted(times: Seq<i64>, limit: i64)
    ensures
        at_most(sorted(times), limit) == at_most(times, limit),
{
    lemma_sorted(times);
    lemma_at_most_counts(times, limit);
    lemma_at_most_counts(sorted(times), limit);
}

proof fn lemma_overtaken_is_late(times: Seq<i64>, j: int)
    requires
        0 <= j < times.len(),
        overtaken_by(times, j) >= MAX_REORDER,
    ensures
        !read_in_time(times),
{
    let n = times.len() as int;
    let time = times[j];
    let k = at_most(times.take(j), time) as int;
    lemma_at_most_counts(times.take(j), time);
    assert(k + MAX_REORDER <= j);
    // At least one more than `k` times are at most `time`, so that number `k` is.
    assert(times.take(j + 1).drop_last() =~= times.take(j));
    lemma_at_most_grows(times, j + 1, n, time, time);
    assert(times.take(n) =~= times);
    lemma_at_most_sorted(times, time);
    lemma_sorted(times);
    let order = sorted(times);
    if order[k] > time {
        assert forall|i: int| k <= i < n implies #[trigger] order[i] > time by {
            if k < i {
                assert(order[k] <= order[i]);
            }
        }
        lemma_at_most_stays(order, k, n, time);
        lemma_at_most_grows(order, k, k, time, time);
        assert(order.take(n) =~= order);
        assert(false);
    }
    lemma_at_most_grows(times, read_by(times.len(), k), j, order[k], time);
    assert(!(at_most(times.take(read_by(times.len(), k)), order[k]) > k));
}

proof fn lemma_late_is_overtaken(times: Seq<i64>, k: int) -> (j: int)
    requires
        0 <= k < times.len(),
        at_most(times.take(read_by(times.len(), k)), sorted(times)[k]) <= k,
    ensures
        0 <= j < times.len(),
        overtaken_by(times, j) >= MAX_REORDER,
{
    let n = times.len() as int;
    let m = read_by(times.len(), k);
    lemma_sorted(times);
    let limit = sorted(times)[k];
    lemma_at_most_of_rank(sorted(times), k, limit);
    lemma_at_most_sorted(times, limit);
    assert(times.take(n) =~= times);
    if forall|i: int| m <= i < n ==> #[trigger] times[i] > limit {
        lemma_at_most_stays(times, m, n, limit);
        assert(false);
    }
    let j = choose|i: int| m <= i < n && #[trigger] times[i] <= limit;
    let time = times[j];
    // The times before `j` that are later than `limit` overtake it.
    lemma_at_most_counts(times.take(j), time);
    lemma_at_most_grows(times, m, j, time, limit);
    j
}

/// The lookahead presents the times in increasing order, each once, just where each of them
/// is read before its turn comes, and fails in every other case.
pub proof fn law_presents_what_is_read_in_time<E>(times: Seq<i64>)
    ensures
        read_in_time(times) <==> within_lookahead(times),
        read_in_time(times) ==> presentation(fresh::<E>(times)) == Ok::<
            Seq<i64>,
            LookaheadError<E>,
        >(sorted(times)),
        !read_in_time(times) ==> presentation(fresh::<E>(times)) is Err,
{
    law_presents_in_order::<E>(times);
    if read_in_time(times) {
        assert forall|j: int| 0 <= j < times.len() implies #[trigger] overtaken_by(times, j)
            < MAX_REORDER by {
            if overtaken_by(times, j) >= MAX_REORDER {
                lemma_overtaken_is_late(times, j);
            }
        }
        lemma_sorted_unique(times, presentation(fresh::<E>(times))->Ok_0);
    } else {
        let k = choose|k: int|
            0 <= k < times.len() && !(at_most(
                times.take(read_by(times.len(), k)),
                #[trigger] sorted(times)[k],
            ) > k);
        let j = lemma_late_is_overtaken(times, k);
        assert(!(overtaken_by(times, j) < MAX_REORDER));
    }
}

/// Thirty-four pictures may wait for their turn at once.
pub proof fn law_reorder_limit()
    ensures
        MAX_REORDER == 34,
{
}

/// Where the source fails while there is room for another time, the lookahead fails with that
/// very failure, and goes on behind it. Where nothing is left and nothing is held, there is no
/// further time.
pub proof fn law_source_failure_is_reported<E>(l: Lookahead<E>, error: E)
    ensures
        l.held.len() < 34 && l.waiting.len() > 0 && l.waiting[0] == Err::<i64, E>(error)
            ==> advanced(l).1 == Err::<Option<i64>, LookaheadError<E>>(
            LookaheadError::Source(error),
        ) && advanced(l).0.waiting == l.waiting.drop_first() && advanced(l).0.held == l.held,
        l.held.len() == 0 && l.waiting.len() == 0 ==> advanced(l).1 == Ok::<
            Option<i64>,
            LookaheadError<E>,
        >(None),
{
}

} // verus!
