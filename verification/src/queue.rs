//! A priority queue of presentation times.
use vstd::multiset::Multiset;
use vstd::prelude::*;

verus! {

/// `time` is in `held`, and nothing in `held` comes before it.
pub open spec fn is_least(held: Multiset<i64>, time: i64) -> bool {
    &&& held.count(time) > 0
    &&& forall|other: i64| #[trigger] held.count(other) > 0 ==> time <= other
}

/// The earliest time in `held`.
pub open spec fn least(held: Multiset<i64>) -> i64 {
    choose|time: i64| is_least(held, time)
}

/// A nonempty multiset has one earliest time.
pub proof fn lemma_least(held: Multiset<i64>, time: i64)
    requires
        is_least(held, time),
    ensures
        least(held) == time,
{
    let chosen = least(held);
    assert(is_least(held, chosen));
    assert(held.count(chosen) > 0 && held.count(time) > 0);
}

/// Some time in a nonempty multiset is the earliest.
pub proof fn lemma_has_least(held: Multiset<i64>)
    requires
        held.len() > 0,
    ensures
        is_least(held, least(held)),
    decreases held.len(),
{
    broadcast use vstd::multiset::group_multiset_axioms;

    let any = held.choose();
    let rest = held.remove(any);
    assert(held.count(any) > 0);
    if rest.len() == 0 {
        vstd::multiset::lemma_multiset_empty_len(rest);
        assert forall|other: i64| #[trigger] held.count(other) > 0 implies any <= other by {
            assert(rest.count(other) == 0);
        }
        assert(is_least(held, any));
    } else {
        assert(rest.len() < held.len());
        lemma_has_least(rest);
        let inner = least(rest);
        let best = if any <= inner {
            any
        } else {
            inner
        };
        assert forall|other: i64| #[trigger] held.count(other) > 0 implies best <= other by {
            if other != any {
                assert(rest.count(other) > 0);
            }
        }
        assert(rest.count(inner) > 0);
        assert(is_least(held, best));
    }
}

/// Times that leave in increasing order, whatever order they came in.
pub struct TimeQueue {
    times: Vec<i64>,
}

impl View for TimeQueue {
    type V = Multiset<i64>;

    closed spec fn view(&self) -> Multiset<i64> {
        self.times@.to_multiset()
    }
}

impl TimeQueue {
    /// A queue that holds nothing.
    pub fn new() -> (queue: Self)
        ensures
            queue@ == Multiset::<i64>::empty(),
            queue@.len() == 0,
    {
        let queue = TimeQueue { times: Vec::new() };
        proof {
            vstd::seq_lib::to_multiset_len(queue.times@);
            vstd::multiset::lemma_multiset_empty_len(queue@);
        }
        queue
    }

    /// How many times the queue holds.
    pub fn len(&self) -> (count: usize)
        ensures
            count == self@.len(),
    {
        proof {
            vstd::seq_lib::to_multiset_len(self.times@);
        }
        self.times.len()
    }

    /// Adds `time`.
    pub fn push(&mut self, time: i64)
        ensures
            final(self)@ == old(self)@.insert(time),
            final(self)@.len() == old(self)@.len() + 1,
    {
        proof {
            vstd::seq_lib::to_multiset_build(self.times@, time);
            vstd::multiset::lemma_insert_len(self@, time);
        }
        self.times.push(time);
    }

    /// Takes the earliest time out.
    pub fn pop(&mut self) -> (time: Option<i64>)
        ensures
            match time {
                Some(time) => {
                    &&& is_least(old(self)@, time)
                    &&& time == least(old(self)@)
                    &&& final(self)@ == old(self)@.remove(time)
                    &&& final(self)@.len() + 1 == old(self)@.len()
                },
                None => {
                    &&& old(self)@.len() == 0
                    &&& final(self)@ == old(self)@
                },
            },
    {
        let ghost before = self.times@;
        proof {
            before.to_multiset_ensures();
        }
        let count: usize = self.times.len();
        if count == 0 {
            return None;
        }
        let mut best: usize = 0;
        let mut i: usize = 1;
        while i < count
            invariant
                self.times@ == before,
                count == before.len(),
                best < i <= count,
                forall|j: int| 0 <= j < i ==> before[best as int] <= #[trigger] before[j],
            decreases count - i,
        {
            if self.times[i] < self.times[best] {
                best = i;
            }
            i += 1;
        }
        let time: i64 = self.times.remove(best);
        proof {
            vstd::seq_lib::to_multiset_remove(before, best as int);
            self.times@.to_multiset_ensures();
            assert(before.contains(before[best as int]));
            assert forall|other: i64| #[trigger] before.to_multiset().count(other) > 0 implies time
                <= other by {
                assert(before.contains(other));
            }
            assert(is_least(before.to_multiset(), time));
            lemma_least(before.to_multiset(), time);
            assert(self.times@ =~= before.remove(best as int));
        }
        Some(time)
    }

    /// Takes one occurrence of `time` out, if there is one.
    pub fn take(&mut self, time: i64) -> (taken: bool)
        ensures
            taken == (old(self)@.count(time) > 0),
            taken ==> final(self)@ == old(self)@.remove(time) && final(self)@.len() + 1 == old(
                self,
            )@.len(),
            !taken ==> final(self)@ == old(self)@,
    {
        let ghost before = self.times@;
        proof {
            before.to_multiset_ensures();
        }
        let mut i: usize = 0;
        while i < self.times.len()
            invariant
                self.times@ == before,
                old(self).times@ == before,
                i <= before.len(),
                forall|j: int| 0 <= j < i ==> before[j] != time,
            decreases before.len() - i,
        {
            if self.times[i] == time {
                let _ = self.times.remove(i);
                proof {
                    before.to_multiset_ensures();
                    assert(before.contains(before[i as int]));
                    vstd::seq_lib::to_multiset_remove(before, i as int);
                    self.times@.to_multiset_ensures();
                    assert(self.times@ =~= before.remove(i as int));
                }
                return true;
            }
            i += 1;
        }
        proof {
            assert(!before.contains(time));
        }
        false
    }
}

/// The least of some times is one of them, and none is less.
pub proof fn law_least_is_least(held: Multiset<i64>, time: i64)
    requires
        held.count(time) > 0,
    ensures
        held.count(least(held)) > 0,
        least(held) <= time,
{
    broadcast use vstd::multiset::group_multiset_axioms;

    assert(held.len() > 0) by {
        if held.len() == 0 {
            vstd::multiset::lemma_multiset_empty_len(held);
        }
    }
    lemma_has_least(held);
}

} // verus!
