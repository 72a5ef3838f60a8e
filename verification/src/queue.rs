use vstd::prelude::*;

use crate::value::ScoredValue;

verus! {

/// Index of the first entry of `s` whose score is maximal.
///
/// Scanning keeps the earliest entry when scores tie, so this picks the
/// lowest index among the entries of highest score.
pub open spec fn first_max_index<T>(s: Seq<ScoredValue<T>>) -> int
    decreases s.len(),
{
    if s.len() <= 1 {
        0
    } else {
        let k = first_max_index(s.drop_last());
        if s.last().score > s[k].score {
            s.len() - 1
        } else {
            k
        }
    }
}

/// The first maximal index is in range and no entry outscores it.
pub proof fn lemma_first_max_is_max<T>(s: Seq<ScoredValue<T>>)
    requires
        s.len() > 0,
    ensures
        0 <= first_max_index(s) < s.len(),
        forall|j: int| 0 <= j < s.len() ==> #[trigger] s[j].score <= s[first_max_index(s)].score,
    decreases s.len(),
{
    if s.len() > 1 {
        lemma_first_max_is_max(s.drop_last());
        assert forall|j: int| 0 <= j < s.len() implies #[trigger] s[j].score
            <= s[first_max_index(s)].score by {
            if j < s.len() - 1 {
                assert(s.drop_last()[j] == s[j]);
            }
        }
    }
}

/// An entry that is strictly outscored by another entry is never the one
/// that a pop takes: whenever both are present, the higher-scored value
/// leaves the queue first, whatever the two values hold.
pub proof fn lemma_higher_score_pops_first<T>(s: Seq<ScoredValue<T>>, i: int, j: int)
    requires
        0 <= i < s.len(),
        0 <= j < s.len(),
        s[i].score > s[j].score,
    ensures
        first_max_index(s) != j,
        s[first_max_index(s)].score > s[j].score,
{
    lemma_first_max_is_max(s);
}

/// A max-priority multiset of scored values.
///
/// The highest score is popped first; entries with equal scores leave in
/// an unspecified order relative to each other. The element values are
/// never inspected, only the scores.
pub struct PriorityQueue<T> {
    items: Vec<ScoredValue<T>>,
}

impl<T> PriorityQueue<T> {
    /// The entries currently held, in internal order.
    pub closed spec fn view(&self) -> Seq<ScoredValue<T>> {
        self.items@
    }

    pub fn new() -> (q: Self)
        ensures
            q@ == Seq::<ScoredValue<T>>::empty(),
    {
        PriorityQueue { items: Vec::new() }
    }

    pub fn len(&self) -> (n: usize)
        ensures
            n == self@.len(),
    {
        self.items.len()
    }

    pub fn is_empty(&self) -> (b: bool)
        ensures
            b == (self@.len() == 0),
    {
        self.items.len() == 0
    }

    /// Adds an entry to the queue.
    pub fn push(&mut self, item: ScoredValue<T>)
        ensures
            final(self)@ == old(self)@.push(item),
    {
        self.items.push(item);
    }

    /// Removes and returns the first entry of maximal score, or `None`
    /// when the queue is empty.
    pub fn pop_max(&mut self) -> (r: Option<ScoredValue<T>>)
        ensures
            old(self)@.len() == 0 ==> r is None && final(self)@ == old(self)@,
            old(self)@.len() > 0 ==> {
                let k = first_max_index(old(self)@);
                &&& r == Some(old(self)@[k])
                &&& final(self)@ == old(self)@.remove(k)
                &&& forall|j: int|
                    0 <= j < old(self)@.len() ==> #[trigger] old(self)@[j].score
                        <= old(self)@[k].score
            },
    {
        if self.items.len() == 0 {
            return None;
        }
        let ghost s0 = self.items@;
        let mut best: usize = 0;
        let mut i: usize = 1;
        while i < self.items.len()
            invariant
                self.items@ == s0,
                1 <= i <= s0.len(),
                best < i,
                best == first_max_index(s0.take(i as int)),
            decreases s0.len() - i,
        {
            assert(s0.take(i + 1).drop_last() == s0.take(i as int));
            if self.items[i].score > self.items[best].score {
                best = i;
            }
            i = i + 1;
        }
        assert(s0.take(s0.len() as int) == s0);
        proof {
            lemma_first_max_is_max(s0);
        }
        Some(self.items.remove(best))
    }
}

} // verus!
