//! The state space: a bounded cache from seed states to scores, with unique keys.
use crate::bits::State;
use vstd::prelude::*;

verus! {

/// A cached score: pending evaluation, or evaluated (over `ONE`).
#[derive(Clone, Copy, Debug, PartialEq, Eq, Structural)]
pub enum Score {
    Unscored,
    Scored(u64),
}

impl Score {
    /// The score as a number; a pending entry counts as 0.
    pub open spec fn value(self) -> nat {
        match self {
            Score::Unscored => 0,
            Score::Scored(v) => v as nat,
        }
    }

    pub fn get_value(&self) -> (r: u64)
        ensures
            r == self.value(),
    {
        match self {
            Score::Unscored => 0,
            Score::Scored(v) => *v,
        }
    }
}

/// The entries of a state space: a key's bits and its score.
pub type Entries = Seq<(Seq<bool>, Score)>;

pub open spec fn keys_unique(s: Entries) -> bool {
    forall|i: int, j: int| 0 <= i < j < s.len() ==> s[i].0 != s[j].0
}

pub open spec fn has_key(s: Entries, k: Seq<bool>) -> bool {
    exists|i: int| 0 <= i < s.len() && s[i].0 == k
}

/// The entries after `k` is stored with `score`: an entry of that key has its
/// score replaced, otherwise the entry is appended.
pub open spec fn with_entry(s: Entries, k: Seq<bool>, score: Score) -> Entries {
    if has_key(s, k) {
        Seq::new(s.len(), |i: int| if s[i].0 == k { (k, score) } else { s[i] })
    } else {
        s.push((k, score))
    }
}

/// `k` is the first entry of lowest score.
pub open spec fn is_first_lowest(s: Entries, k: int) -> bool {
    &&& 0 <= k < s.len()
    &&& forall|j: int| 0 <= j < s.len() ==> s[k].1.value() <= s[j].1.value()
    &&& forall|j: int| 0 <= j < k ==> s[j].1.value() > s[k].1.value()
}

/// `k` is the first entry of highest score.
pub open spec fn is_first_highest(s: Entries, k: int) -> bool {
    &&& 0 <= k < s.len()
    &&& forall|j: int| 0 <= j < s.len() ==> s[k].1.value() >= s[j].1.value()
    &&& forall|j: int| 0 <= j < k ==> s[j].1.value() < s[k].1.value()
}

/// Sum of the scores.
pub open spec fn score_sum(s: Entries) -> nat
    decreases s.len(),
{
    if s.len() == 0 {
        0
    } else {
        score_sum(s.drop_last()) + s.last().1.value()
    }
}

/// The mean score, rounded down; 0 for no entries.
pub open spec fn average_score(s: Entries) -> nat {
    if s.len() == 0 {
        0
    } else {
        score_sum(s) / s.len()
    }
}

/// A cache of seed states and their scores, in insertion order.
pub struct StateSpace {
    pub states: Vec<State>,
    pub scores: Vec<Score>,
}

impl View for StateSpace {
    type V = Entries;

    open spec fn view(&self) -> Entries {
        Seq::new(self.states@.len(), |i: int| (self.states@[i]@, self.scores@[i]))
    }
}

impl StateSpace {
    pub open spec fn wf(&self) -> bool {
        &&& self.states@.len() == self.scores@.len()
        &&& keys_unique(self@)
    }

    pub fn new() -> (r: StateSpace)
        ensures
            r.wf(),
            r@ == Seq::<(Seq<bool>, Score)>::empty(),
    {
        let r = StateSpace { states: Vec::new(), scores: Vec::new() };
        assert(r@ =~= Seq::<(Seq<bool>, Score)>::empty());
        r
    }

    pub fn len(&self) -> (r: usize)
        requires
            self.wf(),
        ensures
            r == self@.len(),
    {
        self.states.len()
    }

    pub fn is_empty(&self) -> (r: bool)
        requires
            self.wf(),
        ensures
            r == (self@.len() == 0),
    {
        self.states.len() == 0
    }

    /// The key of entry `i`.
    pub fn state(&self, i: usize) -> (r: &State)
        requires
            self.wf(),
            i < self@.len(),
        ensures
            r@ == self@[i as int].0,
    {
        &self.states[i]
    }

    /// The score of entry `i`.
    pub fn score(&self, i: usize) -> (r: Score)
        requires
            self.wf(),
            i < self@.len(),
        ensures
            r == self@[i as int].1,
    {
        self.scores[i]
    }

    /// The position of the entry whose key holds the bits of `s`.
    pub fn find(&self, s: &State) -> (r: Option<usize>)
        requires
            self.wf(),
        ensures
            match r {
                Some(i) => i < self@.len() && self@[i as int].0 == s@,
                None => !has_key(self@, s@),
            },
    {
        let mut i: usize = 0;
        while i < self.states.len()
            invariant
                self.wf(),
                i <= self@.len(),
                forall|j: int| 0 <= j < i ==> self@[j].0 != s@,
            decreases self@.len() - i,
        {
            if self.states[i].same_bits(s) {
                return Some(i);
            }
            i = i + 1;
        }
        None
    }

    pub fn contains(&self, s: &State) -> (r: bool)
        requires
            self.wf(),
        ensures
            r == has_key(self@, s@),
    {
        match self.find(s) {
            Some(_) => true,
            None => false,
        }
    }

    /// Stores `s` with `score`, replacing the score of an entry with the same bits.
    pub fn insert(&mut self, s: State, score: Score)
        requires
            old(self).wf(),
        ensures
            final(self).wf(),
            final(self)@ == with_entry(old(self)@, s@, score),
    {
        match self.find(&s) {
            Some(i) => {
                self.scores.set(i, score);
                assert(self@ =~= with_entry(old(self)@, s@, score)) by {
                    assert(forall|j: int| 0 <= j < old(self)@.len() && j != i ==> old(self)@[j].0 != s@);
                }
            },
            None => {
                self.states.push(s);
                self.scores.push(score);
                assert(self@ =~= with_entry(old(self)@, s@, score));
            },
        }
    }

    /// Replaces the score of entry `i`.
    pub fn set_score(&mut self, i: usize, score: Score)
        requires
            old(self).wf(),
            i < old(self)@.len(),
        ensures
            final(self).wf(),
            final(self)@ == old(self)@.update(i as int, (old(self)@[i as int].0, score)),
    {
        self.scores.set(i, score);
        assert(self@ =~= old(self)@.update(i as int, (old(self)@[i as int].0, score)));
    }

    /// Removes entry `i`, keeping the order of the others.
    pub fn remove(&mut self, i: usize)
        requires
            old(self).wf(),
            i < old(self)@.len(),
        ensures
            final(self).wf(),
            final(self)@ == old(self)@.remove(i as int),
    {
        self.states.remove(i);
        self.scores.remove(i);
        assert(self@ =~= old(self)@.remove(i as int));
    }

    /// The first entry of lowest score.
    pub fn lowest(&self) -> (r: usize)
        requires
            self.wf(),
            self@.len() > 0,
        ensures
            is_first_lowest(self@, r as int),
    {
        let mut best: usize = 0;
        let mut best_value = self.scores[0].get_value();
        let mut i: usize = 1;
        while i < self.scores.len()
            invariant
                self.wf(),
                1 <= i <= self@.len(),
                best < i,
                best_value == self@[best as int].1.value(),
                forall|j: int| 0 <= j < i ==> self@[best as int].1.value() <= self@[j].1.value(),
                forall|j: int| 0 <= j < best ==> self@[j].1.value() > self@[best as int].1.value(),
            decreases self@.len() - i,
        {
            let v = self.scores[i].get_value();
            if v < best_value {
                best = i;
                best_value = v;
            }
            i = i + 1;
        }
        best
    }

    /// The first entry of highest score.
    pub fn highest(&self) -> (r: usize)
        requires
            self.wf(),
            self@.len() > 0,
        ensures
            is_first_highest(self@, r as int),
    {
        let mut best: usize = 0;
        let mut best_value = self.scores[0].get_value();
        let mut i: usize = 1;
        while i < self.scores.len()
            invariant
                self.wf(),
                1 <= i <= self@.len(),
                best < i,
                best_value == self@[best as int].1.value(),
                forall|j: int| 0 <= j < i ==> self@[best as int].1.value() >= self@[j].1.value(),
                forall|j: int| 0 <= j < best ==> self@[j].1.value() < self@[best as int].1.value(),
            decreases self@.len() - i,
        {
            let v = self.scores[i].get_value();
            if v > best_value {
                best = i;
                best_value = v;
            }
            i = i + 1;
        }
        best
    }
}

} // verus!
