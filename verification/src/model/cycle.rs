//! Finding a cycle in a sequence of states as they come in, one at a time.

use std::ops::Range;
use vstd::prelude::*;
use vstd::std_specs::cmp::PartialEqSpec;

verus! {

/// What a `CycleFinder` has recorded so far.
pub struct CycleFinderState<T> {
    /// How many values the hare may run ahead before the tortoise is moved.
    pub power: nat,
    /// How many values the hare is ahead of the tortoise.
    pub lambda: nat,
    /// Where the cycle found last begins.
    pub mu: Option<nat>,
    /// The value the tortoise rests on.
    pub tortoise: Option<T>,
}

/// Finds cycles with Brent's algorithm, fed one value at a time.
pub struct CycleFinder<T> {
    power: usize,
    lambda: usize,
    mu: Option<usize>,
    tortoise: Option<T>,
}

impl<T> View for CycleFinder<T> {
    type V = CycleFinderState<T>;

    closed spec fn view(&self) -> CycleFinderState<T> {
        CycleFinderState {
            power: self.power as nat,
            lambda: self.lambda as nat,
            mu: match self.mu {
                Some(mu) => Some(mu as nat),
                None => None,
            },
            tortoise: self.tortoise,
        }
    }
}

/// Whether position `i` holds the same value as the position `lag` further
/// on.
pub open spec fn repeats_at<T: PartialEq>(values: Seq<T>, lag: nat, i: int) -> bool {
    0 <= i && i + lag < values.len() && values[i].eq_spec(&values[i + lag])
}

/// The first position at or after `from` that holds the same value as the
/// position `lag` further on, or where the sequence ends before that.
pub open spec fn cycle_start<T: PartialEq>(values: Seq<T>, lag: nat, from: nat) -> nat
    decreases values.len() - from,
{
    if from + lag < values.len() && !repeats_at(values, lag, from as int) {
        cycle_start(values, lag, from + 1)
    } else {
        from
    }
}

/// The start of the cycle is the first position at or after `from` that
/// holds the same value as the position `lag` further on, or the first that
/// lies less than `lag` before the end of the sequence.
pub proof fn lemma_cycle_start<T: PartialEq>(values: Seq<T>, lag: nat, from: nat)
    ensures
        ({
            let start = cycle_start(values, lag, from);
            &&& from <= start
            &&& from < start ==> start + lag <= values.len()
            &&& forall|i: int| from <= i < start ==> !#[trigger] repeats_at(values, lag, i)
            &&& start + lag >= values.len() || repeats_at(values, lag, start as int)
        }),
    decreases values.len() - from,
{
    if from + lag < values.len() && !repeats_at(values, lag, from as int) {
        lemma_cycle_start(values, lag, from + 1);
    }
}

/// The state after the value `next` has come in.
///
/// The first value only sets the tortoise down. After that the hare moves on
/// by one. While it differs from the tortoise nothing is found, and once
/// it has run as far ahead as allowed the tortoise is moved up to it and the
/// allowance doubled. Where the hare meets the tortoise a cycle of length
/// `lambda` is found, and `mu` is where it begins in `values`.
pub open spec fn advanced<T: PartialEq>(
    state: CycleFinderState<T>,
    values: Seq<T>,
    next: T,
) -> CycleFinderState<T> {
    match state.tortoise {
        None => CycleFinderState { tortoise: Some(next), ..state },
        Some(tortoise) => {
            let lambda = state.lambda + 1;
            if !tortoise.eq_spec(&next) {
                if state.power == lambda {
                    CycleFinderState {
                        power: state.power * 2,
                        lambda: 0,
                        mu: state.mu,
                        tortoise: Some(next),
                    }
                } else {
                    CycleFinderState { lambda, ..state }
                }
            } else {
                CycleFinderState { lambda, mu: Some(cycle_start(values, lambda, 0)), ..state }
            }
        },
    }
}

/// Whether the counters can take one more value without running over the
/// machine's word.
pub open spec fn has_room<T>(state: CycleFinderState<T>) -> bool {
    state.lambda < usize::MAX && state.power * 2 <= usize::MAX
}

/// Whether the value `next` closes a cycle.
pub open spec fn closes_cycle<T: PartialEq>(state: CycleFinderState<T>, next: T) -> bool {
    match state.tortoise {
        None => false,
        Some(tortoise) => tortoise.eq_spec(&next),
    }
}

impl<T> CycleFinder<T> where T: PartialEq {
    /// A finder that has seen no value yet.
    pub fn new() -> (finder: Self)
        ensures
            finder@ == (CycleFinderState::<T> { power: 1, lambda: 0, mu: None, tortoise: None }),
    {
        Self { power: 1, lambda: 0, mu: None, tortoise: None }
    }

    /// Whether `check_next` can take one more value.
    pub fn has_room(&self) -> (room: bool)
        ensures
            room == has_room(self@),
    {
        self.lambda < usize::MAX && self.power <= usize::MAX / 2
    }

    /// Takes in the next value of the sequence; `collection` holds the values
    /// so far. Returns the positions of the first round of the cycle where
    /// `next` closes one.
    pub fn check_next(&mut self, collection: &[T], next: T) -> (cycle: Option<Range<usize>>)
        requires
            T::obeys_eq_spec(),
            has_room(old(self)@),
        ensures
            final(self)@ == advanced(old(self)@, collection@, next),
            match cycle {
                Some(range) => {
                    &&& closes_cycle(old(self)@, next)
                    &&& final(self)@.mu == Some(range.start as nat)
                    &&& range.end == range.start + final(self)@.lambda
                },
                None => !closes_cycle(old(self)@, next),
            },
    {
        let differs = match &self.tortoise {
            None => {
                self.tortoise = Some(next);
                return None;
            },
            Some(tortoise) => *tortoise != next,
        };
        self.lambda += 1;
        if differs {
            if self.power == self.lambda {
                self.tortoise = Some(next);
                self.power *= 2;
                self.lambda = 0;
            }
            return None;
        }
        let lambda = self.lambda;
        let len = collection.len();
        let mut mu: usize = 0;
        while lambda < len && mu < len - lambda && collection[mu] != collection[mu + lambda]
            invariant
                T::obeys_eq_spec(),
                len == collection@.len(),
                lambda < len ==> mu <= len - lambda,
                cycle_start(collection@, lambda as nat, mu as nat) == cycle_start(
                    collection@,
                    lambda as nat,
                    0,
                ),
            decreases len - mu,
        {
            mu += 1;
        }
        self.mu = Some(mu);
        Some(mu..(mu + lambda))
    }
}

} // verus!
