//! The stability streak of a scored trace.
//!
//! At each timestep the scorer reads the stability metric against its
//! threshold. A streak starts at the first step below the threshold and is
//! cleared at the first step at or above it; a step where the metric is
//! undefined changes nothing. The reported start is the one of the streak
//! still running when the trace ends.
use vstd::prelude::*;

verus! {

/// The stability metric at one timestep, against the threshold.
#[derive(PartialEq, Eq, Debug, Clone, Copy, Structural)]
pub enum Level {
    Below,
    AtOrAbove,
    Undefined,
}

/// The streak start after reading `level` at `step`, given the one before.
pub open spec fn advance(start: Option<nat>, level: Level, step: nat) -> Option<nat> {
    match level {
        Level::Below => if start is None {
            Some(step)
        } else {
            start
        },
        Level::AtOrAbove => None,
        Level::Undefined => start,
    }
}

/// The start of the streak running after the readings of `levels`.
pub open spec fn streak_start(levels: Seq<Level>) -> Option<nat>
    decreases levels.len(),
{
    if levels.len() == 0 {
        None
    } else {
        advance(streak_start(levels.drop_last()), levels.last(), (levels.len() - 1) as nat)
    }
}

/// Whether the metric reaches the threshold strictly between steps `j` and `k`.
pub open spec fn reset_between(levels: Seq<Level>, j: int, k: int) -> bool {
    exists|m: int| j < m < k && levels[m] == Level::AtOrAbove
}

proof fn lemma_reset_extends(p: Seq<Level>, levels: Seq<Level>, j: int, k: int)
    requires
        reset_between(p, j, k),
        0 <= j,
        k <= p.len(),
        levels.len() > 0,
        p == levels.drop_last(),
    ensures
        reset_between(levels, j, k),
{
    let m = choose|m: int| j < m < k && p[m] == Level::AtOrAbove;
    assert(levels[m] == p[m]);
}

/// What the streak start says of the readings: it is a step below the
/// threshold, no later step reaches the threshold, and every earlier step
/// below the threshold was followed by one that reached it before the start.
/// Without a streak, every step below the threshold was followed by one that
/// reached it.
pub proof fn lemma_streak_start_shape(levels: Seq<Level>)
    ensures
        match streak_start(levels) {
            Some(k) => {
                &&& k < levels.len()
                &&& levels[k as int] == Level::Below
                &&& forall|j: int| k < j < levels.len() ==> #[trigger] levels[j] != Level::AtOrAbove
                &&& forall|j: int|
                    0 <= j < k && levels[j] == Level::Below ==> #[trigger] reset_between(levels, j, k as int)
            },
            None => forall|j: int|
                0 <= j < levels.len() && levels[j] == Level::Below ==> #[trigger] reset_between(
                    levels,
                    j,
                    levels.len() as int,
                ),
        },
    decreases levels.len(),
{
    if levels.len() > 0 {
        let p = levels.drop_last();
        let n = p.len() as int;
        lemma_streak_start_shape(p);
        assert forall|j: int| 0 <= j < n implies levels[j] == #[trigger] p[j] by {}
        match streak_start(p) {
            Some(k) => {
                assert forall|j: int| 0 <= j < k && levels[j] == Level::Below implies #[trigger] reset_between(
                    levels,
                    j,
                    k as int,
                ) by {
                    assert(p[j] == levels[j]);
                    lemma_reset_extends(p, levels, j, k as int);
                }
                if levels.last() == Level::AtOrAbove {
                    assert forall|j: int|
                        0 <= j < levels.len() && levels[j] == Level::Below implies #[trigger] reset_between(
                        levels,
                        j,
                        levels.len() as int,
                    ) by {
                        assert(levels[n] == Level::AtOrAbove);
                    }
                } else {
                    assert(levels[k as int] == p[k as int]);
                    assert forall|j: int| k < j < levels.len() implies #[trigger] levels[j]
                        != Level::AtOrAbove by {
                        if j < n {
                            assert(p[j] == levels[j]);
                        }
                    }
                }
            },
            None => {
                match levels.last() {
                    Level::Below => {
                        assert forall|j: int|
                            0 <= j < n && levels[j] == Level::Below implies #[trigger] reset_between(
                            levels,
                            j,
                            n,
                        ) by {
                            assert(p[j] == levels[j]);
                            lemma_reset_extends(p, levels, j, n);
                        }
                    },
                    _ => {
                        assert forall|j: int|
                            0 <= j < levels.len() && levels[j] == Level::Below implies #[trigger] reset_between(
                            levels,
                            j,
                            levels.len() as int,
                        ) by {
                            if levels.last() == Level::AtOrAbove {
                                assert(levels[n] == Level::AtOrAbove);
                            } else {
                                assert(j < n);
                                assert(p[j] == levels[j]);
                                lemma_reset_extends(p, levels, j, n);
                                let m = choose|m: int| j < m < n && levels[m] == Level::AtOrAbove;
                                assert(j < m < levels.len() && levels[m] == Level::AtOrAbove);
                            }
                        }
                    },
                }
            },
        }
    }
}

/// A metric that reaches the threshold at step `up`, drops below it again at
/// step `down`, and does not reach it afterwards reports a streak that starts
/// after `up`: the last streak, not an earlier one.
pub proof fn lemma_last_streak_reported(levels: Seq<Level>, up: int, down: int)
    requires
        0 <= up < down < levels.len(),
        levels[up] == Level::AtOrAbove,
        levels[down] == Level::Below,
        forall|j: int| down < j < levels.len() ==> levels[j] != Level::AtOrAbove,
    ensures
        streak_start(levels) is Some,
        up < streak_start(levels)->Some_0 <= down,
{
    lemma_streak_start_shape(levels);
    match streak_start(levels) {
        Some(k) => {
            if k <= up {
                assert(levels[up] != Level::AtOrAbove);
            }
            if k > down {
                assert(reset_between(levels, down, k as int));
            }
        },
        None => {
            assert(reset_between(levels, down, levels.len() as int));
        },
    }
}

/// A metric below the threshold at every step gives a streak from the first step.
pub proof fn lemma_stable_from_start(levels: Seq<Level>)
    requires
        levels.len() > 0,
        forall|j: int| 0 <= j < levels.len() ==> levels[j] == Level::Below,
    ensures
        streak_start(levels) == Some(0nat),
{
    lemma_streak_start_shape(levels);
    match streak_start(levels) {
        Some(k) => {
            if k > 0 {
                assert(reset_between(levels, 0, k as int));
            }
        },
        None => {
            assert(reset_between(levels, 0, levels.len() as int));
        },
    }
}

/// Follows the stability metric of a trace step by step.
pub struct StabilityStreak {
    start: Option<u64>,
    steps: u64,
    history: Ghost<Seq<Level>>,
}

impl StabilityStreak {
    /// The reading of each step so far.
    pub closed spec fn history(&self) -> Seq<Level> {
        self.history@
    }

    pub closed spec fn wf(&self) -> bool {
        &&& self.steps == self.history@.len()
        &&& match streak_start(self.history@) {
            Some(k) => self.start == Some(k as u64),
            None => self.start is None,
        }
    }

    pub fn new() -> (r: Self)
        ensures
            r.wf(),
            r.history() == Seq::<Level>::empty(),
    {
        StabilityStreak { start: None, steps: 0, history: Ghost(Seq::empty()) }
    }

    /// The number of steps read.
    pub fn steps(&self) -> (r: u64)
        requires
            self.wf(),
        ensures
            r == self.history().len(),
    {
        self.steps
    }

    /// Reads the metric of the next timestep.
    pub fn observe(&mut self, level: Level)
        requires
            old(self).wf(),
            old(self).history().len() < u64::MAX,
        ensures
            final(self).wf(),
            final(self).history() == old(self).history().push(level),
    {
        let ghost prev = self.history@;
        match level {
            Level::Below => {
                if self.start.is_none() {
                    self.start = Some(self.steps);
                }
            },
            Level::AtOrAbove => {
                self.start = None;
            },
            Level::Undefined => {},
        }
        self.steps = self.steps + 1;
        self.history = Ghost(prev.push(level));
        assert(self.history@.drop_last() == prev);
    }

    /// The step at which the running streak started, or `None` when the metric
    /// has not settled below the threshold.
    pub fn start(&self) -> (r: Option<u64>)
        requires
            self.wf(),
        ensures
            match streak_start(self.history()) {
                Some(k) => r == Some(k as u64),
                None => r is None,
            },
    {
        self.start
    }
}

} // verus!
