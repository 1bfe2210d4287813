//! The shared state of a search: the tunable parameters, the trials recorded
//! so far, the best of them, and the bookkeeping that lets workers stop.
//!
//! Workers hold this state under one lock. A worker starts an iteration only
//! while the study runs, evaluates outside the lock, and then either records a
//! trial or abandons the iteration; either way it ends it.
use vstd::prelude::*;
use crate::order::{in_domain, is_nan, is_nan_bits, less, precedes, within};

verus! {

/// A tunable dimension: a name and the half-open interval of its values,
/// both bounds as double bit patterns.
pub struct Parameter {
    pub name: String,
    pub low: u64,
    pub high: u64,
}

/// One completed evaluation: a value for each parameter, in the study's
/// parameter order, and the fitness it scored (lower is better).
pub struct Trial {
    pub values: Vec<u64>,
    pub fitness: u64,
}

/// Why an evaluation could not be recorded.
#[derive(PartialEq, Eq, Debug, Clone, Copy, Structural)]
pub enum RecordError {
    /// The assignment does not hold exactly one value per parameter.
    WrongArity,
    /// The fitness is not a number.
    NanFitness,
    /// The value at `index` lies outside its parameter's interval.
    OutOfDomain { index: usize },
}

/// Whether `values` gives each parameter of `params` a value of its interval.
pub open spec fn admissible(params: Seq<Parameter>, values: Seq<u64>) -> bool {
    &&& values.len() == params.len()
    &&& forall|i: int|
        0 <= i < values.len() ==> #[trigger] in_domain(values[i], params[i].low, params[i].high)
}

/// Whether an evaluation of `values` scoring `fitness` can be recorded.
pub open spec fn recordable(params: Seq<Parameter>, values: Seq<u64>, fitness: u64) -> bool {
    admissible(params, values) && !is_nan_bits(fitness)
}

/// Whether `e` is the error given for `values` and `fitness`: a wrong arity
/// first, then a NaN fitness, then the first value out of its interval.
pub open spec fn rejects(params: Seq<Parameter>, values: Seq<u64>, fitness: u64, e: RecordError) -> bool {
    match e {
        RecordError::WrongArity => values.len() != params.len(),
        RecordError::NanFitness => values.len() == params.len() && is_nan_bits(fitness),
        RecordError::OutOfDomain { index } => {
            &&& values.len() == params.len()
            &&& !is_nan_bits(fitness)
            &&& index < values.len()
            &&& !in_domain(values[index as int], params[index as int].low, params[index as int].high)
            &&& forall|j: int|
                0 <= j < index ==> #[trigger] in_domain(values[j], params[j].low, params[j].high)
        },
    }
}

/// Checks that an evaluation of `values` scoring `fitness` can be recorded
/// against `params`.
pub fn validate(params: &Vec<Parameter>, values: &Vec<u64>, fitness: u64) -> (r: Result<(), RecordError>)
    ensures
        r is Ok <==> recordable(params@, values@, fitness),
        r matches Err(e) ==> rejects(params@, values@, fitness, e),
{
    if values.len() != params.len() {
        return Err(RecordError::WrongArity);
    }
    if is_nan(fitness) {
        return Err(RecordError::NanFitness);
    }
    let mut i: usize = 0;
    while i < values.len()
        invariant
            values@.len() == params@.len(),
            !is_nan_bits(fitness),
            i <= values.len(),
            forall|j: int| 0 <= j < i ==> #[trigger] in_domain(values@[j], params@[j].low, params@[j].high),
        decreases values.len() - i,
    {
        if !within(values[i], params[i].low, params[i].high) {
            return Err(RecordError::OutOfDomain { index: i });
        }
        i = i + 1;
    }
    Ok(())
}

/// What a study is, as far as its callers can tell.
pub struct StudyModel {
    pub params: Seq<Parameter>,
    pub trials: Seq<(Seq<u64>, u64)>,
    pub running: bool,
    pub in_flight: nat,
}

/// One operation on a study.
pub enum Step {
    /// A worker asks to start an iteration.
    Begin,
    /// A worker records an evaluation: its values and its fitness.
    Record(Seq<u64>, u64),
    /// A worker ends its iteration.
    End,
    /// The operator stops the search.
    Shutdown,
}

/// The study after step `s`.
pub open spec fn next(m: StudyModel, s: Step) -> StudyModel {
    match s {
        Step::Begin => if m.running {
            StudyModel { in_flight: m.in_flight + 1, ..m }
        } else {
            m
        },
        Step::Record(values, fitness) => if recordable(m.params, values, fitness) {
            StudyModel { trials: m.trials.push((values, fitness)), ..m }
        } else {
            m
        },
        Step::End => StudyModel {
            in_flight: if m.in_flight > 0 { (m.in_flight - 1) as nat } else { 0 },
            ..m
        },
        Step::Shutdown => StudyModel { running: false, ..m },
    }
}

/// The study after the steps of `steps`, in order.
pub open spec fn after(m: StudyModel, steps: Seq<Step>) -> StudyModel
    decreases steps.len(),
{
    if steps.len() == 0 {
        m
    } else {
        next(after(m, steps.drop_last()), steps.last())
    }
}

/// How many steps of `steps` record an evaluation that can be recorded.
pub open spec fn successes(params: Seq<Parameter>, steps: Seq<Step>) -> nat
    decreases steps.len(),
{
    if steps.len() == 0 {
        0
    } else {
        successes(params, steps.drop_last()) + match steps.last() {
            Step::Record(values, fitness) => if recordable(params, values, fitness) {
                1nat
            } else {
                0nat
            },
            _ => 0nat,
        }
    }
}

/// After any interleaving of the workers' steps, the study holds one more
/// trial for each successful iteration and no other, each trial giving every
/// parameter a value of its interval; the parameters never change.
pub proof fn lemma_trials_count_successes(m: StudyModel, steps: Seq<Step>)
    requires
        forall|i: int| 0 <= i < m.trials.len() ==> #[trigger] admissible(m.params, m.trials[i].0),
    ensures
        after(m, steps).params == m.params,
        after(m, steps).trials.len() == m.trials.len() + successes(m.params, steps),
        forall|i: int|
            0 <= i < after(m, steps).trials.len() ==> #[trigger] admissible(
                m.params,
                after(m, steps).trials[i].0,
            ),
    decreases steps.len(),
{
    if steps.len() > 0 {
        let prefix = steps.drop_last();
        lemma_trials_count_successes(m, prefix);
        let before = after(m, prefix);
        let now = after(m, steps);
        assert forall|i: int| 0 <= i < now.trials.len() implies #[trigger] admissible(
            m.params,
            now.trials[i].0,
        ) by {
            if i < before.trials.len() {
                assert(now.trials[i] == before.trials[i]);
            }
        }
    }
}

/// Once the search is stopped it stays stopped and no iteration starts: the
/// number of iterations under way never grows. The ones under way are still
/// recorded: every successful record still adds its trial.
pub proof fn lemma_no_iteration_after_shutdown(m: StudyModel, steps: Seq<Step>)
    requires
        !m.running,
    ensures
        !after(m, steps).running,
        after(m, steps).in_flight <= m.in_flight,
        after(m, steps).trials.len() == m.trials.len() + successes(m.params, steps),
        after(m, steps).params == m.params,
    decreases steps.len(),
{
    if steps.len() > 0 {
        lemma_no_iteration_after_shutdown(m, steps.drop_last());
    }
}

/// The state shared by all workers of a search.
pub struct Study {
    params: Vec<Parameter>,
    trials: Vec<Trial>,
    best: Option<usize>,
    running: bool,
    in_flight: u64,
}

impl Study {
    pub closed spec fn params(&self) -> Seq<Parameter> {
        self.params@
    }

    /// The recorded trials in the order they were recorded, each as its
    /// values and its fitness.
    pub closed spec fn trials(&self) -> Seq<(Seq<u64>, u64)> {
        Seq::new(self.trials@.len(), |i: int| (self.trials@[i].values@, self.trials@[i].fitness))
    }

    pub closed spec fn model(&self) -> StudyModel {
        StudyModel {
            params: self.params(),
            trials: self.trials(),
            running: self.running,
            in_flight: self.in_flight as nat,
        }
    }

    /// Whether new iterations may start.
    pub closed spec fn running(&self) -> bool {
        self.running
    }

    /// The number of iterations started and not yet ended.
    pub closed spec fn in_flight(&self) -> nat {
        self.in_flight as nat
    }

    /// The index of the best trial: the first one with the least fitness.
    pub closed spec fn best(&self) -> Option<nat> {
        match self.best {
            Some(b) => Some(b as nat),
            None => None,
        }
    }

    /// The fitness of the best trial.
    pub open spec fn best_fitness_of(&self) -> Option<u64> {
        match self.best() {
            Some(b) => Some(self.trials()[b as int].1),
            None => None,
        }
    }

    pub open spec fn wf(&self) -> bool {
        &&& forall|i: int|
            0 <= i < self.trials().len() ==> #[trigger] recordable(
                self.params(),
                self.trials()[i].0,
                self.trials()[i].1,
            )
        &&& match self.best() {
            None => self.trials().len() == 0,
            Some(b) => {
                &&& b < self.trials().len()
                &&& forall|j: int|
                    0 <= j < self.trials().len() ==> !precedes(
                        #[trigger] self.trials()[j].1,
                        self.trials()[b as int].1,
                    )
                &&& forall|j: int|
                    0 <= j < b ==> precedes(self.trials()[b as int].1, #[trigger] self.trials()[j].1)
            },
        }
    }

    /// A running study over `params`, with no trials and no iteration started.
    pub fn new(params: Vec<Parameter>) -> (r: Self)
        ensures
            r.wf(),
            r.model() == (StudyModel {
                params: params@,
                trials: Seq::empty(),
                running: true,
                in_flight: 0,
            }),
            r.best_fitness_of() is None,
            r.params() == params@,
            r.trials() == Seq::<(Seq<u64>, u64)>::empty(),
            r.running(),
            r.in_flight() == 0,
    {
        let r = Study { params, trials: Vec::new(), best: None, running: true, in_flight: 0 };
        assert(r.trials() =~= Seq::<(Seq<u64>, u64)>::empty());
        r
    }

    /// Records an evaluation of `values` that scored `fitness`, and tells
    /// whether it improved on the best trial.
    ///
    /// Nothing changes when the evaluation cannot be recorded. Whether the
    /// study still runs does not matter: an iteration already started is
    /// recorded after a shutdown too.
    pub fn record(&mut self, values: Vec<u64>, fitness: u64) -> (r: Result<bool, RecordError>)
        requires
            old(self).wf(),
            old(self).trials().len() < usize::MAX,
        ensures
            final(self).wf(),
            final(self).model() == next(old(self).model(), Step::Record(values@, fitness)),
            final(self).params() == old(self).params(),
            final(self).running() == old(self).running(),
            final(self).in_flight() == old(self).in_flight(),
            r is Ok <==> recordable(old(self).params(), values@, fitness),
            match r {
                Ok(improved) => {
                    &&& final(self).trials() == old(self).trials().push((values@, fitness))
                    &&& improved == match old(self).best_fitness_of() {
                        Some(f) => precedes(fitness, f),
                        None => true,
                    }
                    &&& final(self).best_fitness_of() == if improved {
                        Some(fitness)
                    } else {
                        old(self).best_fitness_of()
                    }
                },
                Err(e) => {
                    &&& rejects(old(self).params(), values@, fitness, e)
                    &&& final(self).trials() == old(self).trials()
                    &&& final(self).best_fitness_of() == old(self).best_fitness_of()
                },
            },
    {
        match validate(&self.params, &values, fitness) {
            Err(e) => Err(e),
            Ok(()) => {
                let ghost prev = self.trials();
                let ghost vals = values@;
                let ghost prev_best = self.best();
                let improved = match self.best {
                    Some(b) => less(fitness, self.trials[b].fitness),
                    None => true,
                };
                let n = self.trials.len();
                self.trials.push(Trial { values, fitness });
                if improved {
                    self.best = Some(n);
                }
                assert(self.trials() =~= prev.push((values@, fitness)));
                proof {
                    let cur = self.trials();
                    assert forall|i: int| 0 <= i < cur.len() implies #[trigger] recordable(
                        self.params(),
                        cur[i].0,
                        cur[i].1,
                    ) by {
                        if i < prev.len() {
                            assert(cur[i] == prev[i]);
                            assert(recordable(old(self).params(), old(self).trials()[i].0, old(self).trials()[i].1));
                        } else {
                            assert(cur[i] == (vals, fitness));
                            assert(recordable(self.params(), vals, fitness));
                        }
                    }
                    if improved {
                        assert forall|j: int| 0 <= j < cur.len() implies !precedes(
                            #[trigger] cur[j].1,
                            cur[n as int].1,
                        ) by {
                            if j < prev.len() {
                                assert(cur[j] == prev[j]);
                                let b = prev_best->Some_0;
                                assert(!precedes(prev[j].1, prev[b as int].1));
                            }
                        }
                        assert forall|j: int| 0 <= j < n implies precedes(
                            cur[n as int].1,
                            #[trigger] cur[j].1,
                        ) by {
                            assert(cur[j] == prev[j]);
                            let b = prev_best->Some_0;
                            assert(!precedes(prev[j].1, prev[b as int].1));
                        }
                    } else {
                        let b = prev_best->Some_0;
                        assert(cur[b as int] == prev[b as int]);
                        assert forall|j: int| 0 <= j < cur.len() implies !precedes(
                            #[trigger] cur[j].1,
                            cur[b as int].1,
                        ) by {
                            if j < prev.len() {
                                assert(cur[j] == prev[j]);
                            }
                        }
                        assert forall|j: int| 0 <= j < b implies precedes(
                            cur[b as int].1,
                            #[trigger] cur[j].1,
                        ) by {
                            assert(cur[j] == prev[j]);
                        }
                    }
                }
                Ok(improved)
            },
        }
    }

    /// Starts an iteration if the study runs, and tells whether it did.
    pub fn begin_iteration(&mut self) -> (r: bool)
        requires
            old(self).in_flight() < u64::MAX,
        ensures
            final(self).model() == next(old(self).model(), Step::Begin),
            r == old(self).running(),
            final(self).in_flight() == if r { old(self).in_flight() + 1 } else { old(self).in_flight() },
            final(self).running() == old(self).running(),
            final(self).params() == old(self).params(),
            final(self).trials() == old(self).trials(),
            final(self).best() == old(self).best(),
    {
        if self.running {
            self.in_flight = self.in_flight + 1;
            true
        } else {
            false
        }
    }

    /// Ends an iteration, recorded or abandoned.
    pub fn end_iteration(&mut self)
        requires
            old(self).in_flight() > 0,
        ensures
            final(self).model() == next(old(self).model(), Step::End),
            final(self).in_flight() == old(self).in_flight() - 1,
            final(self).running() == old(self).running(),
            final(self).params() == old(self).params(),
            final(self).trials() == old(self).trials(),
            final(self).best() == old(self).best(),
    {
        self.in_flight = self.in_flight - 1;
    }

    /// Stops the study: no iteration starts after this, and the ones under
    /// way may still be recorded and ended.
    pub fn request_shutdown(&mut self)
        ensures
            final(self).model() == next(old(self).model(), Step::Shutdown),
            !final(self).running(),
            final(self).in_flight() == old(self).in_flight(),
            final(self).params() == old(self).params(),
            final(self).trials() == old(self).trials(),
            final(self).best() == old(self).best(),
    {
        self.running = false;
    }

    pub fn is_running(&self) -> (r: bool)
        ensures
            r == self.running(),
    {
        self.running
    }

    pub fn in_flight_count(&self) -> (r: u64)
        ensures
            r == self.in_flight(),
    {
        self.in_flight
    }

    /// Whether the study is stopped and no iteration is under way, so that
    /// the trials will not change any more.
    pub fn is_drained(&self) -> (r: bool)
        ensures
            r == (!self.running() && self.in_flight() == 0),
    {
        !self.running && self.in_flight == 0
    }

    pub fn parameter_count(&self) -> (r: usize)
        ensures
            r == self.params().len(),
    {
        self.params.len()
    }

    pub fn parameter(&self, i: usize) -> (r: &Parameter)
        requires
            i < self.params().len(),
        ensures
            *r == self.params()[i as int],
    {
        &self.params[i]
    }

    pub fn trial_count(&self) -> (r: usize)
        ensures
            r == self.trials().len(),
    {
        self.trials.len()
    }

    /// The values of the trial at `i`, in parameter order.
    pub fn trial_values(&self, i: usize) -> (r: &Vec<u64>)
        requires
            i < self.trials().len(),
        ensures
            r@ == self.trials()[i as int].0,
    {
        &self.trials[i].values
    }

    pub fn trial_fitness(&self, i: usize) -> (r: u64)
        requires
            i < self.trials().len(),
        ensures
            r == self.trials()[i as int].1,
    {
        self.trials[i].fitness
    }

    /// The fitness of the best trial, or `None` before the first trial.
    pub fn best_fitness(&self) -> (r: Option<u64>)
        requires
            self.wf(),
        ensures
            r == self.best_fitness_of(),
    {
        match self.best {
            Some(b) => Some(self.trials[b].fitness),
            None => None,
        }
    }

    /// The least and the greatest fitness over the trials, or `None` when
    /// there is none.
    pub fn fitness_range(&self) -> (r: Option<(u64, u64)>)
        requires
            self.wf(),
        ensures
            r is None <==> self.trials().len() == 0,
            r matches Some((lo, hi)) ==> {
                &&& exists|i: int| 0 <= i < self.trials().len() && #[trigger] self.trials()[i].1 == lo
                &&& exists|i: int| 0 <= i < self.trials().len() && #[trigger] self.trials()[i].1 == hi
                &&& forall|i: int|
                    0 <= i < self.trials().len() ==> !precedes(#[trigger] self.trials()[i].1, lo)
                        && !precedes(hi, self.trials()[i].1)
            },
    {
        let n = self.trials.len();
        if n == 0 {
            return None;
        }
        let mut lo = self.trials[0].fitness;
        let mut hi = self.trials[0].fitness;
        let ghost t = self.trials();
        assert(t[0].1 == lo);
        let mut i: usize = 1;
        while i < n
            invariant
                n == t.len(),
                t == self.trials(),
                1 <= i <= n,
                exists|k: int| 0 <= k < i && #[trigger] t[k].1 == lo,
                exists|k: int| 0 <= k < i && #[trigger] t[k].1 == hi,
                forall|k: int| 0 <= k < i ==> !precedes(#[trigger] t[k].1, lo) && !precedes(hi, t[k].1),
            decreases n - i,
        {
            let f = self.trials[i].fitness;
            assert(t[i as int].1 == f);
            if less(f, lo) {
                lo = f;
            }
            if less(hi, f) {
                hi = f;
            }
            i = i + 1;
        }
        Some((lo, hi))
    }
}


/// The best fitness of a study is the least fitness over its trials, held by
/// one of them, and there is none before the first trial.
pub proof fn lemma_best_is_minimum(s: Study)
    requires
        s.wf(),
    ensures
        s.trials().len() == 0 ==> s.best_fitness_of() is None,
        s.trials().len() > 0 ==> {
            &&& s.best_fitness_of() is Some
            &&& exists|i: int|
                0 <= i < s.trials().len() && #[trigger] s.trials()[i].1 == s.best_fitness_of()->Some_0
            &&& forall|i: int|
                0 <= i < s.trials().len() ==> !precedes(
                    #[trigger] s.trials()[i].1,
                    s.best_fitness_of()->Some_0,
                )
        },
{
    if s.trials().len() > 0 {
        let b = s.best()->Some_0;
        assert(s.trials()[b as int].1 == s.best_fitness_of()->Some_0);
    }
}

/// Every recorded trial gives each declared parameter a value of its interval.
pub proof fn lemma_trials_cover_parameters(s: Study)
    requires
        s.wf(),
    ensures
        forall|i: int|
            0 <= i < s.trials().len() ==> #[trigger] admissible(s.params(), s.trials()[i].0),
{
    assert forall|i: int| 0 <= i < s.trials().len() implies #[trigger] admissible(
        s.params(),
        s.trials()[i].0,
    ) by {
        assert(recordable(s.params(), s.trials()[i].0, s.trials()[i].1));
    }
}

} // verus!
