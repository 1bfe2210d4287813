use parameter_optimizer::study::{Parameter, RecordError, Study};

fn b(x: f64) -> u64 {
    x.to_bits()
}

fn f(x: u64) -> f64 {
    f64::from_bits(x)
}

fn two_params() -> Study {
    Study::new(vec![
        Parameter { name: "a".to_string(), low: b(0.0), high: b(10.0) },
        Parameter { name: "r".to_string(), low: b(0.0), high: b(10.0) },
    ])
}

#[test]
fn new_study_is_empty_and_running() {
    let s = two_params();
    assert_eq!(s.parameter_count(), 2);
    assert_eq!(s.parameter(1).name, "r");
    assert_eq!(s.trial_count(), 0);
    assert_eq!(s.best_fitness(), None);
    assert_eq!(s.fitness_range(), None);
    assert!(s.is_running());
    assert!(!s.is_drained());
}

#[test]
fn record_appends_and_tracks_best() {
    let mut s = two_params();
    assert_eq!(s.record(vec![b(1.0), b(2.0)], b(3.0)), Ok(true));
    assert_eq!(s.record(vec![b(4.0), b(4.0)], b(8.0)), Ok(false));
    assert_eq!(s.record(vec![b(0.5), b(0.5)], b(1.0)), Ok(true));
    assert_eq!(s.record(vec![b(0.5), b(0.5)], b(1.0)), Ok(false));
    assert_eq!(s.trial_count(), 4);
    assert_eq!(s.trial_values(1), &vec![b(4.0), b(4.0)]);
    assert_eq!(f(s.trial_fitness(2)), 1.0);
    assert_eq!(s.best_fitness().map(f), Some(1.0));
    assert_eq!(s.fitness_range().map(|(lo, hi)| (f(lo), f(hi))), Some((1.0, 8.0)));
}

#[test]
fn negative_fitness_beats_positive() {
    let mut s = two_params();
    assert_eq!(s.record(vec![b(1.0), b(1.0)], b(0.5)), Ok(true));
    assert_eq!(s.record(vec![b(1.0), b(1.0)], b(-2.0)), Ok(true));
    assert_eq!(s.best_fitness().map(f), Some(-2.0));
}

#[test]
fn wrong_arity_is_rejected() {
    let mut s = two_params();
    assert_eq!(s.record(vec![b(1.0)], b(1.0)), Err(RecordError::WrongArity));
    assert_eq!(s.record(vec![b(1.0), b(1.0), b(1.0)], f64::NAN.to_bits()), Err(RecordError::WrongArity));
    assert_eq!(s.trial_count(), 0);
}

#[test]
fn nan_fitness_is_rejected() {
    let mut s = two_params();
    assert_eq!(s.record(vec![b(20.0), b(1.0)], f64::NAN.to_bits()), Err(RecordError::NanFitness));
    assert_eq!(s.trial_count(), 0);
}

#[test]
fn value_out_of_domain_is_rejected() {
    let mut s = two_params();
    assert_eq!(s.record(vec![b(1.0), b(10.0)], b(1.0)), Err(RecordError::OutOfDomain { index: 1 }));
    assert_eq!(s.record(vec![b(-1.0), b(11.0)], b(1.0)), Err(RecordError::OutOfDomain { index: 0 }));
    assert_eq!(s.trial_count(), 0);
    assert_eq!(s.best_fitness(), None);
}

#[test]
fn shutdown_stops_new_iterations_but_not_running_ones() {
    let mut s = two_params();
    assert!(s.begin_iteration());
    assert!(s.begin_iteration());
    assert_eq!(s.in_flight_count(), 2);
    s.request_shutdown();
    assert!(!s.begin_iteration());
    assert_eq!(s.in_flight_count(), 2);
    assert_eq!(s.record(vec![b(2.0), b(3.0)], b(5.0)), Ok(true));
    s.end_iteration();
    assert!(!s.is_drained());
    s.end_iteration();
    assert!(s.is_drained());
    assert_eq!(s.trial_count(), 1);
}

// Deterministic stand-in for the optimizer's proposals: values in [0, 10).
fn propose(seed: &mut u64) -> f64 {
    *seed = seed.wrapping_mul(6364136223846793005).wrapping_add(1442695040888963407);
    ((*seed >> 11) % 1000) as f64 / 100.0
}

#[test]
fn four_workers_best_is_minimum_of_recorded() {
    // Four workers interleaved: each asks under the lock, evaluates, then records.
    let mut s = two_params();
    let mut seeds = [1u64, 2, 3, 4];
    let mut pending: Vec<Option<(f64, f64)>> = vec![None; 4];
    let mut recorded = 0usize;
    let mut round = 0;
    loop {
        let mut busy = false;
        for w in 0..4 {
            if let Some((a, r)) = pending[w].take() {
                // the stub evaluator: fitness a + r
                assert!(s.record(vec![b(a), b(r)], b(a + r)).is_ok());
                s.end_iteration();
                recorded += 1;
            }
            if s.begin_iteration() {
                pending[w] = Some((propose(&mut seeds[w]), propose(&mut seeds[w])));
                busy = true;
            }
            if round == 25 && w == 1 {
                s.request_shutdown();
            }
        }
        round += 1;
        if !busy && pending.iter().all(|p| p.is_none()) {
            break;
        }
    }
    assert!(s.is_drained());
    assert_eq!(s.trial_count(), recorded);
    assert_eq!(recorded, 4 * 25 + 2);
    let mut least = f64::INFINITY;
    for i in 0..s.trial_count() {
        let v = s.trial_values(i);
        assert_eq!(v.len(), 2);
        let (a, r) = (f(v[0]), f(v[1]));
        assert!((0.0..10.0).contains(&a) && (0.0..10.0).contains(&r));
        assert_eq!(f(s.trial_fitness(i)), a + r);
        least = least.min(a + r);
    }
    assert_eq!(s.best_fitness().map(f), Some(least));
}
