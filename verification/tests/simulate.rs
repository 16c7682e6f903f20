use blindcoder::config::Config;
use blindcoder::double::Double;
use blindcoder::simulate::{
    argmax, check_simulation, check_sweep, checkpoint, converged, effective_tuneables, median,
    verdict, window_from, window_hits, Overrides, SimulationError, TrialLog, Verdict,
};

fn d(x: f64) -> Double {
    Double { bits: x.to_bits() }
}

#[test]
fn overrides_replace_only_what_they_name() {
    let t = Config::default().tuneables();
    let none = Overrides {
        exploration: None,
        cost_sensitivity: None,
        score_spread: None,
        difficulty_credit: None,
        rating_half_life_days: None,
    };
    assert_eq!(effective_tuneables(&t, &none), t);
    let o = Overrides {
        exploration: Some(d(0.9)),
        score_spread: Some(d(3.0)),
        ..none
    };
    let u = effective_tuneables(&t, &o);
    assert_eq!((u.exploration, u.score_spread), (d(0.9), d(3.0)));
    assert_eq!(u.cost_sensitivity, t.cost_sensitivity);
    assert_eq!(u.failure_sensitivity, t.failure_sensitivity);
}

#[test]
fn empty_runs_are_refused() {
    assert_eq!(check_simulation(0, 1, 1), Err(SimulationError::NothingToRun));
    assert_eq!(check_simulation(1, 0, 1), Err(SimulationError::NothingToRun));
    assert_eq!(check_simulation(1, 1, 0), Err(SimulationError::NothingToRun));
    assert_eq!(check_simulation(1, 1, 1), Ok(()));
    assert_eq!(check_sweep(0, 2), Err(SimulationError::NothingToSweep));
    assert_eq!(check_sweep(2, 0), Err(SimulationError::NothingToSweep));
    assert_eq!(check_sweep(2, 2), Ok(()));
    assert!(SimulationError::NothingToRun.message() != SimulationError::NothingToSweep.message());
}

#[test]
fn windows_count_the_recent_hits() {
    let hits = vec![true, false, true, true];
    assert_eq!(window_from(4, 2), 2);
    assert_eq!(window_from(1, 2), 0);
    assert_eq!(window_hits(&hits, 4, 3), (2, 3));
    assert_eq!(window_hits(&hits, 1, 3), (1, 1));
    assert_eq!(window_hits(&hits, 0, 3), (0, 0));
}

#[test]
fn medians_take_the_upper_middle() {
    assert_eq!(median(&vec![]), None);
    assert_eq!(median(&vec![5]), Some(5));
    assert_eq!(median(&vec![9, 1, 5]), Some(5));
    assert_eq!(median(&vec![4, 1, 3, 2]), Some(3));
}

#[test]
fn the_best_arm_is_the_first_highest() {
    assert_eq!(argmax(&vec![d(0.2), d(0.9), d(0.1)]), 1);
}

#[test]
fn verdicts_have_thresholds() {
    assert_eq!(verdict(&d(0.9), &d(0.8)), Verdict::Go);
    assert_eq!(verdict(&d(0.9), &d(0.79)), Verdict::Marginal);
    assert_eq!(verdict(&d(0.89), &d(1.0)), Verdict::Marginal);
    assert_eq!(verdict(&d(0.7), &d(0.0)), Verdict::Marginal);
    assert_eq!(verdict(&d(0.69), &d(1.0)), Verdict::NoGo);
    assert_eq!(verdict(&d(f64::NAN), &d(1.0)), Verdict::NoGo);
    assert_eq!(Verdict::Go.tag(), "GO");
    assert_eq!(Verdict::Marginal.tag(), "MARGINAL");
    assert_eq!(Verdict::NoGo.tag(), "NO-GO");
    assert!(Verdict::NoGo.text().starts_with("NO-GO"));
}

#[test]
fn a_trial_converges_once() {
    let (mut log, due) = TrialLog::new(2).note(false, false);
    assert_eq!(due, None, "no window is full yet");
    log.settle(true);
    assert_eq!(log.converged_at(), None, "nothing settles before the first full window");
    let (mut log, due) = log.note(true, true);
    assert_eq!(due, Some((1, 2)));
    log.settle(false);
    assert_eq!(log.converged_at(), None);
    let (mut log, due) = log.note(false, true);
    assert_eq!(due, Some((2, 2)));
    log.settle(true);
    assert_eq!(log.converged_at(), Some(3));
    let (mut log, due) = log.note(false, true);
    assert_eq!(due, None);
    log.settle(true);
    assert_eq!(log.converged_at(), Some(3));
    assert_eq!(log.best(), &vec![false, true, false, false]);
    assert_eq!(log.good(), &vec![false, true, true, true]);
}

#[test]
fn the_first_good_window_is_when_a_trial_converges() {
    let goods = [false, true, false, true, true, true, false, true];
    let window = 3;
    let mut log = TrialLog::new(window);
    for good in goods {
        let (mut next, due) = log.note(false, good);
        let reached = due.map_or(false, |(hits, of)| hits == of);
        next.settle(reached);
        log = next;
    }
    let first = (window..=goods.len()).find(|n| goods[n - window..*n].iter().all(|g| *g));
    assert_eq!(first, Some(6));
    assert_eq!(log.converged_at(), first);
}

#[test]
fn checkpoints_are_whole_quarters() {
    for sessions in [1usize, 2, 3, 5, 7, 10, 399, 400, 401] {
        for (quarter, frac) in [(1, 0.25), (2, 0.50), (3, 0.75), (4, 1.0)] {
            let want = ((sessions as f64 * frac) as usize).max(1);
            assert_eq!(checkpoint(sessions, quarter), want);
        }
    }
}

#[test]
fn only_converged_trials_count() {
    assert_eq!(converged(&vec![Some(7), None, Some(3)]), vec![7, 3]);
    assert!(converged(&vec![None]).is_empty());
}
