use blindcoder::config::Config;
use blindcoder::double::Double;
use blindcoder::selector::{
    choose_candidate, credited_difficulty, pick, prune_dominated, Bounds, Rating, Tuneables,
};

fn d(x: f64) -> Double {
    Double { bits: x.to_bits() }
}

fn f(x: Double) -> f64 {
    f64::from_bits(x.bits)
}

fn rating(performance_points: i64, difficulty_points: i64) -> Rating {
    Rating {
        performance_points,
        difficulty_points,
        age_seconds: 0,
    }
}

fn session_score(r: &Rating, t: &Tuneables) -> f64 {
    let points =
        r.performance_points as f64 + f(t.difficulty_credit) * credited_difficulty(r) as f64;
    1.0 / (1.0 + (-points / f(t.score_spread)).exp())
}

fn bounds(wins: f64, losses: f64, price: f64, t: &Tuneables) -> Bounds {
    let n = wins + losses;
    let mean = wins / n;
    let std = ((wins * losses) / (n * n * (n + 1.0))).sqrt();
    let k = f(t.prune_confidence);
    let value = |q: f64| q - f(t.cost_sensitivity) * price;
    Bounds {
        pessimistic: d(value((mean - k * std).clamp(0.0, 1.0))),
        optimistic: d(value((mean + k * std).clamp(0.0, 1.0))),
    }
}

#[test]
fn pruning_drops_a_hopeless_expensive_candidate_but_keeps_the_leader() {
    let t = Config::default().tuneables();
    let keep = prune_dominated(&vec![bounds(20.0, 2.0, 0.0, &t), bounds(2.0, 20.0, 1.0, &t)]);
    assert!(keep.contains(&0), "the leader must be kept");
    assert!(!keep.contains(&1), "the hopeless expensive candidate should be pruned");
    assert!(!keep.is_empty());
}

#[test]
fn pruning_keeps_genuinely_uncertain_candidates() {
    let t = Config::default().tuneables();
    let b = bounds(1.0, 1.0, 0.5, &t);
    assert_eq!(prune_dominated(&vec![b, b]).len(), 2);
}

#[test]
fn hard_failure_is_not_a_win() {
    let t = Config::default().tuneables();
    let hard_fail = session_score(&rating(-2, 4), &t);
    assert!(hard_fail < 0.5, "hard failure scored {hard_fail} (should be a loss)");
    let plain_fail = session_score(&rating(-2, 0), &t);
    assert_eq!(hard_fail, plain_fail);
}

#[test]
fn hard_success_still_beats_trivial_success() {
    let t = Config::default().tuneables();
    assert!(session_score(&rating(2, 4), &t) > session_score(&rating(2, 0), &t));
}

#[test]
fn credit_needs_a_success() {
    assert_eq!(credited_difficulty(&rating(1, 3)), 3);
    assert_eq!(credited_difficulty(&rating(0, 3)), 0);
    assert_eq!(credited_difficulty(&rating(-1, 4)), 0);
}

#[test]
fn the_highest_value_is_picked_and_the_first_of_equals() {
    assert_eq!(pick(&vec![d(0.1), d(0.9), d(0.9)]), 1);
    assert_eq!(pick(&vec![d(-1.0)]), 0);
    assert_eq!(pick(&vec![d(-0.0), d(0.0)]), 0);
    assert_eq!(pick(&vec![d(f64::NAN), d(0.2)]), 1);
    assert_eq!(pick(&vec![d(f64::NAN), d(f64::NAN)]), 0);
    assert_eq!(choose_candidate(&vec![3, 5], &vec![d(0.1), d(0.2)]), 5);
}

#[test]
fn pruning_never_empties_the_pool() {
    let nan = Bounds {
        pessimistic: d(f64::NAN),
        optimistic: d(f64::NAN),
    };
    assert_eq!(prune_dominated(&vec![nan, nan]), vec![0, 1]);
    assert_eq!(prune_dominated(&vec![nan]), vec![0]);
    assert!(prune_dominated(&vec![]).is_empty());
}
