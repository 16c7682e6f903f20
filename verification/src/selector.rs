//! The selector's decisions: which evidence counts, which candidates can still win, and which of
//! them a session goes to.
//!
//! Scores arrive as doubles, and their order is all that is read of them. Drawing them is the
//! program's part.

use vstd::prelude::*;

use crate::double::Double;

verus! {

/// The selector's knobs.
#[derive(Clone, Copy, Debug, PartialEq, Eq, Structural)]
pub struct Tuneables {
    /// How strongly price is held against a candidate; 0 ignores price.
    pub cost_sensitivity: Double,
    /// How much a hard task lifts the score of a rating.
    pub difficulty_credit: Double,
    /// After how many days a rating counts half.
    pub rating_half_life_days: Double,
    /// How much of the uncertainty enters a draw.
    pub exploration: Double,
    /// How far apart the performance points lie on the score scale.
    pub score_spread: Double,
    /// How many standard deviations wide the interval for pruning is.
    pub prune_confidence: Double,
    /// How much failed sessions count; 0 ignores them.
    pub failure_sensitivity: Double,
}

/// A rating, as the fold reads it.
#[derive(Clone, Copy, Debug, PartialEq, Eq, Structural)]
pub struct Rating {
    /// From -2 to 2.
    pub performance_points: i64,
    /// From 0 to 4.
    pub difficulty_points: i64,
    pub age_seconds: u64,
}

/// A failed session, as the fold reads it: pure loss.
#[derive(Clone, Copy, Debug, PartialEq, Eq, Structural)]
pub struct Failure {
    /// How strongly it counts, in hundredths.
    pub loss_weight: u64,
    pub age_seconds: u64,
}

/// The difficulty that a rating earns credit for. Credit is a correction for harder work well
/// done: it never rescues a failure, so only a positive performance earns it.
pub open spec fn credited(r: Rating) -> int {
    if r.performance_points > 0 {
        r.difficulty_points as int
    } else {
        0
    }
}

/// The difficulty that a rating earns credit for.
pub fn credited_difficulty(r: &Rating) -> (d: i64)
    ensures
        d == credited(*r),
{
    if r.performance_points > 0 {
        r.difficulty_points
    } else {
        0
    }
}

/// However hard the task was, a rating that is not positive earns no credit for it.
pub proof fn lemma_difficulty_never_rescues_a_failure(r: Rating, easier: Rating)
    requires
        r.performance_points <= 0,
        easier.performance_points == r.performance_points,
    ensures
        credited(r) == credited(easier),
        credited(r) == 0,
{
}

/// The bits of negative infinity.
pub const NEGATIVE_INFINITY: u64 = 0xfff0_0000_0000_0000;

/// Whether `i` is the first of the highest values. Only numbers above negative infinity compete;
/// where there are none the first position is taken.
pub open spec fn is_best(values: Seq<Double>, i: int) -> bool {
    let floor = Double { bits: NEGATIVE_INFINITY };
    if exists|k: int| 0 <= k < values.len() && floor.below(#[trigger] values[k]) {
        &&& 0 <= i < values.len()
        &&& floor.below(values[i])
        &&& forall|k: int| 0 <= k < values.len() ==> !values[i].below(#[trigger] values[k])
        &&& forall|k: int| 0 <= k < i ==> !(#[trigger] values[k]).same(values[i])
    } else {
        i == 0
    }
}

/// The first of the highest values.
pub fn pick(values: &Vec<Double>) -> (r: usize)
    requires
        values@.len() > 0,
    ensures
        r < values@.len(),
        is_best(values@, r as int),
{
    let floor: Double = Double { bits: NEGATIVE_INFINITY };
    let mut best: usize = 0;
    let mut top: Double = floor;
    let mut found: bool = false;
    let mut i: usize = 0;
    while i < values.len()
        invariant
            i <= values@.len(),
            values@.len() > 0,
            floor == (Double { bits: NEGATIVE_INFINITY }),
            best < values@.len(),
            !top.nan(),
            !found ==> best == 0 && top == floor,
            found ==> best < i && top == values@[best as int] && floor.below(top),
            forall|k: int| 0 <= k < i ==> !top.below(#[trigger] values@[k]),
            found ==> forall|k: int| 0 <= k < best ==> !(#[trigger] values@[k]).same(top),
        decreases values@.len() - i,
    {
        let v: Double = values[i];
        if top.less(&v) {
            best = i;
            top = v;
            found = true;
        }
        i = i + 1;
    }
    proof {
        if found {
            assert(floor.below(values@[best as int]));
        } else {
            assert forall|k: int| 0 <= k < values@.len() implies !floor.below(
                #[trigger] values@[k],
            ) by {}
        }
    }
    best
}

/// The lowest and the highest value that a candidate can plausibly have.
#[derive(Clone, Copy, Debug, PartialEq, Eq, Structural)]
pub struct Bounds {
    pub pessimistic: Double,
    pub optimistic: Double,
}

/// Whether the candidate at a position can still win: its optimistic value reaches every
/// pessimistic one.
pub open spec fn can_win(bounds: Seq<Bounds>, i: int) -> bool {
    !bounds[i].optimistic.nan() && forall|k: int|
        0 <= k < bounds.len() ==> (#[trigger] bounds[k]).pessimistic.nan()
            || bounds[k].pessimistic.rank() <= bounds[i].optimistic.rank()
}

/// The positions from 0 up to `n` that are kept.
pub open spec fn kept_below(n: int, keep: spec_fn(int) -> bool) -> Seq<int>
    decreases n,
{
    if n <= 0 {
        Seq::empty()
    } else if keep(n - 1) {
        kept_below(n - 1, keep).push(n - 1)
    } else {
        kept_below(n - 1, keep)
    }
}

/// What is kept, said directly: the kept positions, in order.
pub proof fn lemma_kept_below(n: int, keep: spec_fn(int) -> bool)
    requires
        0 <= n,
    ensures
        forall|i: int| 0 <= i < n && keep(i) ==> kept_below(n, keep).contains(i),
        forall|k: int|
            0 <= k < kept_below(n, keep).len() ==> 0 <= #[trigger] kept_below(n, keep)[k] < n
                && keep(kept_below(n, keep)[k]),
        forall|a: int, b: int|
            0 <= a < b < kept_below(n, keep).len() ==> #[trigger] kept_below(n, keep)[a]
                < #[trigger] kept_below(n, keep)[b],
    decreases n,
{
    if n > 0 {
        lemma_kept_below(n - 1, keep);
        let before = kept_below(n - 1, keep);
        let now = kept_below(n, keep);
        assert forall|i: int| 0 <= i < n && keep(i) implies now.contains(i) by {
            if i < n - 1 {
                let k = choose|k: int| 0 <= k < before.len() && before[k] == i;
                assert(before.contains(i));
                assert(now[k] == i);
            } else {
                assert(now[before.len() as int] == i);
            }
        }
    }
}

/// The candidates that pruning leaves: those that can still win, or all where none can.
pub open spec fn survivors(bounds: Seq<Bounds>) -> Seq<int> {
    let winners = kept_below(bounds.len() as int, |i: int| can_win(bounds, i));
    if winners.len() == 0 {
        kept_below(bounds.len() as int, |i: int| true)
    } else {
        winners
    }
}

/// Pruning never leaves nothing.
pub proof fn lemma_pruning_leaves_someone(bounds: Seq<Bounds>)
    requires
        bounds.len() > 0,
    ensures
        survivors(bounds).len() > 0,
{
    lemma_kept_below(bounds.len() as int, |i: int| true);
    assert(kept_below(bounds.len() as int, |i: int| true).contains(0));
}

/// The leader is never pruned: a candidate whose pessimistic value is the highest survives.
pub proof fn lemma_leader_survives(bounds: Seq<Bounds>, i: int)
    requires
        0 <= i < bounds.len(),
        !bounds[i].pessimistic.nan(),
        !bounds[i].optimistic.nan(),
        bounds[i].pessimistic.rank() <= bounds[i].optimistic.rank(),
        forall|k: int|
            0 <= k < bounds.len() ==> (#[trigger] bounds[k]).pessimistic.nan()
                || bounds[k].pessimistic.rank() <= bounds[i].pessimistic.rank(),
    ensures
        survivors(bounds).contains(i),
{
    let keep = |i: int| can_win(bounds, i);
    lemma_kept_below(bounds.len() as int, keep);
    assert(keep(i));
    assert(kept_below(bounds.len() as int, keep).contains(i));
}

/// A candidate that cannot reach another's pessimistic value is pruned.
pub proof fn lemma_dominated_is_pruned(bounds: Seq<Bounds>, i: int, k: int)
    requires
        0 <= i < bounds.len(),
        0 <= k < bounds.len(),
        bounds[i].optimistic.below(bounds[k].pessimistic),
        exists|w: int| 0 <= w < bounds.len() && #[trigger] can_win(bounds, w),
    ensures
        !survivors(bounds).contains(i),
{
    let keep = |i: int| can_win(bounds, i);
    lemma_kept_below(bounds.len() as int, keep);
    let winners = kept_below(bounds.len() as int, keep);
    let w = choose|w: int| 0 <= w < bounds.len() && #[trigger] can_win(bounds, w);
    assert(keep(w));
    assert(winners.contains(w));
    assert(winners.len() > 0);
    if winners.contains(i) {
        let x = choose|x: int| 0 <= x < winners.len() && winners[x] == i;
        assert(keep(winners[x]));
        assert(bounds[k].pessimistic.nan() || bounds[k].pessimistic.rank()
            <= bounds[i].optimistic.rank());
    }
}

/// Whether the candidate at a position can still win.
fn still_wins(bounds: &Vec<Bounds>, i: usize) -> (r: bool)
    requires
        i < bounds@.len(),
    ensures
        r == can_win(bounds@, i as int),
{
    let top: Double = bounds[i].optimistic;
    if top.is_nan() {
        return false;
    }
    let mut k: usize = 0;
    while k < bounds.len()
        invariant
            k <= bounds@.len(),
            i < bounds@.len(),
            top == bounds@[i as int].optimistic,
            !top.nan(),
            forall|j: int|
                0 <= j < k ==> (#[trigger] bounds@[j]).pessimistic.nan()
                    || bounds@[j].pessimistic.rank() <= top.rank(),
        decreases bounds@.len() - k,
    {
        if top.less(&bounds[k].pessimistic) {
            return false;
        }
        k = k + 1;
    }
    true
}

/// Drops the candidates that provably cannot win: those whose optimistic value trails another's
/// pessimistic one. Price is known exactly, so a costly candidate whose best case trails a cheaper
/// one's cautious case never wins. Returns the positions that are left, in order.
pub fn prune_dominated(bounds: &Vec<Bounds>) -> (r: Vec<usize>)
    ensures
        crate::tables::positions(r@) == survivors(bounds@),
{
    let ghost keep = |i: int| can_win(bounds@, i);
    let mut out: Vec<usize> = Vec::new();
    let mut i: usize = 0;
    while i < bounds.len()
        invariant
            i <= bounds@.len(),
            keep == (|i: int| can_win(bounds@, i)),
            crate::tables::positions(out@) == kept_below(i as int, keep),
        decreases bounds@.len() - i,
    {
        let ghost before = out@;
        if still_wins(bounds, i) {
            out.push(i);
            proof {
                assert(crate::tables::positions(out@) =~= crate::tables::positions(before).push(
                    i as int,
                ));
            }
        }
        i = i + 1;
    }
    if out.len() > 0 {
        return out;
    }
    proof {
        assert(kept_below(bounds@.len() as int, keep).len() == 0);
    }
    let ghost every = |i: int| true;
    let mut all: Vec<usize> = Vec::new();
    let mut k: usize = 0;
    while k < bounds.len()
        invariant
            k <= bounds@.len(),
            every == (|i: int| true),
            crate::tables::positions(all@) == kept_below(k as int, every),
        decreases bounds@.len() - k,
    {
        let ghost before = all@;
        all.push(k);
        proof {
            assert(crate::tables::positions(all@) =~= crate::tables::positions(before).push(
                k as int,
            ));
        }
        k = k + 1;
    }
    all
}

/// The candidate that a session goes to: of those that pruning left, the first with the highest
/// drawn value.
pub fn choose_candidate(active: &Vec<usize>, values: &Vec<Double>) -> (r: usize)
    requires
        active@.len() > 0,
        values@.len() == active@.len(),
    ensures
        exists|k: int| #[trigger] is_best(values@, k) && 0 <= k < active@.len() && r == active@[k],
{
    let k: usize = pick(values);
    proof {
        assert(is_best(values@, k as int));
    }
    active[k]
}

/// A candidate that may still be the best is never pruned: whoever is not surely behind another
/// survives.
pub proof fn lemma_contenders_survive(bounds: Seq<Bounds>, i: int)
    requires
        0 <= i < bounds.len(),
        !bounds[i].optimistic.nan(),
        forall|k: int|
            0 <= k < bounds.len() ==> !bounds[i].optimistic.below(
                (#[trigger] bounds[k]).pessimistic,
            ),
    ensures
        survivors(bounds).contains(i),
{
    let keep = |i: int| can_win(bounds, i);
    lemma_kept_below(bounds.len() as int, keep);
    assert(keep(i));
}

/// The survivors are candidates, each once, in their order.
pub proof fn lemma_survivors_are_candidates(bounds: Seq<Bounds>)
    ensures
        forall|k: int|
            0 <= k < survivors(bounds).len() ==> 0 <= #[trigger] survivors(bounds)[k]
                < bounds.len(),
        forall|k: int, l: int|
            0 <= k < l < survivors(bounds).len() ==> #[trigger] survivors(bounds)[k]
                < #[trigger] survivors(bounds)[l],
{
    lemma_kept_below(bounds.len() as int, |i: int| can_win(bounds, i));
    lemma_kept_below(bounds.len() as int, |i: int| true);
}

/// The pick is the highest: no other value exceeds it, and none before it equals it.
pub proof fn lemma_pick_is_the_highest(values: Seq<Double>, i: int)
    requires
        is_best(values, i),
        exists|k: int|
            0 <= k < values.len() && !(#[trigger] values[k]).nan() && values[k].value() > (
            Double { bits: NEGATIVE_INFINITY }).value(),
    ensures
        0 <= i < values.len(),
        !values[i].nan(),
        forall|k: int|
            0 <= k < values.len() && !(#[trigger] values[k]).nan() ==> values[k].value()
                <= values[i].value(),
        forall|k: int|
            0 <= k < i && !(#[trigger] values[k]).nan() ==> values[k].value() < values[i].value(),
{
    let floor = Double { bits: NEGATIVE_INFINITY };
    let w = choose|k: int|
        0 <= k < values.len() && !(#[trigger] values[k]).nan() && values[k].value()
            > floor.value();
    crate::double::lemma_rank_orders(floor, values[w]);
    assert(floor.below(values[w]));
    assert forall|k: int| 0 <= k < values.len() && !(#[trigger] values[k]).nan() implies values[k].value()
        <= values[i].value() && (k < i ==> values[k].value() < values[i].value()) by {
        crate::double::lemma_rank_orders(values[i], values[k]);
        crate::double::lemma_rank_orders(values[k], values[i]);
        assert(!values[i].below(values[k]));
    }
}

/// A rating that is positive earns credit for the whole difficulty of its task.
pub proof fn lemma_success_is_credited_in_full(r: Rating)
    ensures
        r.performance_points > 0 ==> credited(r) == r.difficulty_points,
        r.performance_points <= 0 ==> credited(r) == 0,
{
}

} // verus!
