//! The decisions of the offline convergence harness: counting hits in a trailing window, finding
//! the best arm, the median and the verdict. The simulated world is the program's part.

use vstd::prelude::*;

use crate::double::Double;
use crate::selector::Tuneables;
use crate::tables;

verus! {

/// Settings of the selector that the command line overrides.
#[derive(Clone, Copy, Debug)]
pub struct Overrides {
    pub exploration: Option<Double>,
    pub cost_sensitivity: Option<Double>,
    pub score_spread: Option<Double>,
    pub difficulty_credit: Option<Double>,
    pub rating_half_life_days: Option<Double>,
}

/// The selector's settings with the overrides on top.
pub fn effective_tuneables(t: &Tuneables, o: &Overrides) -> (r: Tuneables)
    ensures
        r == (Tuneables {
            exploration: crate::config::overlaid(o.exploration, t.exploration),
            cost_sensitivity: crate::config::overlaid(o.cost_sensitivity, t.cost_sensitivity),
            score_spread: crate::config::overlaid(o.score_spread, t.score_spread),
            difficulty_credit: crate::config::overlaid(o.difficulty_credit, t.difficulty_credit),
            rating_half_life_days: crate::config::overlaid(
                o.rating_half_life_days,
                t.rating_half_life_days,
            ),
            ..*t
        }),
{
    let mut r: Tuneables = *t;
    if let Some(v) = o.exploration {
        r.exploration = v;
    }
    if let Some(v) = o.cost_sensitivity {
        r.cost_sensitivity = v;
    }
    if let Some(v) = o.score_spread {
        r.score_spread = v;
    }
    if let Some(v) = o.difficulty_credit {
        r.difficulty_credit = v;
    }
    if let Some(v) = o.rating_half_life_days {
        r.rating_half_life_days = v;
    }
    r
}

/// Why a simulation cannot be run.
#[derive(Clone, Copy, Debug, PartialEq, Eq, Structural)]
pub enum SimulationError {
    /// There is nothing to simulate.
    NothingToRun,
    /// There is nothing to sweep over.
    NothingToSweep,
}

impl SimulationError {
    /// The error as text.
    pub fn message(&self) -> (r: &'static str)
        ensures
            r@ == (match self {
                SimulationError::NothingToRun =>
                    "--pool, --sessions and --trials must all be >= 1"@,
                SimulationError::NothingToSweep =>
                    "--pools and --explorations must each have at least one value"@,
            }),
    {
        match self {
            SimulationError::NothingToRun => "--pool, --sessions and --trials must all be >= 1",
            SimulationError::NothingToSweep =>
                "--pools and --explorations must each have at least one value",
        }
    }
}

/// A simulation needs candidates, sessions and trials.
pub fn check_simulation(pool: usize, sessions: usize, trials: usize) -> (r: Result<
    (),
    SimulationError,
>)
    ensures
        r == (if pool == 0 || sessions == 0 || trials == 0 {
            Err::<(), SimulationError>(SimulationError::NothingToRun)
        } else {
            Ok(())
        }),
{
    if pool == 0 || sessions == 0 || trials == 0 {
        Err(SimulationError::NothingToRun)
    } else {
        Ok(())
    }
}

/// A sweep needs pools and explorations.
pub fn check_sweep(pools: usize, explorations: usize) -> (r: Result<(), SimulationError>)
    ensures
        r == (if pools == 0 || explorations == 0 {
            Err::<(), SimulationError>(SimulationError::NothingToSweep)
        } else {
            Ok(())
        }),
{
    if pools == 0 || explorations == 0 {
        Err(SimulationError::NothingToSweep)
    } else {
        Ok(())
    }
}

/// Where the trailing window that ends at `end` begins.
pub open spec fn window_start(end: int, window: int) -> int {
    if end <= window {
        0
    } else {
        end - window
    }
}

/// Where the trailing window that ends at `end` begins.
pub fn window_from(end: usize, window: usize) -> (r: usize)
    ensures
        r == window_start(end as int, window as int),
        r <= end,
{
    if end <= window {
        0
    } else {
        end - window
    }
}

/// How many hits lie in the trailing window that ends at `end`.
pub open spec fn hits_in_window(hits: Seq<bool>, end: int, window: int) -> nat {
    tables::count_below(end, |i: int| window_start(end, window) <= i && hits[i])
}

/// How many hits lie in the trailing window that ends at `end`, and how many places it has.
pub fn window_hits(hits: &Vec<bool>, end: usize, window: usize) -> (r: (usize, usize))
    requires
        end <= hits@.len(),
    ensures
        r.0 == hits_in_window(hits@, end as int, window as int),
        r.1 == end - window_start(end as int, window as int),
        r.0 <= r.1,
{
    let start: usize = window_from(end, window);
    let ghost hit = |i: int| window_start(end as int, window as int) <= i && hits@[i];
    let mut count: usize = 0;
    let mut i: usize = 0;
    while i < end
        invariant
            i <= end <= hits@.len(),
            start == window_start(end as int, window as int),
            start <= end,
            hit == (|i: int| window_start(end as int, window as int) <= i && hits@[i]),
            count == tables::count_below(i as int, hit),
            i <= start ==> count == 0,
            i > start ==> count <= i - start,
        decreases end - i,
    {
        if i >= start && hits[i] {
            count = count + 1;
        }
        i = i + 1;
    }
    (count, end - start)
}

/// The number of sessions at a quarter of a trial: at least one.
pub fn checkpoint(sessions: usize, quarter: usize) -> (r: usize)
    requires
        quarter <= 4,
        sessions < 0x8_0000_0000_0000u64,
    ensures
        r == (if sessions * quarter / 4 < 1 {
            1
        } else {
            sessions * quarter / 4
        }),
{
    proof {
        assert(sessions * quarter <= sessions * 4) by (nonlinear_arith)
            requires
                quarter <= 4,
        ;
        assert(sessions * quarter >= 0) by (nonlinear_arith);
    }
    let n: u128 = sessions as u128 * quarter as u128 / 4;
    if n < 1 {
        1
    } else {
        n as usize
    }
}

/// What the record of a simulated trial says.
#[verifier::ext_equal]
pub struct TrialView {
    pub window: nat,
    /// For each session, whether it picked the best candidate.
    pub best: Seq<bool>,
    /// For each session, whether its pick was within tolerance of the best.
    pub good: Seq<bool>,
    /// After how many sessions the trial had converged.
    pub converged_at: Option<nat>,
}

impl TrialView {
    /// Every session has both marks, and convergence takes a whole window of the sessions seen.
    pub open spec fn wf(self) -> bool {
        &&& self.best.len() == self.good.len()
        &&& self.converged_at matches Some(n) ==> 1 <= n <= self.good.len() && self.window <= n
    }

    /// The trial with one more session.
    pub open spec fn noted(self, is_best: bool, is_good: bool) -> TrialView {
        TrialView { best: self.best.push(is_best), good: self.good.push(is_good), ..self }
    }

    /// Whether convergence is open and a whole window has been seen.
    pub open spec fn due(self) -> bool {
        self.converged_at is None && self.good.len() > 0 && self.good.len() >= self.window
    }

    /// The trial once it is known whether the last window's rate reaches the threshold.
    pub open spec fn settled(self, reached: bool) -> TrialView {
        if self.due() && reached {
            TrialView { converged_at: Some(self.good.len()), ..self }
        } else {
            self
        }
    }
}

/// The record of one simulated trial.
#[derive(Debug)]
pub struct TrialLog {
    window: usize,
    best: Vec<bool>,
    good: Vec<bool>,
    converged_at: Option<usize>,
}

impl View for TrialLog {
    type V = TrialView;

    /// What the record says.
    closed spec fn view(&self) -> TrialView {
        TrialView {
            window: self.window as nat,
            best: self.best@,
            good: self.good@,
            converged_at: match self.converged_at {
                Some(n) => Some(n as nat),
                None => None,
            },
        }
    }
}

impl TrialLog {
    #[verifier::type_invariant]
    spec fn inv(self) -> bool {
        self@.wf()
    }

    /// A trial without sessions, judged by the given window.
    pub fn new(window: usize) -> (r: TrialLog)
        ensures
            r@ == (TrialView {
                window: window as nat,
                best: Seq::empty(),
                good: Seq::empty(),
                converged_at: None,
            }),
    {
        TrialLog { window, best: Vec::new(), good: Vec::new(), converged_at: None }
    }

    /// For each session, whether it picked the best candidate.
    pub fn best(&self) -> (r: &Vec<bool>)
        ensures
            r@ == self@.best,
            self@.wf(),
    {
        proof {
            use_type_invariant(self);
        }
        &self.best
    }

    /// For each session, whether its pick was within tolerance of the best.
    pub fn good(&self) -> (r: &Vec<bool>)
        ensures
            r@ == self@.good,
            self@.wf(),
    {
        proof {
            use_type_invariant(self);
        }
        &self.good
    }

    /// After how many sessions the trial had converged.
    pub fn converged_at(&self) -> (r: Option<usize>)
        ensures
            match r {
                Some(n) => self@.converged_at == Some(n as nat),
                None => self@.converged_at is None,
            },
            self@.wf(),
    {
        proof {
            use_type_invariant(self);
        }
        self.converged_at
    }

    /// The trial with one more session. While convergence is open and a whole window has been seen,
    /// it comes with how many of the window's picks were good, and the window's size: their rate
    /// decides.
    pub fn note(self, is_best: bool, is_good: bool) -> (r: (TrialLog, Option<(usize, usize)>))
        ensures
            r.0@ == self@.noted(is_best, is_good),
            r.1 is Some <==> r.0@.due(),
            r.1 matches Some(w) ==> w.0 == hits_in_window(
                r.0@.good,
                r.0@.good.len() as int,
                r.0@.window as int,
            ) && w.1 == r.0@.good.len() - window_start(
                r.0@.good.len() as int,
                r.0@.window as int,
            ),
    {
        proof {
            use_type_invariant(&self);
        }
        let window: usize = self.window;
        let converged_at: Option<usize> = self.converged_at;
        let mut best: Vec<bool> = self.best;
        let mut good: Vec<bool> = self.good;
        best.push(is_best);
        good.push(is_good);
        let rate: Option<(usize, usize)> = if converged_at.is_none() && good.len() >= window {
            Some(window_hits(&good, good.len(), window))
        } else {
            None
        };
        (TrialLog { window, best, good, converged_at }, rate)
    }

    /// Settles whether the last window's rate reaches the threshold. The first time counts, and
    /// nothing counts before a whole window has been seen.
    pub fn settle(&mut self, reached: bool)
        ensures
            final(self)@ == old(self)@.settled(reached),
    {
        proof {
            use_type_invariant(&*self);
        }
        let n: usize = self.good.len();
        if reached && self.converged_at.is_none() && n > 0 && n >= self.window {
            self.converged_at = Some(n);
        }
    }
}

/// A trial after a script of sessions, each with its two marks and whether the window that it
/// closes reaches the threshold.
pub open spec fn trial_after(window: nat, script: Seq<(bool, bool, bool)>) -> TrialView
    decreases script.len(),
{
    if script.len() == 0 {
        TrialView { window, best: Seq::empty(), good: Seq::empty(), converged_at: None }
    } else {
        let (is_best, is_good, reached) = script.last();
        trial_after(window, script.drop_last()).noted(is_best, is_good).settled(reached)
    }
}

/// Whether the window that ends with the n-th session is whole and reaches the threshold.
pub open spec fn converges_at(window: nat, script: Seq<(bool, bool, bool)>, n: int) -> bool {
    1 <= n <= script.len() && window <= n && script[n - 1].2
}

/// A trial converges with the first whole window that reaches the threshold, and never before a
/// whole window has been seen.
pub proof fn lemma_first_window_converges(window: nat, script: Seq<(bool, bool, bool)>)
    ensures
        trial_after(window, script).wf(),
        trial_after(window, script).window == window,
        trial_after(window, script).good.len() == script.len(),
        match trial_after(window, script).converged_at {
            Some(n) => converges_at(window, script, n as int) && forall|k: int|
                k < n ==> !#[trigger] converges_at(window, script, k),
            None => forall|k: int| !#[trigger] converges_at(window, script, k),
        },
    decreases script.len(),
{
    if script.len() > 0 {
        let before = script.drop_last();
        lemma_first_window_converges(window, before);
        assert forall|k: int| k < script.len() implies converges_at(window, before, k)
            == #[trigger] converges_at(window, script, k) by {
            if 1 <= k {
                assert(before[k - 1] == script[k - 1]);
            }
        }
        assert(converges_at(window, script, script.len() as int) == (window <= script.len()
            && script.last().2));
    }
}

/// The numbers of the trials that converged, in the order of the trials.
pub open spec fn converged_of(all: Seq<Option<usize>>) -> Seq<usize>
    decreases all.len(),
{
    if all.len() == 0 {
        Seq::empty()
    } else {
        match all.last() {
            Some(n) => converged_of(all.drop_last()).push(n),
            None => converged_of(all.drop_last()),
        }
    }
}

/// The numbers of the trials that converged, in the order of the trials.
pub fn converged(all: &Vec<Option<usize>>) -> (r: Vec<usize>)
    ensures
        r@ == converged_of(all@),
{
    let mut out: Vec<usize> = Vec::new();
    let mut i: usize = 0;
    while i < all.len()
        invariant
            i <= all@.len(),
            out@ == converged_of(all@.take(i as int)),
        decreases all@.len() - i,
    {
        proof {
            assert(all@.take(i + 1).drop_last() =~= all@.take(i as int));
        }
        if let Some(n) = all[i] {
            out.push(n);
        }
        i = i + 1;
    }
    proof {
        assert(all@.take(i as int) =~= all@);
    }
    out
}

/// The best position among the first `n`: each that exceeds the best so far takes its place.
pub open spec fn best_among(xs: Seq<Double>, n: int) -> int
    decreases n,
{
    if n <= 1 {
        0
    } else {
        let before = best_among(xs, n - 1);
        if xs[before].below(xs[n - 1]) {
            n - 1
        } else {
            before
        }
    }
}

/// The position of the highest value; the first one of equals.
pub fn argmax(xs: &Vec<Double>) -> (r: usize)
    requires
        xs@.len() > 0,
    ensures
        r == best_among(xs@, xs@.len() as int),
        r < xs@.len(),
{
    let mut best: usize = 0;
    let mut i: usize = 1;
    while i < xs.len()
        invariant
            1 <= i <= xs@.len(),
            best < i,
            best == best_among(xs@, i as int),
        decreases xs@.len() - i,
    {
        if xs[best].less(&xs[i]) {
            best = i;
        }
        i = i + 1;
    }
    best
}

/// Where all values are numbers, the best is the first of the highest.
pub proof fn lemma_best_among(xs: Seq<Double>, n: int)
    requires
        1 <= n <= xs.len(),
        forall|i: int| 0 <= i < xs.len() ==> !(#[trigger] xs[i]).nan(),
    ensures
        0 <= best_among(xs, n) < n,
        forall|i: int| 0 <= i < n ==> (#[trigger] xs[i]).rank() <= xs[best_among(xs, n)].rank(),
        forall|i: int|
            0 <= i < best_among(xs, n) ==> (#[trigger] xs[i]).rank() < xs[best_among(
                xs,
                n,
            )].rank(),
    decreases n,
{
    if n > 1 {
        lemma_best_among(xs, n - 1);
    }
}

/// Whether a list is in order.
pub open spec fn ascending(xs: Seq<usize>) -> bool {
    forall|i: int, j: int| 0 <= i <= j < xs.len() ==> #[trigger] xs[i] <= #[trigger] xs[j]
}

/// The same numbers in order.
fn in_order(xs: &Vec<usize>) -> (r: Vec<usize>)
    ensures
        ascending(r@),
        r@.to_multiset() == xs@.to_multiset(),
        r@.len() == xs@.len(),
{
    let mut out: Vec<usize> = Vec::new();
    let mut i: usize = 0;
    proof {
        assert(xs@.take(0) =~= out@);
    }
    while i < xs.len()
        invariant
            i <= xs@.len(),
            ascending(out@),
            out@.len() == i,
            out@.to_multiset() == xs@.take(i as int).to_multiset(),
        decreases xs@.len() - i,
    {
        let x: usize = xs[i];
        let mut at: usize = i;
        while at > 0 && out[at - 1] > x
            invariant
                at <= i,
                out@.len() == i,
                forall|k: int| at <= k < i ==> #[trigger] out@[k] > x,
            decreases at,
        {
            at = at - 1;
        }
        let ghost before = out@;
        out.insert(at, x);
        proof {
            broadcast use vstd::seq_lib::group_to_multiset_ensures;

            assert(out@ == before.insert(at as int, x));
            assert(out@.to_multiset() =~= before.to_multiset().insert(x));
            assert(xs@.take(i + 1) =~= xs@.take(i as int).push(x));
            assert(xs@.take(i + 1).to_multiset() =~= xs@.take(i as int).to_multiset().insert(x));
            assert forall|a: int, b: int| 0 <= a <= b < out@.len() implies #[trigger] out@[a]
                <= #[trigger] out@[b] by {
                if b < at {
                    assert(out@[a] == before[a] && out@[b] == before[b]);
                } else if a < at && b == at {
                    assert(out@[a] == before[a]);
                    assert(before[a] <= before[at - 1]);
                } else if a < at {
                    assert(out@[a] == before[a] && out@[b] == before[b - 1]);
                } else if a == at && b > at {
                    assert(out@[b] == before[b - 1]);
                } else if a > at {
                    assert(out@[a] == before[a - 1] && out@[b] == before[b - 1]);
                }
            }
        }
        i = i + 1;
    }
    proof {
        assert(xs@.take(i as int) =~= xs@);
    }
    out
}

/// The median: of the numbers in order, the one in the middle, or the upper one of the two.
pub fn median(xs: &Vec<usize>) -> (r: Option<usize>)
    ensures
        match r {
            Some(m) => xs@.len() > 0 && exists|ordered: Seq<usize>| #[trigger]
                ascending(ordered) && ordered.to_multiset() == xs@.to_multiset() && ordered.len()
                    == xs@.len() && m == ordered[xs@.len() as int / 2],
            None => xs@.len() == 0,
        },
{
    if xs.len() == 0 {
        return None;
    }
    let ordered: Vec<usize> = in_order(xs);
    Some(ordered[ordered.len() / 2])
}

/// 0.9, as a double.
pub const NINE_TENTHS: u64 = 0x3FEC_CCCC_CCCC_CCCD;

/// 0.8, as a double.
pub const EIGHT_TENTHS: u64 = 0x3FE9_9999_9999_999A;

/// Whether the selector is worth running.
#[derive(Clone, Copy, Debug, PartialEq, Eq, Structural)]
pub enum Verdict {
    Go,
    Marginal,
    NoGo,
}

/// The verdict goes by value: a router has to capture value, not to name the single best arm.
pub open spec fn verdict_of(value_efficiency: Double, good_rate: Double) -> Verdict {
    if value_efficiency.reaches(Double { bits: NINE_TENTHS }) && good_rate.reaches(
        Double { bits: EIGHT_TENTHS },
    ) {
        Verdict::Go
    } else if value_efficiency.reaches(Double { bits: crate::config::SEVEN_TENTHS }) {
        Verdict::Marginal
    } else {
        Verdict::NoGo
    }
}

/// The verdict on a simulation.
pub fn verdict(value_efficiency: &Double, good_rate: &Double) -> (r: Verdict)
    ensures
        r == verdict_of(*value_efficiency, *good_rate),
{
    let nine: Double = Double { bits: NINE_TENTHS };
    let eight: Double = Double { bits: EIGHT_TENTHS };
    let seven: Double = Double { bits: crate::config::SEVEN_TENTHS };
    if value_efficiency.at_least(&nine) && good_rate.at_least(&eight) {
        Verdict::Go
    } else if value_efficiency.at_least(&seven) {
        Verdict::Marginal
    } else {
        Verdict::NoGo
    }
}

impl Verdict {
    /// The verdict in one word.
    pub fn tag(&self) -> (r: &'static str)
        ensures
            r@ == (match self {
                Verdict::Go => "GO"@,
                Verdict::Marginal => "MARGINAL"@,
                Verdict::NoGo => "NO-GO"@,
            }),
    {
        match self {
            Verdict::Go => "GO",
            Verdict::Marginal => "MARGINAL",
            Verdict::NoGo => "NO-GO",
        }
    }

    /// The verdict in words.
    pub fn text(&self) -> (r: &'static str)
        ensures
            r@ == (match self {
                Verdict::Go =>
                    "GO — captures ~all achievable value and reliably lands within tolerance."@,
                Verdict::Marginal =>
                    "MARGINAL — captures most of the value but leaves some on the table."@,
                Verdict::NoGo =>
                    "NO-GO — leaves substantial value uncaptured; bound the pool / retune / stronger signal."@,
            }),
    {
        match self {
            Verdict::Go =>
                "GO — captures ~all achievable value and reliably lands within tolerance.",
            Verdict::Marginal =>
                "MARGINAL — captures most of the value but leaves some on the table.",
            Verdict::NoGo =>
                "NO-GO — leaves substantial value uncaptured; bound the pool / retune / stronger signal.",
        }
    }
}

/// The trailing window holds the last places, as many as it is wide or as there are, and its hits are
/// the hits among them.
pub proof fn lemma_window_holds_the_last_places(hits: Seq<bool>, end: int, window: int)
    requires
        0 <= end <= hits.len(),
        0 <= window,
    ensures
        window_start(end, window) == 0 || end - window_start(end, window) == window,
        0 <= window_start(end, window) <= end,
        end - window_start(end, window) <= window || end <= window,
        hits_in_window(hits, end, window) == hits.subrange(
            window_start(end, window),
            end,
        ).filter(|hit: bool| hit).len(),
{
    let start = window_start(end, window);
    lemma_hits_up_to(hits, start, end, |i: int| window_start(end, window) <= i && hits[i]);
}

/// The hits between two places, counted and filtered.
proof fn lemma_hits_up_to(hits: Seq<bool>, start: int, n: int, fits: spec_fn(int) -> bool)
    requires
        0 <= n <= hits.len(),
        0 <= start,
        forall|i: int| 0 <= i < n ==> #[trigger] fits(i) == (start <= i && hits[i]),
    ensures
        tables::count_below(n, fits) == (if start <= n {
            hits.subrange(start, n).filter(|hit: bool| hit).len()
        } else {
            0
        }),
    decreases n,
{
    let is_hit = |hit: bool| hit;
    reveal(Seq::filter);
    if n > 0 {
        lemma_hits_up_to(hits, start, n - 1, fits);
        assert(fits(n - 1) == (start <= n - 1 && hits[n - 1]));
        if start <= n - 1 {
            let here = hits.subrange(start, n);
            assert(here.drop_last() =~= hits.subrange(start, n - 1));
            assert(here.last() == hits[n - 1]);
        } else if start == n {
            assert(hits.subrange(start, n).len() == 0);
            assert(hits.subrange(start, n).filter(is_hit).len() == 0);
        }
    } else if start == 0 {
        assert(hits.subrange(0, 0).len() == 0);
        assert(hits.subrange(0, 0).filter(is_hit).len() == 0);
    }
}

/// A trial keeps the marks of every session, each under its own name.
pub proof fn lemma_trial_keeps_the_marks(window: nat, script: Seq<(bool, bool, bool)>)
    ensures
        trial_after(window, script).best == script.map_values(|x: (bool, bool, bool)| x.0),
        trial_after(window, script).good == script.map_values(|x: (bool, bool, bool)| x.1),
    decreases script.len(),
{
    let best = script.map_values(|x: (bool, bool, bool)| x.0);
    let good = script.map_values(|x: (bool, bool, bool)| x.1);
    if script.len() > 0 {
        let rest = script.drop_last();
        lemma_trial_keeps_the_marks(window, rest);
        assert(best =~= rest.map_values(|x: (bool, bool, bool)| x.0).push(script.last().0));
        assert(good =~= rest.map_values(|x: (bool, bool, bool)| x.1).push(script.last().1));
    } else {
        assert(best =~= Seq::empty());
        assert(good =~= Seq::empty());
    }
}

/// The numbers of the trials that converged are all of them, in their order, and nothing else.
pub proof fn lemma_converged_trials(all: Seq<Option<usize>>)
    ensures
        converged_of(all) == all.filter(|c: Option<usize>| c is Some).map_values(
            |c: Option<usize>| c->Some_0,
        ),
    decreases all.len(),
{
    let some = |c: Option<usize>| c is Some;
    let value = |c: Option<usize>| c->Some_0;
    reveal(Seq::filter);
    if all.len() > 0 {
        let rest = all.drop_last();
        lemma_converged_trials(rest);
        if all.last() is Some {
            assert(all.filter(some) =~= rest.filter(some).push(all.last()));
            assert(all.filter(some).map_values(value) =~= rest.filter(some).map_values(value).push(
                all.last()->Some_0,
            ));
        }
    } else {
        assert(all.filter(some).map_values(value) =~= Seq::empty());
    }
}

/// A better showing never makes the verdict worse, and the rate of good picks only tells a go from a
/// marginal one.
pub proof fn lemma_verdict_follows_the_value(
    efficiency: Double,
    rate: Double,
    better: Double,
    better_rate: Double,
)
    requires
        better.reaches(efficiency),
        better_rate.reaches(rate),
    ensures
        verdict_of(efficiency, rate) == Verdict::Go ==> verdict_of(better, better_rate)
            == Verdict::Go,
        verdict_of(better, better_rate) == Verdict::NoGo ==> verdict_of(efficiency, rate)
            == Verdict::NoGo,
        verdict_of(efficiency, rate) == Verdict::NoGo <==> verdict_of(efficiency, better_rate)
            == Verdict::NoGo,
        verdict_of(efficiency, rate) == Verdict::Go <==> efficiency.reaches(
            Double { bits: 0x3FEC_CCCC_CCCC_CCCD },
        ) && rate.reaches(Double { bits: 0x3FE9_9999_9999_999A }),
        verdict_of(efficiency, rate) == Verdict::NoGo <==> !efficiency.reaches(
            Double { bits: 0x3FE6_6666_6666_6666 },
        ),
{
}

} // verus!
