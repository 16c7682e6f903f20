//! The per-model leaderboard. Rows are keyed by the blind token; real slugs appear only where they
//! came through the reveal gate.

use vstd::prelude::*;

use crate::alias::{alias_from_display, Alias, MissingSeparator, RevealGate, RevealReason};
use crate::backend::ErrorKind;
use crate::config;
use crate::double::Double;
use crate::pool;
use crate::pool::{failures_for_key, ratings_for_key};
use crate::selector::{Failure, Rating};
use crate::store;
use crate::store::{AgedFailure, AgedRating, EndRow, PricePoint, RatingRow, Store, StoreError, Tables};
use crate::tables;
use crate::text;
use crate::text::{chars_of, digits_of, insert_in_order, join, same_text};

verus! {

/// How often a model failed in one way.
#[derive(Clone, Copy, Debug, PartialEq, Eq, Structural)]
pub struct FailureCount {
    pub error_kind: ErrorKind,
    pub count: u64,
}

/// All that is recorded of one model.
#[derive(Debug)]
pub struct ModelAggregate {
    pub canonical_key: String,
    /// The model's blind token.
    pub model_token: String,
    /// The model's first alias, as it is shown.
    pub alias: String,
    /// The model's slug under that alias, where the catalog has it.
    pub real_slug: Option<String>,
    pub sessions: u64,
    /// How many sessions have a rating that counts.
    pub rated: u64,
    /// How many ratings count.
    pub ratings: u64,
    pub performance_sum: i128,
    pub difficulty_sum: i128,
    /// The recorded costs, in the order of the session ends.
    pub costs: Vec<Double>,
    pub total_prompt_tokens: u128,
    pub total_completion_tokens: u128,
    /// The ways in which the model failed, by name.
    pub failures: Vec<FailureCount>,
}

/// The kinds of failure by name.
pub open spec fn kinds_by_name() -> Seq<ErrorKind> {
    seq![
        ErrorKind::Auth,
        ErrorKind::BadRequest,
        ErrorKind::Http5xx,
        ErrorKind::Network,
        ErrorKind::RateLimit,
        ErrorKind::Refused,
        ErrorKind::TooLarge,
        ErrorKind::Truncated,
        ErrorKind::Unavailable,
        ErrorKind::Unknown,
    ]
}

/// The tokens of a count that may be missing.
pub open spec fn tokens(n: Option<u64>) -> int {
    match n {
        Some(k) => k as int,
        None => 0,
    }
}

impl Tables {
    /// Whether the session at a position is on a model.
    pub open spec fn session_on(self, key: Seq<char>) -> spec_fn(int) -> bool {
        |i: int|
            self.alias_at(self.sessions@[i].alias@) matches Some(a)
                && self.aliases@[a].canonical_key@ == key
    }

    /// Whether the rating at a position counts for a model.
    pub open spec fn rating_on(self, key: Seq<char>) -> spec_fn(int) -> bool {
        |i: int|
            !self.superseded(self.ratings@[i].id) && self.session_key(
                self.ratings@[i].session_id,
            ) == Some(key)
    }

    /// Whether some rating of a session counts.
    pub open spec fn session_rated(self, id: i64) -> bool {
        exists|k: int|
            0 <= k < self.ratings@.len() && (#[trigger] self.ratings@[k]).session_id == id
                && !self.superseded(self.ratings@[k].id)
    }

    /// Whether the session at a position is on a model and has a rating that counts.
    pub open spec fn rated_session_on(self, key: Seq<char>) -> spec_fn(int) -> bool {
        |i: int| self.session_on(key)(i) && self.session_rated(self.sessions@[i].id)
    }

    /// Whether the session end at a position is of a model.
    pub open spec fn end_on(self, key: Seq<char>) -> spec_fn(int) -> bool {
        |i: int| self.session_key(self.session_end@[i].session_id) == Some(key)
    }

    /// Whether the session end at a position is a failure of a model in one way.
    pub open spec fn failure_on(self, key: Seq<char>, kind: ErrorKind) -> spec_fn(int) -> bool {
        |i: int|
            self.end_on(key)(i) && self.session_end@[i].end.error_kind == Some(kind)
    }

    /// The recorded costs of a model among the first `n` session ends.
    pub open spec fn costs_on(self, key: Seq<char>, n: int) -> Seq<Double>
        decreases n,
    {
        if n <= 0 {
            Seq::empty()
        } else {
            let before = self.costs_on(key, n - 1);
            match self.session_end@[n - 1].end.realized_cost {
                Some(c) => if self.end_on(key)(n - 1) {
                    before.push(c)
                } else {
                    before
                },
                None => before,
            }
        }
    }

    /// What a rating adds to a model's performance.
    pub open spec fn performance_on(self, key: Seq<char>) -> spec_fn(int) -> int {
        |i: int|
            if self.rating_on(key)(i) {
                self.ratings@[i].performance_points as int
            } else {
                0
            }
    }

    /// What a rating adds to a model's difficulty.
    pub open spec fn difficulty_on(self, key: Seq<char>) -> spec_fn(int) -> int {
        |i: int|
            if self.rating_on(key)(i) {
                self.ratings@[i].difficulty_points as int
            } else {
                0
            }
    }

    /// What a session end adds to a model's prompt tokens.
    pub open spec fn prompt_on(self, key: Seq<char>) -> spec_fn(int) -> int {
        |i: int|
            if self.end_on(key)(i) {
                tokens(self.session_end@[i].end.prompt_tokens)
            } else {
                0
            }
    }

    /// What a session end adds to a model's completion tokens.
    pub open spec fn completion_on(self, key: Seq<char>) -> spec_fn(int) -> int {
        |i: int|
            if self.end_on(key)(i) {
                tokens(self.session_end@[i].end.completion_tokens)
            } else {
                0
            }
    }

    /// How often a model failed in one way.
    pub open spec fn failure_count(self, key: Seq<char>, kind: ErrorKind) -> nat {
        tables::count_below(self.session_end@.len() as int, self.failure_on(key, kind))
    }

    /// The ways, among the first `n` by name, in which a model failed, with how often.
    pub open spec fn failures_by_name(self, key: Seq<char>, n: int) -> Seq<FailureCount>
        decreases n,
    {
        if n <= 0 {
            Seq::empty()
        } else {
            let before = self.failures_by_name(key, n - 1);
            let kind = kinds_by_name()[n - 1];
            if self.failure_count(key, kind) > 0 {
                before.push(
                    FailureCount { error_kind: kind, count: self.failure_count(key, kind) as u64 },
                )
            } else {
                before
            }
        }
    }

    /// The real slug of the model of an alias row, where the catalog has it.
    pub open spec fn slug_of_alias(self, a: int) -> Option<Seq<char>> {
        match self.model_at(self.aliases@[a].canonical_key@, self.aliases@[a].provider_slug@) {
            Some(c) => Some(self.catalog@[c].real_slug@),
            None => None,
        }
    }

    /// Whether an aggregate is all that is recorded of a model.
    pub open spec fn is_aggregate(self, a: ModelAggregate, key: Seq<char>) -> bool {
        let sessions = self.sessions@.len() as int;
        let ratings = self.ratings@.len() as int;
        let ends = self.session_end@.len() as int;
        &&& a.canonical_key@ == key
        &&& self.model_alias_at(key) matches Some(i) && a.model_token@
            == self.aliases@[i].alias.model_token@ && a.alias@ == self.aliases@[i].alias.name()
            && config::owned_text(a.real_slug) == self.slug_of_alias(i)
        &&& a.sessions == tables::count_below(sessions, self.session_on(key))
        &&& a.rated == tables::count_below(sessions, self.rated_session_on(key))
        &&& a.ratings == tables::count_below(ratings, self.rating_on(key))
        &&& a.performance_sum == tables::sum_below(ratings, self.performance_on(key))
        &&& a.difficulty_sum == tables::sum_below(ratings, self.difficulty_on(key))
        &&& a.costs@ == self.costs_on(key, ends)
        &&& a.total_prompt_tokens == tables::sum_below(ends, self.prompt_on(key))
        &&& a.total_completion_tokens == tables::sum_below(ends, self.completion_on(key))
        &&& a.failures@ == self.failures_by_name(key, kinds_by_name().len() as int)
    }

    /// Whether the session at a position is on a model.
    fn is_session_on(&self, i: usize, key: &str) -> (r: bool)
        requires
            i < self.sessions@.len(),
        ensures
            r == self.session_on(key@)(i as int),
    {
        match self.find_alias(self.sessions[i].alias.as_str()) {
            Some(a) => same_text(self.aliases[a].canonical_key.as_str(), key),
            None => false,
        }
    }

    /// Whether a session is on a model.
    fn is_on(&self, session_id: i64, key: &str) -> (r: bool)
        ensures
            r == (self.session_key(session_id) == Some(key@)),
    {
        match self.model_of_session(session_id) {
            Some(k) => same_text(k.as_str(), key),
            None => false,
        }
    }

    /// Whether some rating of a session counts.
    fn is_session_rated(&self, id: i64) -> (r: bool)
        ensures
            r == self.session_rated(id),
    {
        let mut k: usize = 0;
        while k < self.ratings.len()
            invariant
                k <= self.ratings@.len(),
                forall|j: int|
                    0 <= j < k ==> !((#[trigger] self.ratings@[j]).session_id == id
                        && !self.superseded(self.ratings@[j].id)),
            decreases self.ratings@.len() - k,
        {
            if self.ratings[k].session_id == id && !self.is_superseded(self.ratings[k].id) {
                return true;
            }
            k = k + 1;
        }
        false
    }

    /// How many sessions of a model there are, and how many of them have a rating that counts.
    fn count_sessions(&self, key: &str) -> (r: (u64, u64))
        ensures
            r.0 == tables::count_below(self.sessions@.len() as int, self.session_on(key@)),
            r.1 == tables::count_below(self.sessions@.len() as int, self.rated_session_on(key@)),
    {
        let mut all: u64 = 0;
        let mut rated: u64 = 0;
        let mut i: usize = 0;
        while i < self.sessions.len()
            invariant
                i <= self.sessions@.len(),
                all == tables::count_below(i as int, self.session_on(key@)),
                rated == tables::count_below(i as int, self.rated_session_on(key@)),
                all <= i,
                rated <= i,
            decreases self.sessions@.len() - i,
        {
            if self.is_session_on(i, key) {
                all = all + 1;
                if self.is_session_rated(self.sessions[i].id) {
                    rated = rated + 1;
                }
            }
            i = i + 1;
        }
        (all, rated)
    }

    /// How many ratings count for a model, and what they sum up to.
    fn sum_ratings(&self, key: &str) -> (r: (u64, i128, i128))
        ensures
            r.0 == tables::count_below(self.ratings@.len() as int, self.rating_on(key@)),
            r.1 == tables::sum_below(self.ratings@.len() as int, self.performance_on(key@)),
            r.2 == tables::sum_below(self.ratings@.len() as int, self.difficulty_on(key@)),
    {
        let mut count: u64 = 0;
        let mut performance: i128 = 0;
        let mut difficulty: i128 = 0;
        let mut i: usize = 0;
        while i < self.ratings.len()
            invariant
                i <= self.ratings@.len(),
                count == tables::count_below(i as int, self.rating_on(key@)),
                performance == tables::sum_below(i as int, self.performance_on(key@)),
                difficulty == tables::sum_below(i as int, self.difficulty_on(key@)),
                count <= i,
                -0x8000_0000_0000_0000 * i <= performance <= 0x8000_0000_0000_0000 * i,
                -0x8000_0000_0000_0000 * i <= difficulty <= 0x8000_0000_0000_0000 * i,
            decreases self.ratings@.len() - i,
        {
            let row: RatingRow = self.ratings[i];
            if !self.is_superseded(row.id) && self.is_on(row.session_id, key) {
                count = count + 1;
                performance = performance + row.performance_points as i128;
                difficulty = difficulty + row.difficulty_points as i128;
            }
            i = i + 1;
        }
        (count, performance, difficulty)
    }

    /// The recorded costs of a model, and the tokens that it used.
    fn sum_ends(&self, key: &str) -> (r: (Vec<Double>, u128, u128))
        ensures
            r.0@ == self.costs_on(key@, self.session_end@.len() as int),
            r.1 == tables::sum_below(self.session_end@.len() as int, self.prompt_on(key@)),
            r.2 == tables::sum_below(self.session_end@.len() as int, self.completion_on(key@)),
    {
        let mut costs: Vec<Double> = Vec::new();
        let mut prompt: u128 = 0;
        let mut completion: u128 = 0;
        let mut i: usize = 0;
        while i < self.session_end.len()
            invariant
                i <= self.session_end@.len(),
                costs@ == self.costs_on(key@, i as int),
                prompt == tables::sum_below(i as int, self.prompt_on(key@)),
                completion == tables::sum_below(i as int, self.completion_on(key@)),
                0 <= prompt <= 0xffff_ffff_ffff_ffff * i,
                0 <= completion <= 0xffff_ffff_ffff_ffff * i,
            decreases self.session_end@.len() - i,
        {
            let row: EndRow = self.session_end[i];
            if self.is_on(row.session_id, key) {
                if let Some(c) = row.end.realized_cost {
                    costs.push(c);
                }
                if let Some(n) = row.end.prompt_tokens {
                    prompt = prompt + n as u128;
                }
                if let Some(n) = row.end.completion_tokens {
                    completion = completion + n as u128;
                }
            }
            i = i + 1;
        }
        (costs, prompt, completion)
    }

    /// How often a model failed in one way.
    fn count_failures(&self, key: &str, kind: ErrorKind) -> (r: u64)
        ensures
            r == self.failure_count(key@, kind),
    {
        let mut count: u64 = 0;
        let mut i: usize = 0;
        while i < self.session_end.len()
            invariant
                i <= self.session_end@.len(),
                count == tables::count_below(i as int, self.failure_on(key@, kind)),
                count <= i,
            decreases self.session_end@.len() - i,
        {
            let row: EndRow = self.session_end[i];
            if row.end.error_kind == Some(kind) && self.is_on(row.session_id, key) {
                count = count + 1;
            }
            i = i + 1;
        }
        count
    }

    /// The ways in which a model failed, by name, with how often.
    fn list_failures(&self, key: &str) -> (r: Vec<FailureCount>)
        ensures
            r@ == self.failures_by_name(key@, kinds_by_name().len() as int),
    {
        let kinds: Vec<ErrorKind> = vec![
            ErrorKind::Auth,
            ErrorKind::BadRequest,
            ErrorKind::Http5xx,
            ErrorKind::Network,
            ErrorKind::RateLimit,
            ErrorKind::Refused,
            ErrorKind::TooLarge,
            ErrorKind::Truncated,
            ErrorKind::Unavailable,
            ErrorKind::Unknown,
        ];
        proof {
            assert(kinds@ =~= kinds_by_name());
        }
        let mut out: Vec<FailureCount> = Vec::new();
        let mut i: usize = 0;
        while i < kinds.len()
            invariant
                kinds@ == kinds_by_name(),
                i <= kinds@.len(),
                out@ == self.failures_by_name(key@, i as int),
            decreases kinds@.len() - i,
        {
            let count: u64 = self.count_failures(key, kinds[i]);
            if count > 0 {
                out.push(FailureCount { error_kind: kinds[i], count });
            }
            i = i + 1;
        }
        out
    }

    /// Whether a model has a session.
    pub open spec fn has_session(self, key: Seq<char>) -> bool {
        exists|i: int| 0 <= i < self.sessions@.len() && #[trigger] self.session_on(key)(i)
    }

    /// The models that have a session, in order.
    fn models_with_sessions(&self) -> (r: Vec<String>)
        ensures
            text::strictly_ordered(text::texts(r@)),
            forall|t: Seq<char>| text::texts(r@).contains(t) <==> self.has_session(t),
    {
        let mut out: Vec<String> = Vec::new();
        let mut i: usize = 0;
        while i < self.sessions.len()
            invariant
                i <= self.sessions@.len(),
                text::strictly_ordered(text::texts(out@)),
                forall|t: Seq<char>|
                    text::texts(out@).contains(t) <==> exists|k: int|
                        0 <= k < i && #[trigger] self.session_on(t)(k),
            decreases self.sessions@.len() - i,
        {
            let ghost before = text::texts(out@);
            match self.find_alias(self.sessions[i].alias.as_str()) {
                Some(a) => {
                    insert_in_order(&mut out, self.aliases[a].canonical_key.as_str());
                    proof {
                        let key = self.aliases@[a as int].canonical_key@;
                        assert forall|t: Seq<char>|
                            text::texts(out@).contains(t) <==> exists|k: int|
                                0 <= k < i + 1 && #[trigger] self.session_on(t)(k) by {
                            if text::texts(out@).contains(t) {
                                if before.contains(t) {
                                    let k = choose|k: int|
                                        0 <= k < i && #[trigger] self.session_on(t)(k);
                                    assert(0 <= k < i + 1 && self.session_on(t)(k));
                                } else {
                                    assert(self.session_on(t)(i as int));
                                }
                            }
                            if exists|k: int|
                                0 <= k < i + 1 && #[trigger] self.session_on(t)(k) {
                                let k = choose|k: int|
                                    0 <= k < i + 1 && #[trigger] self.session_on(t)(k);
                                if k < i {
                                    assert(before.contains(t));
                                }
                            }
                        }
                    }
                },
                None => {
                    proof {
                        assert forall|t: Seq<char>|
                            text::texts(out@).contains(t) <==> exists|k: int|
                                0 <= k < i + 1 && #[trigger] self.session_on(t)(k) by {
                            if exists|k: int|
                                0 <= k < i + 1 && #[trigger] self.session_on(t)(k) {
                                let k = choose|k: int|
                                    0 <= k < i + 1 && #[trigger] self.session_on(t)(k);
                                assert(k < i);
                            }
                            if text::texts(out@).contains(t) {
                                let k = choose|k: int|
                                    0 <= k < i && #[trigger] self.session_on(t)(k);
                                assert(0 <= k < i + 1 && self.session_on(t)(k));
                            }
                        }
                    }
                },
            }
            i = i + 1;
        }
        out
    }

    /// A model that has a session has an alias.
    proof fn lemma_session_has_alias(self, key: Seq<char>)
        requires
            self.has_session(key),
        ensures
            self.model_alias_at(key) is Some,
    {
        let i = choose|i: int| 0 <= i < self.sessions@.len() && #[trigger] self.session_on(key)(i);
        let display = self.sessions@[i].alias@;
        tables::lemma_first_where(self.aliases@, store::shown_as(display));
        let a = self.alias_at(display)->Some_0;
        tables::lemma_first_where(self.aliases@, store::masking_model(key));
        if self.model_alias_at(key) is None {
            assert(!store::masking_model(key)(self.aliases@[a]));
        }
    }

    /// All that is recorded of a model that has a session.
    fn aggregate(&self, key: &str) -> (r: ModelAggregate)
        requires
            self.model_alias_at(key@) is Some,
        ensures
            self.is_aggregate(r, key@),
    {
        let ghost fits = store::masking_model(key@);
        proof {
            tables::lemma_first_where(self.aliases@, fits);
        }
        let n: usize = self.aliases.len();
        let mut a: usize = 0;
        while !same_text(self.aliases[a].canonical_key.as_str(), key)
            invariant
                fits == store::masking_model(key@),
                n == self.aliases@.len(),
                self.model_alias_at(key@) matches Some(i) && a <= i < n && fits(
                    self.aliases@[i],
                ),
                forall|k: int| 0 <= k < a ==> !fits(#[trigger] self.aliases@[k]),
            decreases self.aliases@.len() - a,
        {
            proof {
                assert(!fits(self.aliases@[a as int]));
            }
            a = a + 1;
        }
        proof {
            tables::lemma_first_is(self.aliases@, fits, a as int);
        }
        let alias: &Alias = &self.aliases[a].alias;
        let real_slug: Option<String> = match self.find_model(
            self.aliases[a].canonical_key.as_str(),
            self.aliases[a].provider_slug.as_str(),
        ) {
            Some(c) => Some(self.catalog[c].real_slug.clone()),
            None => None,
        };
        let (sessions, rated): (u64, u64) = self.count_sessions(key);
        let (ratings, performance_sum, difficulty_sum): (u64, i128, i128) = self.sum_ratings(key);
        let (costs, prompt, completion): (Vec<Double>, u128, u128) = self.sum_ends(key);
        ModelAggregate {
            canonical_key: key.to_owned(),
            model_token: alias.model_token.clone(),
            alias: alias.display(),
            real_slug,
            sessions,
            rated,
            ratings,
            performance_sum,
            difficulty_sum,
            costs,
            total_prompt_tokens: prompt,
            total_completion_tokens: completion,
            failures: self.list_failures(key),
        }
    }

    /// Whether a list is the aggregates of all models that have a session, by key.
    pub open spec fn are_aggregates(self, list: Seq<ModelAggregate>) -> bool {
        let keys = list.map_values(|a: ModelAggregate| a.canonical_key@);
        &&& text::strictly_ordered(keys)
        &&& forall|t: Seq<char>| keys.contains(t) <==> self.has_session(t)
        &&& forall|i: int|
            0 <= i < list.len() ==> self.is_aggregate(#[trigger] list[i], list[i].canonical_key@)
    }
}

impl Store {
    /// Everything that is recorded, model by model, for the models that have a session.
    pub fn model_aggregates(&self) -> (r: Vec<ModelAggregate>)
        ensures
            self@.are_aggregates(r@),
    {
        let t: &Tables = self.tables();
        let keys: Vec<String> = t.models_with_sessions();
        let ghost named = text::texts(keys@);
        let mut out: Vec<ModelAggregate> = Vec::new();
        let mut i: usize = 0;
        while i < keys.len()
            invariant
                i <= keys@.len(),
                *t == self@,
                named == text::texts(keys@),
                forall|key: Seq<char>| named.contains(key) <==> t.has_session(key),
                out@.len() == i,
                forall|k: int|
                    0 <= k < i ==> t.is_aggregate(#[trigger] out@[k], named[k]),
            decreases keys@.len() - i,
        {
            proof {
                assert(named[i as int] == keys@[i as int]@);
                assert(named.contains(named[i as int]));
                t.lemma_session_has_alias(named[i as int]);
            }
            out.push(t.aggregate(keys[i].as_str()));
            i = i + 1;
        }
        proof {
            assert(out@.map_values(|a: ModelAggregate| a.canonical_key@) =~= named);
        }
        out
    }
}

/// A model's input and output price at one provider.
#[derive(Clone, Copy, Debug, PartialEq, Eq, Structural)]
pub struct PricePair {
    pub input_per_mtok: Option<Double>,
    pub output_per_mtok: Option<Double>,
}

/// The prices of one model, in the order of the list.
pub open spec fn prices_on(all: Seq<PricePoint>, key: Seq<char>) -> Seq<PricePair>
    decreases all.len(),
{
    if all.len() == 0 {
        Seq::empty()
    } else {
        let before = prices_on(all.drop_last(), key);
        let last = all.last();
        if last.canonical_key@ == key {
            before.push(
                PricePair {
                    input_per_mtok: last.input_per_mtok,
                    output_per_mtok: last.output_per_mtok,
                },
            )
        } else {
            before
        }
    }
}

/// The prices of one model.
pub fn prices_for_key(all: &Vec<PricePoint>, key: &str) -> (r: Vec<PricePair>)
    ensures
        r@ == prices_on(all@, key@),
{
    let mut out: Vec<PricePair> = Vec::new();
    let mut i: usize = 0;
    while i < all.len()
        invariant
            i <= all@.len(),
            out@ == prices_on(all@.take(i as int), key@),
        decreases all@.len() - i,
    {
        proof {
            assert(all@.take(i + 1).drop_last() =~= all@.take(i as int));
        }
        let p: &PricePoint = &all[i];
        if same_text(p.canonical_key.as_str(), key) {
            out.push(
                PricePair { input_per_mtok: p.input_per_mtok, output_per_mtok: p.output_per_mtok },
            );
        }
        i = i + 1;
    }
    proof {
        assert(all@.take(i as int) =~= all@);
    }
    out
}

/// What a row of the leaderboard is computed from.
#[derive(Debug)]
pub struct RowBasis {
    pub aggregate: ModelAggregate,
    pub ratings: Vec<Rating>,
    pub failures: Vec<Failure>,
    pub prices: Vec<PricePair>,
}

/// Whether a list is what the leaderboard is computed from: one basis for every model that has a
/// session, with the ratings, the failures and the latest prices of that model.
pub open spec fn is_leaderboard(list: Seq<RowBasis>, s: Tables, now: i64) -> bool {
    exists|ratings: Seq<AgedRating>, failures: Seq<AgedFailure>, prices: Seq<PricePoint>|
        #![trigger s.ages_ratings(ratings, now), s.ages_failures(failures, now), s.lists_prices(prices)]
        s.ages_ratings(ratings, now) && s.ages_failures(failures, now) && s.lists_prices(prices)
            && s.are_aggregates(list.map_values(|b: RowBasis| b.aggregate)) && forall|i: int|
            0 <= i < list.len() ==> {
                let key = (#[trigger] list[i]).aggregate.canonical_key@;
                &&& list[i].ratings@ == pool::ratings_on(ratings, key)
                &&& list[i].failures@ == pool::failures_on(failures, key)
                &&& list[i].prices@ == prices_on(prices, key)
            }
}

/// Gathers what the leaderboard is computed from; nothing where there are no sessions.
pub fn gather_rows(s: &Store, now: i64) -> (r: Vec<RowBasis>)
    ensures
        is_leaderboard(r@, s@, now),
{
    let mut aggregates: Vec<ModelAggregate> = s.model_aggregates();
    let ratings: Vec<AgedRating> = s.effective_ratings_aged(now);
    let failures: Vec<AgedFailure> = s.effective_failures_aged(now);
    let prices: Vec<PricePoint> = s.latest_prices();
    let ghost all = aggregates@;
    let n: usize = aggregates.len();
    let mut out: Vec<RowBasis> = Vec::new();
    let mut i: usize = 0;
    proof {
        assert(all.skip(0) =~= all);
    }
    while i < n
        invariant
            n == all.len(),
            i <= n,
            aggregates@ == all.skip(i as int),
            out@.len() == i,
            forall|k: int| 0 <= k < i ==> (#[trigger] out@[k]).aggregate == all[k],
            forall|k: int|
                0 <= k < i ==> (#[trigger] out@[k]).ratings@ == pool::ratings_on(
                    ratings@,
                    all[k].canonical_key@,
                ) && out@[k].failures@ == pool::failures_on(failures@, all[k].canonical_key@)
                    && out@[k].prices@ == prices_on(prices@, all[k].canonical_key@),
        decreases n - i,
    {
        let aggregate: ModelAggregate = aggregates.remove(0);
        proof {
            assert(aggregate == all[i as int]);
            assert(aggregates@ =~= all.skip(i + 1));
        }
        let key: &str = aggregate.canonical_key.as_str();
        let row_ratings: Vec<Rating> = ratings_for_key(&ratings, key);
        let row_failures: Vec<Failure> = failures_for_key(&failures, key);
        let row_prices: Vec<PricePair> = prices_for_key(&prices, key);
        out.push(
            RowBasis {
                aggregate,
                ratings: row_ratings,
                failures: row_failures,
                prices: row_prices,
            },
        );
        i = i + 1;
    }
    proof {
        assert(out@.map_values(|b: RowBasis| b.aggregate) =~= all);
    }
    out
}

/// The scores of a row.
#[derive(Clone, Copy, Debug, PartialEq, Eq, Structural)]
pub struct Scores {
    pub avg_performance: Option<Double>,
    pub avg_difficulty: Option<Double>,
    pub quality: Double,
    pub value: Double,
    pub total_cost: Double,
    pub avg_cost: Option<Double>,
}

/// One row of the leaderboard.
#[derive(Debug)]
pub struct StatsRow {
    pub display_name: String,
    pub alias: String,
    pub sessions: u64,
    pub rated: u64,
    pub scores: Scores,
    pub prompt_tokens: u128,
    pub completion_tokens: u128,
    pub failures: Vec<FailureCount>,
}

/// A failure count as text.
pub open spec fn failure_text(f: FailureCount) -> Seq<char> {
    f.error_kind.name() + ":"@ + text::digits(f.count as nat)
}

impl StatsRow {
    /// The row of a model with its scores. It is named by the blind token, or by a dash where there
    /// is none.
    pub fn of(a: ModelAggregate, scores: Scores) -> (r: StatsRow)
        ensures
            r.display_name@ == (if a.model_token@.len() == 0 {
                "—"@
            } else {
                a.model_token@
            }),
            r.alias == a.alias,
            r.sessions == a.sessions,
            r.rated == a.rated,
            r.scores == scores,
            r.prompt_tokens == a.total_prompt_tokens,
            r.completion_tokens == a.total_completion_tokens,
            r.failures == a.failures,
    {
        let display_name: String = if chars_of(a.model_token.as_str()).len() == 0 {
            "—".to_owned()
        } else {
            a.model_token.clone()
        };
        StatsRow {
            display_name,
            alias: a.alias,
            sessions: a.sessions,
            rated: a.rated,
            scores,
            prompt_tokens: a.total_prompt_tokens,
            completion_tokens: a.total_completion_tokens,
            failures: a.failures,
        }
    }

    /// All tokens of the model.
    pub fn total_tokens(&self) -> (r: u128)
        requires
            self.prompt_tokens + self.completion_tokens <= u128::MAX,
        ensures
            r == self.prompt_tokens + self.completion_tokens,
    {
        self.prompt_tokens + self.completion_tokens
    }

    /// The ways in which the model failed, such as `auth:1 too_large:2`.
    pub fn failure_string(&self) -> (r: String)
        ensures
            r@ == text::joined(self.failures@.map_values(|f: FailureCount| failure_text(f)), " "@),
    {
        let ghost want = self.failures@.map_values(|f: FailureCount| failure_text(f));
        let mut parts: Vec<String> = Vec::new();
        let mut i: usize = 0;
        while i < self.failures.len()
            invariant
                i <= self.failures@.len(),
                want == self.failures@.map_values(|f: FailureCount| failure_text(f)),
                text::texts(parts@) == want.take(i as int),
            decreases self.failures@.len() - i,
        {
            let ghost before = parts@;
            let mut t: String = self.failures[i].error_kind.as_str().to_owned();
            t.append(":");
            t.append(digits_of(self.failures[i].count as u128).as_str());
            parts.push(t);
            proof {
                assert(text::texts(parts@) =~= text::texts(before).push(want[i as int]));
                assert(want.take(i + 1) =~= want.take(i as int).push(want[i as int]));
            }
            i = i + 1;
        }
        proof {
            assert(want.take(i as int) =~= want);
        }
        join(&parts, " ")
    }

    /// What a column sorts a row by; an unknown column sorts by value.
    pub open spec fn sort_value(self, sort: Seq<char>) -> int {
        if sort == "quality"@ {
            self.scores.quality.rank()
        } else if sort == "cost"@ {
            self.scores.total_cost.rank()
        } else if sort == "sessions"@ {
            self.sessions as int
        } else {
            self.scores.value.rank()
        }
    }

    /// Whether what a column sorts a row by is a number.
    pub open spec fn sortable(self, sort: Seq<char>) -> bool {
        if sort == "quality"@ {
            !self.scores.quality.nan()
        } else if sort == "cost"@ {
            !self.scores.total_cost.nan()
        } else if sort == "sessions"@ {
            true
        } else {
            !self.scores.value.nan()
        }
    }

    /// The key by which a row is placed: the lowest comes first. A row whose column is not a number
    /// comes behind all others, whichever way the column is sorted, and equals its like.
    pub open spec fn place_key(self, sort: Seq<char>, asc: bool) -> i128 {
        if !self.sortable(sort) {
            i128::MAX
        } else if asc {
            self.sort_value(sort) as i128
        } else {
            (-self.sort_value(sort)) as i128
        }
    }

    /// The key by which a row is placed.
    fn key(&self, sort: &str, asc: bool) -> (r: i128)
        ensures
            r == self.place_key(sort@, asc),
    {
        let score: Option<Double> = if same_text(sort, "quality") {
            Some(self.scores.quality)
        } else if same_text(sort, "cost") {
            Some(self.scores.total_cost)
        } else if same_text(sort, "sessions") {
            None
        } else {
            Some(self.scores.value)
        };
        let v: i128 = match score {
            Some(x) => {
                if x.is_nan() {
                    return i128::MAX;
                }
                x.order() as i128
            },
            None => self.sessions as i128,
        };
        if asc {
            v
        } else {
            -v
        }
    }
}

/// The keys by which rows are placed.
pub open spec fn place_keys(rows: Seq<StatsRow>, sort: Seq<char>, asc: bool) -> Seq<i128> {
    rows.map_values(|r: StatsRow| r.place_key(sort, asc))
}

/// Every one of `n` rows.
pub open spec fn every_row(n: nat) -> Seq<bool> {
    Seq::new(n, |i: int| true)
}

/// Whether `sorted` is `rows` in the order of a column: the highest first, or the lowest with `asc`,
/// and equal rows as they stood.
pub open spec fn is_sorted(
    sorted: Seq<StatsRow>,
    rows: Seq<StatsRow>,
    sort: Seq<char>,
    asc: bool,
) -> bool {
    exists|order: Seq<int>| #[trigger]
        tables::is_listing(
            order,
            place_keys(rows, sort, asc),
            every_row(rows.len()),
        ) && order.len() == sorted.len() && forall|k: int|
            0 <= k < sorted.len() ==> (#[trigger] sorted[k]) == rows[order[k]]
}

/// Rows that are all placed alike stay as they stood.
pub proof fn lemma_equal_rows_stay(
    sorted: Seq<StatsRow>,
    rows: Seq<StatsRow>,
    sort: Seq<char>,
    asc: bool,
)
    requires
        is_sorted(sorted, rows, sort, asc),
        forall|i: int, j: int|
            0 <= i < j < rows.len() ==> (#[trigger] rows[i]).place_key(sort, asc) == (
            #[trigger] rows[j]).place_key(sort, asc),
    ensures
        sorted == rows,
{
    let keys = place_keys(rows, sort, asc);
    let keep = every_row(rows.len());
    let order = choose|order: Seq<int>| #[trigger]
        tables::is_listing(order, keys, keep) && order.len() == sorted.len() && forall|k: int|
            0 <= k < sorted.len() ==> (#[trigger] sorted[k]) == rows[order[k]];
    let same = Seq::new(rows.len(), |i: int| i);
    assert forall|i: int| 0 <= i < keys.len() && #[trigger] keep[i] implies same.contains(i) by {
        assert(same[i] == i);
    }
    assert forall|a: int, b: int| 0 <= a < b < same.len() implies tables::listed_before(
        keys,
        #[trigger] same[a],
        #[trigger] same[b],
    ) by {
        assert(rows[a].place_key(sort, asc) == rows[b].place_key(sort, asc));
    }
    tables::lemma_listing_is_unique(order, same, keys, keep);
    assert(sorted =~= rows);
}

/// Sorting puts the numbers of a column in numeric order, downwards or with `asc` upwards, and what
/// is not a number behind them.
pub proof fn lemma_sorted_columns_descend(
    sorted: Seq<StatsRow>,
    rows: Seq<StatsRow>,
    sort: Seq<char>,
    asc: bool,
    a: int,
    b: int,
)
    requires
        is_sorted(sorted, rows, sort, asc),
        0 <= a < b < sorted.len(),
    ensures
        sorted[b].sortable(sort) ==> sorted[a].sortable(sort) && (if asc {
            sorted[a].sort_value(sort) <= sorted[b].sort_value(sort)
        } else {
            sorted[a].sort_value(sort) >= sorted[b].sort_value(sort)
        }),
{
    let keys = place_keys(rows, sort, asc);
    let keep = every_row(rows.len());
    let order = choose|order: Seq<int>| #[trigger]
        tables::is_listing(order, keys, keep) && order.len() == sorted.len() && forall|k: int|
            0 <= k < sorted.len() ==> (#[trigger] sorted[k]) == rows[order[k]];
    assert(tables::listed_before(keys, order[a], order[b]));
    assert(sorted[a] == rows[order[a]] && sorted[b] == rows[order[b]]);
    assert(keys[order[a]] == sorted[a].place_key(sort, asc));
    assert(keys[order[b]] == sorted[b].place_key(sort, asc));
}

/// Sorts the rows by a column. Where nothing in the column is a number, and where there is one row at
/// most, the rows stay as they stood.
pub fn sort_rows(rows: Vec<StatsRow>, sort: &str, asc: bool) -> (r: Vec<StatsRow>)
    ensures
        is_sorted(r@, rows@, sort@, asc),
        r@.len() == rows@.len(),
        rows@.len() <= 1 ==> r@ == rows@,
        (forall|i: int| 0 <= i < rows@.len() ==> !(#[trigger] rows@[i]).sortable(sort@)) ==> r@
            == rows@,
{
    let ghost all = rows@;
    let ghost keys = place_keys(all, sort@, asc);
    let n: usize = rows.len();
    let mut rest: Vec<StatsRow> = rows;
    let mut out: Vec<StatsRow> = Vec::new();
    let ghost mut order: Seq<int> = Seq::empty();
    let mut i: usize = 0;
    proof {
        assert(all.skip(0) =~= all);
    }
    while i < n
        invariant
            n == all.len(),
            i <= n,
            keys == place_keys(all, sort@, asc),
            rest@ == all.skip(i as int),
            order.len() == i,
            out@.len() == i,
            forall|k: int| 0 <= k < i ==> 0 <= #[trigger] order[k] < i,
            forall|k: int| 0 <= k < i ==> (#[trigger] out@[k]) == all[order[k]],
            forall|j: int| 0 <= j < i ==> #[trigger] order.contains(j),
            forall|a: int, b: int|
                0 <= a < b < i ==> tables::listed_before(
                    keys,
                    #[trigger] order[a],
                    #[trigger] order[b],
                ),
        decreases n - i,
    {
        let row: StatsRow = rest.remove(0);
        let key: i128 = row.key(sort, asc);
        proof {
            assert(row == all[i as int]);
            assert(rest@ =~= all.skip(i + 1));
            assert(keys[i as int] == key);
        }
        let mut at: usize = i;
        while at > 0 && out[at - 1].key(sort, asc) > key
            invariant
                i < n,
                n == all.len(),
                keys == place_keys(all, sort@, asc),
                order.len() == i,
                out@.len() == i,
                at <= i,
                forall|k: int| 0 <= k < i ==> 0 <= #[trigger] order[k] < i,
                forall|k: int| 0 <= k < i ==> (#[trigger] out@[k]) == all[order[k]],
                forall|k: int| at <= k < i ==> keys[#[trigger] order[k]] > key,
            decreases at,
        {
            proof {
                assert(out@[at - 1] == all[order[at - 1]]);
                assert(keys[order[at - 1]] == all[order[at - 1]].place_key(sort@, asc));
            }
            at = at - 1;
        }
        proof {
            if at > 0 {
                assert(out@[at - 1] == all[order[at - 1]]);
                assert(keys[order[at - 1]] == all[order[at - 1]].place_key(sort@, asc));
            }
        }
        let ghost was = order;
        let ghost before = out@;
        out.insert(at, row);
        proof {
            order = was.insert(at as int, i as int);
            assert(out@ == before.insert(at as int, row));
            assert forall|k: int| 0 <= k < i + 1 implies 0 <= #[trigger] order[k] < i + 1 by {
                if k < at {
                    assert(order[k] == was[k]);
                } else if k > at {
                    assert(order[k] == was[k - 1]);
                }
            }
            assert forall|k: int| 0 <= k < i + 1 implies (#[trigger] out@[k]) == all[order[k]] by {
                if k < at {
                    assert(out@[k] == before[k] && order[k] == was[k]);
                } else if k > at {
                    assert(out@[k] == before[k - 1] && order[k] == was[k - 1]);
                }
            }
            assert forall|j: int| 0 <= j < i + 1 implies #[trigger] order.contains(j) by {
                if j == i {
                    assert(order[at as int] == j);
                } else {
                    assert(was.contains(j));
                    let k = choose|k: int| 0 <= k < was.len() && was[k] == j;
                    if k < at {
                        assert(order[k] == j);
                    } else {
                        assert(order[k + 1] == j);
                    }
                }
            }
            assert forall|a: int, b: int| 0 <= a < b < i + 1 implies tables::listed_before(
                keys,
                #[trigger] order[a],
                #[trigger] order[b],
            ) by {
                if b < at {
                    assert(order[a] == was[a] && order[b] == was[b]);
                } else if b == at {
                    assert(order[a] == was[a]);
                    if a < at - 1 {
                        assert(tables::listed_before(keys, was[a], was[at - 1]));
                    }
                } else if a == at {
                    assert(order[b] == was[b - 1]);
                } else if a < at {
                    assert(order[a] == was[a] && order[b] == was[b - 1]);
                } else {
                    assert(order[a] == was[a - 1] && order[b] == was[b - 1]);
                }
            }
        }
        i = i + 1;
    }
    proof {
        let keep = every_row(all.len());
        assert(tables::is_listing(order, keys, keep)) by {
            assert forall|j: int| 0 <= j < keys.len() && #[trigger] keep[j] implies order.contains(
                j,
            ) by {}
        }
        assert(is_sorted(out@, all, sort@, asc));
        if all.len() <= 1 || (forall|i: int|
            0 <= i < all.len() ==> !(#[trigger] all[i]).sortable(sort@)) {
            lemma_equal_rows_stay(out@, all, sort@, asc);
        }
    }
    out
}

/// A number that may be missing, as a table shows it.
pub fn format_num(v: Option<String>) -> (r: String)
    ensures
        r@ == (match config::owned_text(v) {
            Some(t) => t,
            None => "—"@,
        }),
{
    match v {
        Some(t) => t,
        None => "—".to_owned(),
    }
}

/// The scores of a row as text.
#[derive(Debug)]
pub struct ScoreTexts {
    pub avg_performance: Option<String>,
    pub avg_difficulty: Option<String>,
    pub quality: String,
    pub value: String,
    pub total_cost: String,
    pub avg_cost: Option<String>,
}

/// How many columns the leaderboard has.
pub const COLUMNS: usize = 11;

/// A text that may be missing, as a table shows it.
pub open spec fn or_dash(v: Option<String>) -> Seq<char> {
    match config::owned_text(v) {
        Some(t) => t,
        None => "—"@,
    }
}

/// The cells of a row. A model that nobody has rated shows no quality.
pub open spec fn cells_of(row: StatsRow, t: ScoreTexts) -> Seq<Seq<char>> {
    seq![
        row.display_name@,
        text::digits(row.sessions as nat),
        text::digits(row.rated as nat),
        or_dash(t.avg_performance),
        or_dash(t.avg_difficulty),
        if row.rated == 0 {
            "—"@
        } else {
            t.quality@
        },
        t.value@,
        t.total_cost@,
        or_dash(t.avg_cost),
        text::digits((row.prompt_tokens + row.completion_tokens) as nat),
        text::joined(row.failures@.map_values(|f: FailureCount| failure_text(f)), " "@),
    ]
}

/// The cells of a row. A model that nobody has rated shows no quality.
pub fn row_cells(row: &StatsRow, t: ScoreTexts) -> (r: Vec<String>)
    requires
        row.prompt_tokens + row.completion_tokens <= u128::MAX,
    ensures
        text::texts(r@) == cells_of(*row, t),
        r@.len() == COLUMNS,
{
    let mut out: Vec<String> = Vec::new();
    out.push(row.display_name.clone());
    out.push(digits_of(row.sessions as u128));
    out.push(digits_of(row.rated as u128));
    out.push(format_num(t.avg_performance));
    out.push(format_num(t.avg_difficulty));
    if row.rated == 0 {
        out.push("—".to_owned());
    } else {
        out.push(t.quality);
    }
    out.push(t.value);
    out.push(t.total_cost);
    out.push(format_num(t.avg_cost));
    out.push(digits_of(row.total_tokens()));
    out.push(row.failure_string());
    proof {
        assert(text::texts(out@) =~= cells_of(*row, t));
    }
    out
}

/// The headers of the leaderboard.
pub open spec fn headers(revealed: bool) -> Seq<Seq<char>> {
    seq![
        if revealed {
            "Model (revealed)"@
        } else {
            "Model"@
        },
        "Sessions"@,
        "Rated"@,
        "Avg perf"@,
        "Avg diff"@,
        "Quality"@,
        "Value"@,
        "Total $"@,
        "Avg $"@,
        "Tokens"@,
        "Failures"@,
    ]
}

/// The headers of the leaderboard.
fn header_cells(revealed: bool) -> (r: Vec<String>)
    ensures
        text::texts(r@) == headers(revealed),
        r@.len() == COLUMNS,
{
    let mut out: Vec<String> = Vec::new();
    if revealed {
        out.push("Model (revealed)".to_owned());
    } else {
        out.push("Model".to_owned());
    }
    out.push("Sessions".to_owned());
    out.push("Rated".to_owned());
    out.push("Avg perf".to_owned());
    out.push("Avg diff".to_owned());
    out.push("Quality".to_owned());
    out.push("Value".to_owned());
    out.push("Total $".to_owned());
    out.push("Avg $".to_owned());
    out.push("Tokens".to_owned());
    out.push("Failures".to_owned());
    proof {
        assert(text::texts(out@) =~= headers(revealed));
    }
    out
}

/// The length of a text in bytes.
pub open spec fn byte_len(t: Seq<char>) -> nat {
    vstd::utf8::encode_utf8(t).len()
}

/// The cells of a table.
pub open spec fn grid(rows: Seq<Vec<String>>) -> Seq<Seq<Seq<char>>> {
    rows.map_values(|r: Vec<String>| text::texts(r@))
}

/// The width of a column: the most bytes that a cell of it takes among the first `n` rows.
pub open spec fn column_width(rows: Seq<Seq<Seq<char>>>, i: int, n: int) -> nat
    decreases n,
{
    if n <= 0 {
        0
    } else {
        let before = column_width(rows, i, n - 1);
        if byte_len(rows[n - 1][i]) > before {
            byte_len(rows[n - 1][i])
        } else {
            before
        }
    }
}

/// `n` times the same character.
pub open spec fn repeated(c: char, n: int) -> Seq<char> {
    Seq::new(
        if n > 0 {
            n as nat
        } else {
            0
        },
        |i: int| c,
    )
}

/// A cell aligned to the right.
pub open spec fn aligned(t: Seq<char>, width: nat) -> Seq<char> {
    repeated(' ', width - t.len()) + t
}

/// A line of the table.
pub open spec fn table_line(cells: Seq<Seq<char>>, widths: Seq<nat>) -> Seq<char> {
    text::joined(Seq::new(cells.len(), |i: int| aligned(cells[i], widths[i])), " "@)
}

/// The line under the headers.
pub open spec fn rule_line(widths: Seq<nat>) -> Seq<char> {
    text::joined(widths.map_values(|w: nat| repeated('-', w as int)), "+"@)
}

/// The widths of the columns of a table.
pub open spec fn table_widths(rows: Seq<Seq<Seq<char>>>) -> Seq<nat> {
    Seq::new(COLUMNS as nat, |i: int| column_width(rows, i, rows.len() as int))
}

/// The same character `n` times.
fn repeat(c: char, n: usize) -> (r: String)
    ensures
        r@ == repeated(c, n as int),
{
    let mut out: String = String::new();
    let mut i: usize = 0;
    while i < n
        invariant
            i <= n,
            out@ == repeated(c, i as int),
        decreases n - i,
    {
        out.push(c);
        proof {
            assert(repeated(c, i as int).push(c) =~= repeated(c, i + 1));
        }
        i = i + 1;
    }
    out
}

/// A cell aligned to the right.
fn align(t: &str, width: usize) -> (r: String)
    ensures
        r@ == aligned(t@, width as nat),
{
    let n: usize = chars_of(t).len();
    let pad: usize = if n < width {
        width - n
    } else {
        0
    };
    let mut out: String = repeat(' ', pad);
    out.append(t);
    proof {
        assert(repeated(' ', width - t@.len()) =~= repeated(' ', pad as int));
    }
    out
}

/// The widths of the columns of a table.
fn measure(rows: &Vec<Vec<String>>) -> (r: Vec<usize>)
    requires
        forall|k: int| 0 <= k < rows@.len() ==> (#[trigger] rows@[k])@.len() == COLUMNS,
    ensures
        r@.len() == COLUMNS,
        forall|i: int|
            0 <= i < COLUMNS ==> #[trigger] r@[i] == column_width(
                grid(rows@),
                i,
                rows@.len() as int,
            ),
{
    let ghost cells = grid(rows@);
    let mut out: Vec<usize> = Vec::new();
    let mut i: usize = 0;
    while i < COLUMNS
        invariant
            i <= COLUMNS,
            cells == grid(rows@),
            forall|k: int| 0 <= k < rows@.len() ==> (#[trigger] rows@[k])@.len() == COLUMNS,
            out@.len() == i,
            forall|j: int|
                0 <= j < i ==> #[trigger] out@[j] == column_width(cells, j, rows@.len() as int),
        decreases COLUMNS - i,
    {
        let mut width: usize = 0;
        let mut k: usize = 0;
        while k < rows.len()
            invariant
                i < COLUMNS,
                k <= rows@.len(),
                cells == grid(rows@),
                forall|k: int| 0 <= k < rows@.len() ==> (#[trigger] rows@[k])@.len() == COLUMNS,
                width == column_width(cells, i as int, k as int),
            decreases rows@.len() - k,
        {
            let cell: &String = &rows[k][i];
            let n: usize = cell.as_str().as_bytes().len();
            proof {
                assert(cells[k as int][i as int] == cell@);
                assert(n == byte_len(cell@));
            }
            if n > width {
                width = n;
            }
            k = k + 1;
        }
        out.push(width);
        i = i + 1;
    }
    out
}

/// A line of the table.
fn line_of(cells: &Vec<String>, widths: &Vec<usize>) -> (r: String)
    requires
        cells@.len() == widths@.len(),
    ensures
        r@ == table_line(text::texts(cells@), widths@.map_values(|w: usize| w as nat)),
{
    let ghost said = text::texts(cells@);
    let ghost wide = widths@.map_values(|w: usize| w as nat);
    let ghost want = Seq::new(said.len(), |i: int| aligned(said[i], wide[i]));
    let mut parts: Vec<String> = Vec::new();
    let mut i: usize = 0;
    while i < cells.len()
        invariant
            i <= cells@.len(),
            cells@.len() == widths@.len(),
            said == text::texts(cells@),
            wide == widths@.map_values(|w: usize| w as nat),
            want == Seq::new(said.len(), |i: int| aligned(said[i], wide[i])),
            text::texts(parts@) == want.take(i as int),
        decreases cells@.len() - i,
    {
        let ghost before = parts@;
        parts.push(align(cells[i].as_str(), widths[i]));
        proof {
            assert(text::texts(parts@) =~= text::texts(before).push(want[i as int]));
            assert(want.take(i + 1) =~= want.take(i as int).push(want[i as int]));
        }
        i = i + 1;
    }
    proof {
        assert(want.take(i as int) =~= want);
    }
    join(&parts, " ")
}

/// The line under the headers.
fn rule_of(widths: &Vec<usize>) -> (r: String)
    ensures
        r@ == rule_line(widths@.map_values(|w: usize| w as nat)),
{
    let ghost wide = widths@.map_values(|w: usize| w as nat);
    let ghost want = wide.map_values(|w: nat| repeated('-', w as int));
    let mut parts: Vec<String> = Vec::new();
    let mut i: usize = 0;
    while i < widths.len()
        invariant
            i <= widths@.len(),
            wide == widths@.map_values(|w: usize| w as nat),
            want == wide.map_values(|w: nat| repeated('-', w as int)),
            text::texts(parts@) == want.take(i as int),
        decreases widths@.len() - i,
    {
        let ghost before = parts@;
        parts.push(repeat('-', widths[i]));
        proof {
            assert(text::texts(parts@) =~= text::texts(before).push(want[i as int]));
            assert(want.take(i + 1) =~= want.take(i as int).push(want[i as int]));
        }
        i = i + 1;
    }
    proof {
        assert(want.take(i as int) =~= want);
    }
    join(&parts, "+")
}

/// The lines of a table: the headers, a rule, then the rows.
pub open spec fn table_lines(revealed: bool, rows: Seq<Seq<Seq<char>>>) -> Seq<Seq<char>> {
    let all = seq![headers(revealed)] + rows;
    let widths = table_widths(all);
    seq![table_line(headers(revealed), widths), rule_line(widths)] + Seq::new(
        rows.len(),
        |k: int| table_line(rows[k], widths),
    )
}

/// Renders the leaderboard: aligned columns under their headers. The first header says whether the
/// names are revealed.
pub fn render_table(rows: Vec<Vec<String>>, revealed: bool) -> (r: Vec<String>)
    requires
        forall|k: int| 0 <= k < rows@.len() ==> (#[trigger] rows@[k])@.len() == COLUMNS,
    ensures
        text::texts(r@) == table_lines(revealed, grid(rows@)),
{
    let ghost body = rows@;
    let mut all: Vec<Vec<String>> = rows;
    all.insert(0, header_cells(revealed));
    proof {
        assert(all@ =~= seq![all@[0]] + body);
        assert(grid(all@) =~= seq![headers(revealed)] + grid(body));
        assert forall|k: int| 0 <= k < all@.len() implies (#[trigger] all@[k])@.len() == COLUMNS by {
            if k > 0 {
                assert(all@[k] == body[k - 1]);
            }
        }
    }
    let widths: Vec<usize> = measure(&all);
    let ghost wide = widths@.map_values(|w: usize| w as nat);
    proof {
        assert(wide =~= table_widths(grid(all@)));
    }
    let mut out: Vec<String> = Vec::new();
    out.push(line_of(&all[0], &widths));
    out.push(rule_of(&widths));
    let ghost want = table_lines(revealed, grid(body));
    let mut k: usize = 1;
    proof {
        assert(text::texts(out@) =~= want.take(2));
    }
    while k < all.len()
        invariant
            1 <= k <= all@.len(),
            all@ == seq![all@[0]] + body,
            widths@.len() == COLUMNS,
            wide == widths@.map_values(|w: usize| w as nat),
            wide == table_widths(seq![headers(revealed)] + grid(body)),
            want == table_lines(revealed, grid(body)),
            forall|j: int| 0 <= j < all@.len() ==> (#[trigger] all@[j])@.len() == COLUMNS,
            text::texts(out@) == want.take(k + 1),
        decreases all@.len() - k,
    {
        let ghost before = out@;
        out.push(line_of(&all[k], &widths));
        proof {
            assert(all@[k as int] == body[k - 1]);
            assert(grid(body)[k - 1] == text::texts(all@[k as int]@));
            assert(want[k + 1] == table_line(grid(body)[k - 1], wide));
            assert(text::texts(out@) =~= text::texts(before).push(want[k + 1]));
            assert(want.take(k + 2) =~= want.take(k + 1).push(want[k + 1]));
        }
        k = k + 1;
    }
    proof {
        assert(want.take(k + 1) =~= want);
    }
    out
}

/// Why names could not be revealed.
#[derive(Debug)]
pub enum RevealError {
    /// A stored alias is not one.
    Alias(MissingSeparator),
    /// The journal refused.
    Journal(StoreError),
}

/// The slug that the aggregates hold for an alias: the last one of that alias counts.
pub open spec fn slug_for(aggregates: Seq<ModelAggregate>, display: Seq<char>) -> Option<Seq<char>>
    decreases aggregates.len(),
{
    if aggregates.len() == 0 {
        None
    } else if aggregates.last().alias@ == display {
        config::owned_text(aggregates.last().real_slug)
    } else {
        slug_for(aggregates.drop_last(), display)
    }
}

/// The slug that the aggregates hold for an alias.
fn find_slug(aggregates: &Vec<ModelAggregate>, display: &str) -> (r: Option<String>)
    ensures
        config::owned_text(r) == slug_for(aggregates@, display@),
{
    let mut i: usize = aggregates.len();
    proof {
        assert(aggregates@.take(i as int) =~= aggregates@);
    }
    while i > 0
        invariant
            i <= aggregates@.len(),
            slug_for(aggregates@.take(i as int), display@) == slug_for(aggregates@, display@),
        decreases i,
    {
        proof {
            assert(aggregates@.take(i as int).drop_last() =~= aggregates@.take(i - 1));
        }
        i = i - 1;
        if same_text(aggregates[i].alias.as_str(), display) {
            return match &aggregates[i].real_slug {
                Some(t) => Some(t.clone()),
                None => None,
            };
        }
    }
    None
}

/// Whether a row is another with only its name changed.
pub open spec fn renamed(row: StatsRow, was: StatsRow, name: Seq<char>) -> bool {
    &&& row.display_name@ == name
    &&& row == (StatsRow { display_name: row.display_name, ..was })
}

/// The reveals that unmasking the first `n` rows journals: the aliases of those with a slug.
pub open spec fn revealed_aliases(
    rows: Seq<StatsRow>,
    aggregates: Seq<ModelAggregate>,
    n: int,
) -> Seq<Seq<char>>
    decreases n,
{
    if n <= 0 {
        Seq::empty()
    } else {
        let before = revealed_aliases(rows, aggregates, n - 1);
        if slug_for(aggregates, rows[n - 1].alias@) is Some {
            before.push(rows[n - 1].alias@)
        } else {
            before
        }
    }
}

/// Whether `next` is the store with reveals of these aliases journaled for the leaderboard.
pub open spec fn reveals_journaled(s: Tables, next: Tables, aliases: Seq<Seq<char>>, now: i64) -> bool {
    &&& next == (Tables { reveals: next.reveals, ..s })
    &&& next.reveals@.len() == s.reveals@.len() + aliases.len()
    &&& next.reveals@.take(s.reveals@.len() as int) == s.reveals@
    &&& forall|k: int|
        0 <= k < aliases.len() ==> {
            let row = #[trigger] next.reveals@[s.reveals@.len() + k];
            row.alias@ == aliases[k] && row.session_id is None && row.reason == RevealReason::Stats
                && row.revealed_at == now
        }
}

/// The last reveal id, or 0 where there is none.
pub open spec fn last_id(s: Tables) -> int {
    match s.last_reveal_id() {
        Some(id) => id as int,
        None => 0,
    }
}

/// Whether an alias has both its tokens, with the separator between them.
pub open spec fn both_tokens(alias: Seq<char>) -> bool {
    text::first_of(alias, ':') < alias.len()
}

/// Whether `rows` are the rows of `was` with the first `n` unmasked: those with a slug are named by
/// it.
pub open spec fn unmasked(
    rows: Seq<StatsRow>,
    was: Seq<StatsRow>,
    aggregates: Seq<ModelAggregate>,
    n: int,
) -> bool {
    &&& rows.len() == was.len()
    &&& forall|k: int|
        0 <= k < n ==> renamed(
            #[trigger] rows[k],
            was[k],
            match slug_for(aggregates, was[k].alias@) {
                Some(slug) => slug,
                None => was[k].display_name@,
            },
        )
    &&& forall|k: int| n <= k < rows.len() ==> #[trigger] rows[k] == was[k]
}

/// Puts an alias together again.
proof fn lemma_alias_back(display: Seq<char>)
    requires
        text::first_of(display, ':') < display.len(),
    ensures
        crate::alias::shown(
            display.take(text::first_of(display, ':')),
            display.skip(text::first_of(display, ':') + 1),
        ) == display,
{
    text::lemma_first_of(display, ':');
    let at = text::first_of(display, ':');
    assert(crate::alias::shown(display.take(at), display.skip(at + 1)) =~= display);
}

/// Resolves an alias to its slug through the reveal gate, for the leaderboard.
fn slug_through_gate(aggregates: &Vec<ModelAggregate>, alias: &Alias) -> (r: Option<String>)
    ensures
        config::owned_text(r) == slug_for(aggregates@, alias.name()),
{
    let lookup = |a: &Alias| -> (found: Option<String>)
        ensures
            config::owned_text(found) == slug_for(aggregates@, a.name()),
        { find_slug(aggregates, a.display().as_str()) };
    RevealGate.reveal_alias(alias, RevealReason::Stats, lookup)
}

/// Unmasks the rows: each slug comes through the reveal gate, and each actual crossing is
/// journaled. A row whose model has no slug in the catalog stays blind.
pub fn reveal_rows(
    s: &mut Store,
    rows: &mut Vec<StatsRow>,
    aggregates: &Vec<ModelAggregate>,
    now: i64,
) -> (r: Result<(), RevealError>)
    ensures
        final(s)@.wf(),
        final(s)@.extends(old(s)@),
        match r {
            Ok(_) => {
                &&& forall|k: int|
                    0 <= k < old(rows)@.len() ==> both_tokens((#[trigger] old(rows)@[k]).alias@)
                &&& unmasked(final(rows)@, old(rows)@, aggregates@, old(rows)@.len() as int)
                &&& reveals_journaled(
                    old(s)@,
                    final(s)@,
                    revealed_aliases(old(rows)@, aggregates@, old(rows)@.len() as int),
                    now,
                )
            },
            Err(RevealError::Alias(e)) => exists|i: int|
                {
                    &&& 0 <= i < old(rows)@.len()
                    &&& #[trigger] unmasked(final(rows)@, old(rows)@, aggregates@, i)
                    &&& reveals_journaled(
                        old(s)@,
                        final(s)@,
                        revealed_aliases(old(rows)@, aggregates@, i),
                        now,
                    )
                    &&& forall|k: int|
                        0 <= k < i ==> both_tokens((#[trigger] old(rows)@[k]).alias@)
                    &&& !both_tokens(old(rows)@[i].alias@)
                    &&& e.alias@ == old(rows)@[i].alias@
                },
            Err(RevealError::Journal(e)) => e == StoreError::OutOfIds && exists|i: int|
                {
                    &&& 0 <= i < old(rows)@.len()
                    &&& #[trigger] unmasked(final(rows)@, old(rows)@, aggregates@, i)
                    &&& reveals_journaled(
                        old(s)@,
                        final(s)@,
                        revealed_aliases(old(rows)@, aggregates@, i),
                        now,
                    )
                    &&& forall|k: int|
                        0 <= k <= i ==> both_tokens((#[trigger] old(rows)@[k]).alias@)
                    &&& slug_for(aggregates@, old(rows)@[i].alias@) is Some
                    &&& last_id(old(s)@) + revealed_aliases(old(rows)@, aggregates@, i).len()
                        == i64::MAX
                },
        },
{
    let ghost s0 = s@;
    let ghost all = rows@;
    proof {
        use_type_invariant(&*s);
        store::lemma_logs_begin(s0);
        assert(s0.reveals@.take(s0.reveals@.len() as int) =~= s0.reveals@);
    }
    let n: usize = rows.len();
    let mut i: usize = 0;
    while i < n
        invariant
            n == all.len(),
            rows@.len() == n,
            i <= n,
            s0 == old(s)@,
            all == old(rows)@,
            s@.wf(),
            s@.extends(s0),
            unmasked(rows@, all, aggregates@, i as int),
            forall|k: int| 0 <= k < i ==> both_tokens((#[trigger] all[k]).alias@),
            reveals_journaled(s0, s@, revealed_aliases(all, aggregates@, i as int), now),
            last_id(s@) == last_id(s0) + revealed_aliases(all, aggregates@, i as int).len(),
        decreases n - i,
    {
        let display: String = rows[i].alias.clone();
        let alias: Alias = match alias_from_display(display.as_str()) {
            Ok(a) => a,
            Err(e) => {
                return Err(RevealError::Alias(e));
            },
        };
        proof {
            lemma_alias_back(display@);
        }
        if let Some(slug) = slug_through_gate(aggregates, &alias) {
            let ghost before = s@;
            match s.record_reveal(display.as_str(), None, RevealReason::Stats, now) {
                Ok(_) => {},
                Err(e) => {
                    return Err(RevealError::Journal(e));
                },
            }
            proof {
                store::lemma_history_is_kept(s0, before, s@);
                let was = revealed_aliases(all, aggregates@, i as int);
                let done = revealed_aliases(all, aggregates@, i + 1);
                assert(done == was.push(display@));
                assert(s@.reveals@.take(before.reveals@.len() as int) == before.reveals@);
                assert forall|k: int| 0 <= k < done.len() implies ({
                    let row = #[trigger] s@.reveals@[s0.reveals@.len() + k];
                    row.alias@ == done[k] && row.session_id is None && row.reason
                        == RevealReason::Stats && row.revealed_at == now
                }) by {
                    if k < was.len() {
                        assert(s@.reveals@[s0.reveals@.len() + k] == before.reveals@.take(
                            before.reveals@.len() as int,
                        )[s0.reveals@.len() + k]);
                        assert(before.reveals@[s0.reveals@.len() + k].alias@ == was[k]);
                    }
                }
                assert(s@.reveals@.take(s0.reveals@.len() as int) =~= s0.reveals@) by {
                    assert forall|k: int| 0 <= k < s0.reveals@.len() implies s@.reveals@[k]
                        == s0.reveals@[k] by {
                        assert(s@.reveals@.take(before.reveals@.len() as int)[k]
                            == before.reveals@[k]);
                        assert(before.reveals@.take(s0.reveals@.len() as int)[k]
                            == s0.reveals@[k]);
                    }
                }
            }
            let mut row: StatsRow = rows.remove(i);
            row.display_name = slug;
            rows.insert(i, row);
        }
        i = i + 1;
    }
    Ok(())
}

/// Unmasking journals exactly one reveal for each row that it unmasks: no name is shown without a
/// record of it.
pub proof fn lemma_every_reveal_is_journaled(
    rows: Seq<StatsRow>,
    aggregates: Seq<ModelAggregate>,
    n: int,
)
    requires
        0 <= n <= rows.len(),
    ensures
        revealed_aliases(rows, aggregates, n).len() == tables::count_below(
            n,
            |i: int| slug_for(aggregates, rows[i].alias@) is Some,
        ),
        forall|i: int|
            0 <= i < n && slug_for(aggregates, (#[trigger] rows[i]).alias@) is Some
                ==> revealed_aliases(rows, aggregates, n).contains(rows[i].alias@),
    decreases n,
{
    if n > 0 {
        lemma_every_reveal_is_journaled(rows, aggregates, n - 1);
        let before = revealed_aliases(rows, aggregates, n - 1);
        let done = revealed_aliases(rows, aggregates, n);
        assert forall|i: int|
            0 <= i < n && slug_for(aggregates, (#[trigger] rows[i]).alias@) is Some
            implies done.contains(rows[i].alias@) by {
            if i < n - 1 {
                assert(before.contains(rows[i].alias@));
                let k = choose|k: int| 0 <= k < before.len() && before[k] == rows[i].alias@;
                assert(done[k] == rows[i].alias@);
            } else {
                assert(done[before.len() as int] == rows[i].alias@);
            }
        }
    }
}

/// Sorting moves rows and does nothing else: each row is there as often as it was, and of two rows
/// whose column is a number, the higher comes first, or the lower with `asc`.
pub proof fn lemma_sorting_goes_by_the_column(
    sorted: Seq<StatsRow>,
    rows: Seq<StatsRow>,
    sort: Seq<char>,
    asc: bool,
    a: int,
    b: int,
)
    requires
        is_sorted(sorted, rows, sort, asc),
        0 <= a < b < sorted.len(),
    ensures
        exists|from: Seq<int>|
            #![trigger from.no_duplicates()]
            from.no_duplicates() && from.len() == rows.len() && sorted.len() == rows.len() && forall|
                k: int,
            |
                0 <= k < from.len() ==> 0 <= #[trigger] from[k] < rows.len() && sorted[k]
                    == rows[from[k]],
        ({
            let x = sorted[a];
            let y = sorted[b];
            &&& sort == "quality"@ && !x.scores.quality.nan() && !y.scores.quality.nan() ==> (
            if asc {
                x.scores.quality.value() <= y.scores.quality.value()
            } else {
                x.scores.quality.value() >= y.scores.quality.value()
            })
            &&& sort == "cost"@ && !x.scores.total_cost.nan() && !y.scores.total_cost.nan() ==> (
            if asc {
                x.scores.total_cost.value() <= y.scores.total_cost.value()
            } else {
                x.scores.total_cost.value() >= y.scores.total_cost.value()
            })
            &&& sort == "sessions"@ ==> (if asc {
                x.sessions <= y.sessions
            } else {
                x.sessions >= y.sessions
            })
            &&& sort != "quality"@ && sort != "cost"@ && sort != "sessions"@
                && !x.scores.value.nan() && !y.scores.value.nan() ==> (if asc {
                x.scores.value.value() <= y.scores.value.value()
            } else {
                x.scores.value.value() >= y.scores.value.value()
            })
        }),
{
    reveal_strlit("quality");
    reveal_strlit("cost");
    reveal_strlit("sessions");
    assert("quality"@.len() == 7 && "cost"@.len() == 4 && "sessions"@.len() == 8);
    lemma_sorted_columns_descend(sorted, rows, sort, asc, a, b);
    let x = sorted[a];
    let y = sorted[b];
    crate::double::lemma_rank_orders(x.scores.quality, y.scores.quality);
    crate::double::lemma_rank_orders(y.scores.quality, x.scores.quality);
    crate::double::lemma_rank_orders(x.scores.total_cost, y.scores.total_cost);
    crate::double::lemma_rank_orders(y.scores.total_cost, x.scores.total_cost);
    crate::double::lemma_rank_orders(x.scores.value, y.scores.value);
    crate::double::lemma_rank_orders(y.scores.value, x.scores.value);
    let keys = place_keys(rows, sort, asc);
    let keep = every_row(rows.len());
    let order = choose|order: Seq<int>| #[trigger]
        tables::is_listing(order, keys, keep) && order.len() == sorted.len() && forall|k: int|
            0 <= k < sorted.len() ==> (#[trigger] sorted[k]) == rows[order[k]];
    assert(order.no_duplicates()) by {
        assert forall|i: int, j: int| 0 <= i < order.len() && 0 <= j < order.len() && i != j
            implies order[i] != order[j] by {
            if i < j {
                assert(tables::listed_before(keys, order[i], order[j]));
            } else {
                assert(tables::listed_before(keys, order[j], order[i]));
            }
        }
    }
    lemma_full_listing(order, rows.len());
    assert forall|k: int| 0 <= k < order.len() implies 0 <= #[trigger] order[k] < rows.len()
        && sorted[k] == rows[order[k]] by {
        assert(sorted[k] == rows[order[k]]);
    }
}

/// A list of places without repetition that holds all of them is as long as they are many.
proof fn lemma_full_listing(order: Seq<int>, n: nat)
    requires
        order.no_duplicates(),
        forall|k: int| 0 <= k < order.len() ==> 0 <= #[trigger] order[k] < n,
        forall|i: int| 0 <= i < n && #[trigger] every_row(n)[i] ==> order.contains(i),
    ensures
        order.len() == n,
{
    let all = vstd::set_lib::set_int_range(0, n as int);
    vstd::set_lib::lemma_int_range(0, n as int);
    order.unique_seq_to_set();
    assert(order.to_set() =~= all) by {
        assert forall|i: int| order.to_set().contains(i) <==> all.contains(i) by {
            if 0 <= i < n {
                assert(every_row(n)[i]);
            }
        }
    }
}

/// What stands under each header: the cells of a row are in the order of the headers.
pub proof fn lemma_cells_stand_under_their_headers(
    row: StatsRow,
    t: ScoreTexts,
    revealed: bool,
    k: int,
)
    requires
        0 <= k < headers(revealed).len(),
    ensures
        ({
            let header = headers(revealed)[k];
            let cell = cells_of(row, t)[k];
            &&& cells_of(row, t).len() == headers(revealed).len()
            &&& header == "Model"@ || header == "Model (revealed)"@ ==> cell == row.display_name@
            &&& header == "Sessions"@ ==> cell == text::digits(row.sessions as nat)
            &&& header == "Rated"@ ==> cell == text::digits(row.rated as nat)
            &&& header == "Avg perf"@ ==> (t.avg_performance matches Some(s) ==> cell == s@)
            &&& header == "Avg diff"@ ==> (t.avg_difficulty matches Some(s) ==> cell == s@)
            &&& header == "Quality"@ && row.rated > 0 ==> cell == t.quality@
            &&& header == "Quality"@ && row.rated == 0 ==> cell == "—"@
            &&& header == "Value"@ ==> cell == t.value@
            &&& header == "Total $"@ ==> cell == t.total_cost@
            &&& header == "Avg $"@ ==> (t.avg_cost matches Some(s) ==> cell == s@)
            &&& header == "Tokens"@ ==> cell == text::digits(
                (row.prompt_tokens + row.completion_tokens) as nat,
            )
            &&& k == 0 ==> header == (if revealed {
                "Model (revealed)"@
            } else {
                "Model"@
            })
        }),
{
    reveal_strlit("Model");
    reveal_strlit("Model (revealed)");
    reveal_strlit("Sessions");
    reveal_strlit("Rated");
    reveal_strlit("Avg perf");
    reveal_strlit("Avg diff");
    reveal_strlit("Quality");
    reveal_strlit("Value");
    reveal_strlit("Total $");
    reveal_strlit("Avg $");
    reveal_strlit("Tokens");
    reveal_strlit("Failures");
    assert("Model"@.len() == 5 && "Model"@[0] == 'M');
    assert("Model (revealed)"@.len() == 16);
    assert("Sessions"@.len() == 8 && "Sessions"@[0] == 'S');
    assert("Rated"@.len() == 5 && "Rated"@[0] == 'R');
    assert("Avg perf"@.len() == 8 && "Avg perf"@[0] == 'A' && "Avg perf"@[4] == 'p');
    assert("Avg diff"@.len() == 8 && "Avg diff"@[0] == 'A' && "Avg diff"@[4] == 'd');
    assert("Quality"@.len() == 7 && "Quality"@[0] == 'Q');
    assert("Value"@.len() == 5 && "Value"@[0] == 'V');
    assert("Total $"@.len() == 7 && "Total $"@[0] == 'T');
    assert("Avg $"@.len() == 5 && "Avg $"@[0] == 'A');
    assert("Tokens"@.len() == 6);
    assert("Failures"@.len() == 8 && "Failures"@[0] == 'F');
}

/// A column is as wide as its widest cell.
pub proof fn lemma_column_fits_its_cells(rows: Seq<Seq<Seq<char>>>, i: int, n: int)
    requires
        0 <= n <= rows.len(),
    ensures
        forall|k: int| 0 <= k < n ==> byte_len(#[trigger] rows[k][i]) <= column_width(rows, i, n),
        column_width(rows, i, n) > 0 ==> exists|k: int|
            0 <= k < n && byte_len(#[trigger] rows[k][i]) == column_width(rows, i, n),
    decreases n,
{
    if n > 0 {
        lemma_column_fits_its_cells(rows, i, n - 1);
        let last = rows[n - 1][i];
        if byte_len(last) <= column_width(rows, i, n - 1) && column_width(rows, i, n) > 0 {
            let k = choose|k: int|
                0 <= k < n - 1 && byte_len(#[trigger] rows[k][i]) == column_width(rows, i, n - 1);
            assert(byte_len(rows[k][i]) == column_width(rows, i, n));
        }
    }
}

/// An aligned cell stands at the right end of its column, with spaces before it, and takes the whole
/// of a column that is wide enough.
pub proof fn lemma_cells_stand_to_the_right(t: Seq<char>, width: nat)
    ensures
        ({
            let cell = aligned(t, width);
            &&& cell.len() == (if t.len() < width {
                width
            } else {
                t.len()
            })
            &&& cell.skip(cell.len() - t.len()) == t
            &&& forall|i: int| 0 <= i < cell.len() - t.len() ==> #[trigger] cell[i] == ' '
        }),
{
    let cell = aligned(t, width);
    assert(cell.skip(cell.len() - t.len()) =~= t);
}

/// A table has a line of headers, a rule, and then a line for each row, in their order, all laid out
/// in the same columns.
pub proof fn lemma_table_has_a_line_for_each_row(
    revealed: bool,
    rows: Seq<Seq<Seq<char>>>,
    k: int,
)
    requires
        0 <= k < rows.len(),
        rows[k].len() == COLUMNS,
    ensures
        ({
            let lines = table_lines(revealed, rows);
            let all = seq![headers(revealed)] + rows;
            let widths = Seq::new(COLUMNS as nat, |i: int| column_width(all, i, all.len() as int));
            &&& lines.len() == rows.len() + 2
            &&& lines[0] == text::joined(
                Seq::new(COLUMNS as nat, |i: int| aligned(headers(revealed)[i], widths[i])),
                " "@,
            )
            &&& lines[1] == text::joined(
                Seq::new(COLUMNS as nat, |i: int| Seq::new(widths[i], |j: int| '-')),
                "+"@,
            )
            &&& lines[k + 2] == text::joined(
                Seq::new(COLUMNS as nat, |i: int| aligned(rows[k][i], widths[i])),
                " "@,
            )
        }),
{
    let all = seq![headers(revealed)] + rows;
    let widths = Seq::new(COLUMNS as nat, |i: int| column_width(all, i, all.len() as int));
    assert(table_widths(all) =~= widths);
    assert(Seq::new(rows[k].len(), |i: int| aligned(rows[k][i], widths[i])) =~= Seq::new(
        COLUMNS as nat,
        |i: int| aligned(rows[k][i], widths[i]),
    ));
    assert(Seq::new(
        headers(revealed).len(),
        |i: int| aligned(headers(revealed)[i], widths[i]),
    ) =~= Seq::new(COLUMNS as nat, |i: int| aligned(headers(revealed)[i], widths[i])));
    let dashes = Seq::new(COLUMNS as nat, |i: int| Seq::new(widths[i], |j: int| '-'));
    let rule = widths.map_values(|w: nat| repeated('-', w as int));
    assert(rule =~= dashes) by {
        assert forall|i: int| 0 <= i < COLUMNS implies rule[i] == dashes[i] by {
            assert(rule[i] =~= dashes[i]);
        }
    }
}

/// The slug for an alias is that of its model, the last one that has the alias; an alias that no
/// model has stays blind.
pub proof fn lemma_slug_is_the_models(
    aggregates: Seq<ModelAggregate>,
    display: Seq<char>,
    i: int,
)
    requires
        0 <= i < aggregates.len() ==> aggregates[i].alias@ == display,
        forall|k: int|
            (i < k || !(0 <= i < aggregates.len())) && 0 <= k < aggregates.len() ==> (
            #[trigger] aggregates[k]).alias@ != display,
    ensures
        0 <= i < aggregates.len() ==> (match slug_for(aggregates, display) {
            Some(slug) => aggregates[i].real_slug is Some && slug
                == aggregates[i].real_slug->Some_0@,
            None => aggregates[i].real_slug is None,
        }),
        !(0 <= i < aggregates.len()) ==> slug_for(aggregates, display) is None,
    decreases aggregates.len(),
{
    if aggregates.len() > 0 {
        let rest = aggregates.drop_last();
        let last = aggregates.len() - 1;
        assert(aggregates.last() == aggregates[last]);
        if i != last {
            assert(aggregates[last].alias@ != display);
            assert forall|k: int|
                (i < k || !(0 <= i < rest.len())) && 0 <= k < rest.len() implies (
            #[trigger] rest[k]).alias@ != display by {
                assert(rest[k] == aggregates[k]);
            }
            if 0 <= i < rest.len() {
                assert(rest[i] == aggregates[i]);
            }
            lemma_slug_is_the_models(rest, display, i);
        }
    }
}

/// Unmasking changes names alone, and only those of models with a slug.
pub proof fn lemma_unmasking_changes_names_alone(
    rows: Seq<StatsRow>,
    was: Seq<StatsRow>,
    aggregates: Seq<ModelAggregate>,
    k: int,
)
    requires
        unmasked(rows, was, aggregates, was.len() as int),
        0 <= k < was.len(),
    ensures
        rows.len() == was.len(),
        rows[k].alias == was[k].alias,
        rows[k].sessions == was[k].sessions,
        rows[k].rated == was[k].rated,
        rows[k].scores == was[k].scores,
        rows[k].prompt_tokens == was[k].prompt_tokens,
        rows[k].completion_tokens == was[k].completion_tokens,
        rows[k].failures == was[k].failures,
        slug_for(aggregates, was[k].alias@) is None ==> rows[k].display_name@
            == was[k].display_name@,
        slug_for(aggregates, was[k].alias@) matches Some(slug) ==> rows[k].display_name@ == slug,
{
    assert(renamed(
        rows[k],
        was[k],
        match slug_for(aggregates, was[k].alias@) {
            Some(slug) => slug,
            None => was[k].display_name@,
        },
    ));
}

/// The log of an unmasking names the rows with a slug, in their order, and no others; each record
/// says that it was for the leaderboard, and when.
pub proof fn lemma_log_names_the_unmasked_rows(
    s: Tables,
    next: Tables,
    rows: Seq<StatsRow>,
    aggregates: Seq<ModelAggregate>,
    now: i64,
)
    requires
        reveals_journaled(
            s,
            next,
            revealed_aliases(rows, aggregates, rows.len() as int),
            now,
        ),
    ensures
        next.reveals@.skip(s.reveals@.len() as int).map_values(|r: store::RevealRow| r.alias@)
            == rows.filter(
            |row: StatsRow| slug_for(aggregates, row.alias@) is Some,
        ).map_values(|row: StatsRow| row.alias@),
        next.reveals@.take(s.reveals@.len() as int) == s.reveals@,
        forall|k: int|
            s.reveals@.len() <= k < next.reveals@.len() ==> (
            #[trigger] next.reveals@[k]).session_id is None && next.reveals@[k].reason
                == RevealReason::Stats && next.reveals@[k].revealed_at == now,
{
    let n = s.reveals@.len() as int;
    let logged = revealed_aliases(rows, aggregates, rows.len() as int);
    lemma_revealed_are_filtered(rows, aggregates, rows.len() as int);
    assert(rows.take(rows.len() as int) =~= rows);
    assert forall|k: int| n <= k < next.reveals@.len() implies (
    #[trigger] next.reveals@[k]).session_id is None && next.reveals@[k].reason
        == RevealReason::Stats && next.reveals@[k].revealed_at == now && next.reveals@[k].alias@
        == logged[k - n] by {
        assert(next.reveals@[n + (k - n)].alias@ == logged[k - n]);
    }
    assert(next.reveals@.skip(n).map_values(|r: store::RevealRow| r.alias@) =~= logged);
}

/// The aliases that an unmasking journals are those of the rows with a slug.
proof fn lemma_revealed_are_filtered(
    rows: Seq<StatsRow>,
    aggregates: Seq<ModelAggregate>,
    n: int,
)
    requires
        0 <= n <= rows.len(),
    ensures
        revealed_aliases(rows, aggregates, n) == rows.take(n).filter(
            |row: StatsRow| slug_for(aggregates, row.alias@) is Some,
        ).map_values(|row: StatsRow| row.alias@),
    decreases n,
{
    let known = |row: StatsRow| slug_for(aggregates, row.alias@) is Some;
    let name = |row: StatsRow| row.alias@;
    reveal(Seq::filter);
    if n > 0 {
        lemma_revealed_are_filtered(rows, aggregates, n - 1);
        assert(rows.take(n).drop_last() =~= rows.take(n - 1));
        assert(rows.take(n).last() == rows[n - 1]);
        if known(rows[n - 1]) {
            let before = rows.take(n - 1).filter(known);
            assert(rows.take(n).filter(known) =~= before.push(rows[n - 1]));
            assert(before.push(rows[n - 1]).map_values(name) =~= before.map_values(name).push(
                rows[n - 1].alias@,
            ));
        }
    } else {
        assert(rows.take(0).filter(known).map_values(name) =~= Seq::empty());
    }
}

/// A way to fail is told with how often, and two that are told alike are the same.
pub proof fn lemma_failures_are_told_apart(f: FailureCount, g: FailureCount)
    requires
        f.error_kind == g.error_kind,
        failure_text(f) == failure_text(g),
    ensures
        f.count == g.count,
        text::begins_with(failure_text(f), f.error_kind.name() + ":"@),
        text::ends_with(failure_text(f), text::digits(f.count as nat)),
{
    let lead = f.error_kind.name() + ":"@;
    let a = text::digits(f.count as nat);
    let b = text::digits(g.count as nat);
    let t = failure_text(f);
    assert(t.subrange(0, lead.len() as int) =~= lead);
    assert(t.subrange(t.len() - a.len(), t.len() as int) =~= a);
    assert(t.skip(lead.len() as int) =~= a);
    assert(failure_text(g).skip(lead.len() as int) =~= b);
    text::lemma_digits_read_back(f.count as nat);
    text::lemma_digits_read_back(g.count as nat);
}

} // verus!
