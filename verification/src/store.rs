//! The event store: append-only logs of sessions, ratings, reveals, aliases and prices, beside two
//! registries that may be refreshed.
//!
//! The tables are plain rows. Corrections supersede and never edit: every operation that writes
//! keeps the rows that were there, see [`Tables::extends`].

use vstd::prelude::*;

use crate::alias::{Alias, RevealReason};
use crate::backend::{AbortReason, CostSource, ErrorKind};
use crate::config;
use crate::config::CaptureLevel;
use crate::double::Double;
use crate::tables;
use crate::text::same_text;

verus! {

/// A provider's routing facts.
#[derive(Clone, Debug)]
pub struct ProviderRow {
    pub slug: String,
    pub base_url: String,
    pub wire: String,
}

/// A model's slug at a provider.
#[derive(Clone, Debug)]
pub struct CatalogRow {
    pub canonical_key: String,
    pub provider_slug: String,
    pub real_slug: String,
}

/// One observed price.
#[derive(Clone, Debug)]
pub struct PriceRow {
    pub canonical_key: String,
    pub provider_slug: String,
    pub input_per_mtok: Option<Double>,
    pub output_per_mtok: Option<Double>,
    /// When it was observed, in seconds since the epoch.
    pub observed_at: i64,
}

/// The alias of a model at a provider.
#[derive(Clone, Debug)]
pub struct AliasRow {
    pub alias: Alias,
    pub canonical_key: String,
    pub provider_slug: String,
}

/// A session's start.
#[derive(Clone, Debug)]
pub struct SessionRow {
    pub id: i64,
    /// The alias that the session ran under, as it is shown.
    pub alias: String,
    pub cli: Option<String>,
    pub tuneables_json: Option<String>,
    pub capture_level: CaptureLevel,
    pub started_at: i64,
}

/// How a session ended.
#[derive(Clone, Copy, Debug, PartialEq, Eq, Structural)]
pub struct SessionEnd {
    pub realized_cost: Option<Double>,
    pub cost_source: Option<CostSource>,
    pub prompt_tokens: Option<u64>,
    pub completion_tokens: Option<u64>,
    pub cached_prompt_tokens: Option<u64>,
    pub error_kind: Option<ErrorKind>,
    pub error_status: Option<u16>,
    pub terminated_by: Option<AbortReason>,
}

/// A session's end.
#[derive(Clone, Copy, Debug, PartialEq, Eq, Structural)]
pub struct EndRow {
    pub session_id: i64,
    pub end: SessionEnd,
    pub ended_at: i64,
}

/// A rating, or a correction of one.
#[derive(Clone, Copy, Debug, PartialEq, Eq, Structural)]
pub struct RatingRow {
    pub id: i64,
    pub session_id: i64,
    /// From -2 to 2.
    pub performance_points: i64,
    /// From 0 to 4.
    pub difficulty_points: i64,
    /// The rating that this one corrects.
    pub supersedes: Option<i64>,
    pub rated_at: i64,
}

/// An unmasking.
#[derive(Clone, Debug)]
pub struct RevealRow {
    pub id: i64,
    pub alias: String,
    pub session_id: Option<i64>,
    pub reason: RevealReason,
    pub revealed_at: i64,
}

/// Everything that the transport needs to forward a request under an alias.
#[derive(Debug)]
pub struct Route {
    pub canonical_key: String,
    pub provider_slug: String,
    pub real_slug: String,
    pub base_url: String,
    pub wire: String,
}

/// The latest known price of a model at a provider; an unpriced model is free.
#[derive(Debug)]
pub struct PricePoint {
    pub canonical_key: String,
    pub provider_slug: String,
    pub input_per_mtok: Option<Double>,
    pub output_per_mtok: Option<Double>,
}

/// A rating that no later rating supersedes, with the model that it is about.
#[derive(Debug)]
pub struct EffectiveRating {
    pub canonical_key: String,
    pub performance_points: i64,
    pub difficulty_points: i64,
    /// In seconds since the epoch.
    pub rated_at: i64,
}

/// A rating that counts, with its age.
#[derive(Debug)]
pub struct AgedRating {
    pub canonical_key: String,
    pub performance_points: i64,
    pub difficulty_points: i64,
    pub age_seconds: u64,
}

/// A failed session, with its age.
#[derive(Debug)]
pub struct AgedFailure {
    pub canonical_key: String,
    pub error_kind: ErrorKind,
    pub age_seconds: u64,
}

/// Why the store refused to record something.
#[derive(Clone, Copy, Debug, PartialEq, Eq, Structural)]
pub enum StoreError {
    /// Performance is not in -2 to 2.
    PerformanceRange,
    /// Difficulty is not in 0 to 4.
    DifficultyRange,
    /// There is no such session.
    NoSuchSession,
    /// There is no such rating to supersede.
    NoSuchRating,
    /// The alias is in use.
    AliasTaken,
    /// The session has ended already.
    AlreadyEnded,
    /// There are no more ids.
    OutOfIds,
}

impl StoreError {
    /// The error as text.
    pub open spec fn text(self) -> Seq<char> {
        match self {
            StoreError::PerformanceRange => "performance must be in -2..=2"@,
            StoreError::DifficultyRange => "difficulty must be in 0..=4"@,
            StoreError::NoSuchSession => "no such session"@,
            StoreError::NoSuchRating => "no such rating to supersede"@,
            StoreError::AliasTaken => "the alias is in use"@,
            StoreError::AlreadyEnded => "the session has ended already"@,
            StoreError::OutOfIds => "there are no more ids"@,
        }
    }

    /// The error as text.
    pub fn message(&self) -> (r: &'static str)
        ensures
            r@ == self.text(),
    {
        match self {
            StoreError::PerformanceRange => "performance must be in -2..=2",
            StoreError::DifficultyRange => "difficulty must be in 0..=4",
            StoreError::NoSuchSession => "no such session",
            StoreError::NoSuchRating => "no such rating to supersede",
            StoreError::AliasTaken => "the alias is in use",
            StoreError::AlreadyEnded => "the session has ended already",
            StoreError::OutOfIds => "there are no more ids",
        }
    }
}

/// The tables, row by row.
#[derive(Clone, Debug)]
pub struct Tables {
    pub providers: Vec<ProviderRow>,
    pub catalog: Vec<CatalogRow>,
    pub price_history: Vec<PriceRow>,
    pub aliases: Vec<AliasRow>,
    pub sessions: Vec<SessionRow>,
    pub session_end: Vec<EndRow>,
    pub ratings: Vec<RatingRow>,
    pub reveals: Vec<RevealRow>,
}

/// The store: tables in good order, which nothing outside this module can edit. Rows are only ever
/// recorded through its methods.
#[derive(Debug)]
pub struct Store {
    tables: Tables,
}

impl View for Store {
    type V = Tables;

    /// The tables of the store.
    closed spec fn view(&self) -> Tables {
        self.tables
    }
}

impl Store {
    /// The tables are in good order.
    #[verifier::type_invariant]
    pub open spec fn in_order(self) -> bool {
        self@.wf()
    }

    /// The tables, to read.
    pub fn tables(&self) -> (r: &Tables)
        ensures
            *r == self@,
            r.wf(),
    {
        proof {
            use_type_invariant(self);
        }
        &self.tables
    }
}

/// Whether a row is the alias that is shown so.
pub open spec fn shown_as(display: Seq<char>) -> spec_fn(AliasRow) -> bool {
    |a: AliasRow| a.alias.name() == display
}

/// Whether a row is the session with this id.
pub open spec fn with_id(id: i64) -> spec_fn(SessionRow) -> bool {
    |s: SessionRow| s.id == id
}

/// Whether a row is the end of this session.
pub open spec fn ending(id: i64) -> spec_fn(EndRow) -> bool {
    |e: EndRow| e.session_id == id
}

/// Whether a row is the provider of this slug.
pub open spec fn with_slug(slug: Seq<char>) -> spec_fn(ProviderRow) -> bool {
    |p: ProviderRow| p.slug@ == slug
}

/// Whether a row is this model at this provider.
pub open spec fn offering(
    canonical_key: Seq<char>,
    provider_slug: Seq<char>,
) -> spec_fn(CatalogRow) -> bool {
    |c: CatalogRow| c.canonical_key@ == canonical_key && c.provider_slug@ == provider_slug
}

/// Whether a row is an alias of this model.
pub open spec fn masking_model(canonical_key: Seq<char>) -> spec_fn(AliasRow) -> bool {
    |a: AliasRow| a.canonical_key@ == canonical_key
}

/// Whether a row is an alias at this provider.
pub open spec fn masking_provider(provider_slug: Seq<char>) -> spec_fn(AliasRow) -> bool {
    |a: AliasRow| a.provider_slug@ == provider_slug
}

/// Whether a row is an alias of this model at this provider.
pub open spec fn masking(
    canonical_key: Seq<char>,
    provider_slug: Seq<char>,
) -> spec_fn(AliasRow) -> bool {
    |a: AliasRow| a.canonical_key@ == canonical_key && a.provider_slug@ == provider_slug
}

/// What tells aliases apart: how they are shown.
pub open spec fn alias_key() -> spec_fn(AliasRow) -> Seq<char> {
    |a: AliasRow| a.alias.name()
}

/// What tells providers apart.
pub open spec fn provider_key() -> spec_fn(ProviderRow) -> Seq<char> {
    |p: ProviderRow| p.slug@
}

/// What tells the rows of the catalog apart.
pub open spec fn offer_key() -> spec_fn(CatalogRow) -> (Seq<char>, Seq<char>) {
    |c: CatalogRow| (c.canonical_key@, c.provider_slug@)
}

/// What tells session ends apart.
pub open spec fn end_key() -> spec_fn(EndRow) -> i64 {
    |e: EndRow| e.session_id
}

/// Whether no two rows have the same key.
#[verifier::opaque]
pub open spec fn once<T, K>(rows: Seq<T>, key: spec_fn(T) -> K) -> bool {
    forall|i: int, j: int|
        0 <= i < j < rows.len() ==> key(#[trigger] rows[i]) != key(#[trigger] rows[j])
}

/// The session that the end of a session is about.
pub open spec fn end_session() -> spec_fn(EndRow) -> Option<i64> {
    |e: EndRow| Some(e.session_id)
}

/// The session that a rating is about.
pub open spec fn rating_session() -> spec_fn(RatingRow) -> Option<i64> {
    |r: RatingRow| Some(r.session_id)
}

/// The session that an unmasking was for, if it was for one.
pub open spec fn reveal_session() -> spec_fn(RevealRow) -> Option<i64> {
    |r: RevealRow| r.session_id
}

/// Whether a session with this id is there.
pub open spec fn session_known(sessions: Seq<SessionRow>, id: i64) -> bool {
    exists|k: int| 0 <= k < sessions.len() && (#[trigger] sessions[k]).id == id
}

/// Whether every session that rows speak of is there.
#[verifier::opaque]
pub open spec fn refers<T>(
    rows: Seq<T>,
    about: spec_fn(T) -> Option<i64>,
    sessions: Seq<SessionRow>,
) -> bool {
    forall|i: int|
        0 <= i < rows.len() ==> (about(#[trigger] rows[i]) matches Some(id) ==> session_known(
            sessions,
            id,
        ))
}

/// Whether the points of a rating are on their scales.
pub open spec fn on_scale(row: RatingRow) -> bool {
    -2 <= row.performance_points <= 2 && 0 <= row.difficulty_points <= 4
}

/// Whether all ratings are on their scales, and each corrects an earlier one if it corrects any.
#[verifier::opaque]
pub open spec fn sound_ratings(rows: Seq<RatingRow>) -> bool {
    forall|i: int|
        0 <= i < rows.len() ==> on_scale(#[trigger] rows[i]) && (
        rows[i].supersedes matches Some(old) ==> exists|j: int|
            0 <= j < i && (#[trigger] rows[j]).id == old)
}

/// Whether `old` is how `new` begins.
pub open spec fn begins<T>(new: Seq<T>, old: Seq<T>) -> bool {
    old.len() <= new.len() && new.take(old.len() as int) == old
}

/// The age of something at `at`, seen from `now`: nothing is younger than new.
pub open spec fn age(now: i64, at: i64) -> u64 {
    if now <= at {
        0
    } else {
        (now - at) as u64
    }
}

/// The age of something at `at`, seen from `now`.
pub fn age_of(now: i64, at: i64) -> (r: u64)
    ensures
        r == age(now, at),
{
    if now <= at {
        0
    } else {
        (now as i128 - at as i128) as u64
    }
}

impl Tables {
    /// What holds of the tables at all times. Ids grow from row to row, so that each names one row.
    /// An alias, a provider, a model at a provider and the end of a session are there once. Whatever
    /// speaks of a session speaks of one that is there. Ratings are on their scales, and a rating
    /// corrects an earlier one.
    pub open spec fn wf(self) -> bool {
        &&& once(self.aliases@, alias_key())
        &&& once(self.providers@, provider_key())
        &&& once(self.catalog@, offer_key())
        &&& once(self.session_end@, end_key())
        &&& refers(self.session_end@, end_session(), self.sessions@)
        &&& refers(self.ratings@, rating_session(), self.sessions@)
        &&& refers(self.reveals@, reveal_session(), self.sessions@)
        &&& sound_ratings(self.ratings@)
        &&& forall|i: int, j: int|
            0 <= i < j < self.sessions@.len() ==> (#[trigger] self.sessions@[i]).id < (
            #[trigger] self.sessions@[j]).id
        &&& forall|i: int, j: int|
            0 <= i < j < self.ratings@.len() ==> (#[trigger] self.ratings@[i]).id < (
            #[trigger] self.ratings@[j]).id
        &&& forall|i: int, j: int|
            0 <= i < j < self.reveals@.len() ==> (#[trigger] self.reveals@[i]).id < (
            #[trigger] self.reveals@[j]).id
        &&& forall|i: int|
            0 <= i < self.ratings@.len() ==> ((
            #[trigger] self.ratings@[i]).supersedes matches Some(old) ==> old < self.ratings@[i].id)
    }

    /// Whether this store holds, at the beginning of every log, all that `old` held.
    pub open spec fn extends(self, old: Tables) -> bool {
        &&& begins(self.price_history@, old.price_history@)
        &&& begins(self.aliases@, old.aliases@)
        &&& begins(self.sessions@, old.sessions@)
        &&& begins(self.session_end@, old.session_end@)
        &&& begins(self.ratings@, old.ratings@)
        &&& begins(self.reveals@, old.reveals@)
    }

    /// The position of the row of an alias, by its shown form.
    pub open spec fn alias_at(self, display: Seq<char>) -> Option<int> {
        tables::first_where(self.aliases@, shown_as(display))
    }

    /// The position of the row of a session.
    pub open spec fn session_at(self, id: i64) -> Option<int> {
        tables::first_where(self.sessions@, with_id(id))
    }

    /// The model that a session was about: by the session's alias.
    pub open spec fn session_key(self, id: i64) -> Option<Seq<char>> {
        match self.session_at(id) {
            Some(s) => match self.alias_at(self.sessions@[s].alias@) {
                Some(a) => Some(self.aliases@[a].canonical_key@),
                None => None,
            },
            None => None,
        }
    }

    /// Whether a rating with this id is there.
    pub open spec fn has_rating(self, id: i64) -> bool {
        exists|k: int| 0 <= k < self.ratings@.len() && (#[trigger] self.ratings@[k]).id == id
    }

    /// Whether some rating supersedes the one with this id.
    pub open spec fn superseded(self, id: i64) -> bool {
        exists|k: int|
            0 <= k < self.ratings@.len() && (#[trigger] self.ratings@[k]).supersedes == Some(id)
    }

    /// Whether the rating at a position counts: nothing supersedes it, and its model is known.
    pub open spec fn counts(self, i: int) -> bool {
        !self.superseded(self.ratings@[i].id) && self.session_key(self.ratings@[i].session_id) is Some
    }
}

impl Tables {
    /// Whether no table has a row.
    pub open spec fn is_empty(self) -> bool {
        &&& self.providers@.len() == 0
        &&& self.catalog@.len() == 0
        &&& self.price_history@.len() == 0
        &&& self.aliases@.len() == 0
        &&& self.sessions@.len() == 0
        &&& self.session_end@.len() == 0
        &&& self.ratings@.len() == 0
        &&& self.reveals@.len() == 0
    }

    /// Tables without rows.
    fn empty() -> (r: Tables)
        ensures
            r.wf(),
            r.is_empty(),
    {
        proof {
            reveal(once);
            reveal(refers);
            reveal(sound_ratings);
        }
        Tables {
            providers: Vec::new(),
            catalog: Vec::new(),
            price_history: Vec::new(),
            aliases: Vec::new(),
            sessions: Vec::new(),
            session_end: Vec::new(),
            ratings: Vec::new(),
            reveals: Vec::new(),
        }
    }
}

impl Store {
    /// An empty store.
    pub fn open_in_memory() -> (r: Store)
        ensures
            r@.wf(),
            r@.is_empty(),
    {
        Store { tables: Tables::empty() }
    }

    /// Takes the tables out, to add to them.
    fn take(&mut self) -> (r: Tables)
        ensures
            r == old(self)@,
            r.wf(),
    {
        proof {
            use_type_invariant(&*self);
        }
        let mut out: Tables = Tables::empty();
        std::mem::swap(&mut self.tables, &mut out);
        out
    }

    /// Takes over tables that were kept elsewhere, where they are in good order.
    pub fn open(tables: Tables) -> (r: Option<Store>)
        ensures
            match r {
                Some(s) => s@ == tables && s@.wf(),
                None => !tables.wf(),
            },
    {
        let mut i: usize = 1;
        while i < tables.sessions.len()
            invariant
                1 <= i,
                forall|a: int, b: int|
                    0 <= a < b < i && b < tables.sessions@.len() ==> (
                    #[trigger] tables.sessions@[a]).id < (#[trigger] tables.sessions@[b]).id,
            decreases tables.sessions@.len() - i,
        {
            if tables.sessions[i - 1].id >= tables.sessions[i].id {
                return None;
            }
            i = i + 1;
        }
        let mut j: usize = 1;
        while j < tables.ratings.len()
            invariant
                1 <= j,
                forall|a: int, b: int|
                    0 <= a < b < j && b < tables.ratings@.len() ==> (
                    #[trigger] tables.ratings@[a]).id < (#[trigger] tables.ratings@[b]).id,
            decreases tables.ratings@.len() - j,
        {
            if tables.ratings[j - 1].id >= tables.ratings[j].id {
                return None;
            }
            j = j + 1;
        }
        let mut k: usize = 1;
        while k < tables.reveals.len()
            invariant
                1 <= k,
                forall|a: int, b: int|
                    0 <= a < b < k && b < tables.reveals@.len() ==> (
                    #[trigger] tables.reveals@[a]).id < (#[trigger] tables.reveals@[b]).id,
            decreases tables.reveals@.len() - k,
        {
            if tables.reveals[k - 1].id >= tables.reveals[k].id {
                return None;
            }
            k = k + 1;
        }
        let mut m: usize = 0;
        while m < tables.ratings.len()
            invariant
                m <= tables.ratings@.len(),
                forall|a: int|
                    0 <= a < m ==> ((
                    #[trigger] tables.ratings@[a]).supersedes matches Some(old) ==> old
                        < tables.ratings@[a].id),
            decreases tables.ratings@.len() - m,
        {
            if let Some(old) = tables.ratings[m].supersedes {
                if old >= tables.ratings[m].id {
                    return None;
                }
            }
            m = m + 1;
        }
        if !tables.ratings_sound() || !tables.aliases_once() || !tables.providers_once()
            || !tables.offers_once() || !tables.ends_once() || !tables.ends_refer()
            || !tables.ratings_refer() || !tables.reveals_refer() {
            return None;
        }
        Some(Store { tables })
    }
}

impl Tables {
    /// Whether no two aliases are shown alike.
    fn aliases_once(&self) -> (r: bool)
        ensures
            r == once(self.aliases@, alias_key()),
    {
        proof {
            reveal(once);
        }
        let mut i: usize = 0;
        while i < self.aliases.len()
            invariant
                i <= self.aliases@.len(),
                once(self.aliases@, alias_key()) == (forall|a: int, b: int|
                    0 <= a < b < self.aliases@.len() ==> alias_key()(#[trigger] self.aliases@[a])
                        != alias_key()(#[trigger] self.aliases@[b])),
                forall|a: int, b: int|
                    0 <= a < b < i ==> alias_key()(#[trigger] self.aliases@[a]) != alias_key()(
                        #[trigger] self.aliases@[b],
                    ),
            decreases self.aliases@.len() - i,
        {
            let found: Option<usize> = self.find_alias(self.aliases[i].alias.display().as_str());
            proof {
                let fits = shown_as(self.aliases@[i as int].alias.name());
                tables::lemma_first_where(self.aliases@, fits);
                assert(fits(self.aliases@[i as int]));
                if let Some(j) = found {
                    assert forall|a: int| 0 <= a < j implies alias_key()(#[trigger] self.aliases@[a])
                        != alias_key()(self.aliases@[i as int]) by {
                        assert(!fits(self.aliases@[a]));
                    }
                    assert(fits(self.aliases@[j as int]));
                    assert(alias_key()(self.aliases@[j as int]) == alias_key()(
                        self.aliases@[i as int],
                    ));
                }
            }
            if found != Some(i) {
                return false;
            }
            i = i + 1;
        }
        true
    }

    /// Whether no two providers share a slug.
    fn providers_once(&self) -> (r: bool)
        ensures
            r == once(self.providers@, provider_key()),
    {
        proof {
            reveal(once);
        }
        let mut i: usize = 0;
        while i < self.providers.len()
            invariant
                i <= self.providers@.len(),
                once(self.providers@, provider_key()) == (forall|a: int, b: int|
                    0 <= a < b < self.providers@.len() ==> provider_key()(#[trigger] self.providers@[a])
                        != provider_key()(#[trigger] self.providers@[b])),
                forall|a: int, b: int|
                    0 <= a < b < i ==> provider_key()(#[trigger] self.providers@[a]) != provider_key()(
                        #[trigger] self.providers@[b],
                    ),
            decreases self.providers@.len() - i,
        {
            let found: Option<usize> = self.find_provider(self.providers[i].slug.as_str());
            proof {
                let fits = with_slug(self.providers@[i as int].slug@);
                tables::lemma_first_where(self.providers@, fits);
                assert(fits(self.providers@[i as int]));
                if let Some(j) = found {
                    assert forall|a: int| 0 <= a < j implies provider_key()(#[trigger] self.providers@[a])
                        != provider_key()(self.providers@[i as int]) by {
                        assert(!fits(self.providers@[a]));
                    }
                    assert(fits(self.providers@[j as int]));
                    assert(provider_key()(self.providers@[j as int]) == provider_key()(
                        self.providers@[i as int],
                    ));
                }
            }
            if found != Some(i) {
                return false;
            }
            i = i + 1;
        }
        true
    }

    /// Whether no model is in the catalog twice at one provider.
    fn offers_once(&self) -> (r: bool)
        ensures
            r == once(self.catalog@, offer_key()),
    {
        proof {
            reveal(once);
        }
        let mut i: usize = 0;
        while i < self.catalog.len()
            invariant
                i <= self.catalog@.len(),
                once(self.catalog@, offer_key()) == (forall|a: int, b: int|
                    0 <= a < b < self.catalog@.len() ==> offer_key()(#[trigger] self.catalog@[a])
                        != offer_key()(#[trigger] self.catalog@[b])),
                forall|a: int, b: int|
                    0 <= a < b < i ==> offer_key()(#[trigger] self.catalog@[a]) != offer_key()(
                        #[trigger] self.catalog@[b],
                    ),
            decreases self.catalog@.len() - i,
        {
            let found: Option<usize> = self.find_model(
                self.catalog[i].canonical_key.as_str(),
                self.catalog[i].provider_slug.as_str(),
            );
            proof {
                let fits = offering(
                    self.catalog@[i as int].canonical_key@,
                    self.catalog@[i as int].provider_slug@,
                );
                tables::lemma_first_where(self.catalog@, fits);
                assert(fits(self.catalog@[i as int]));
                if let Some(j) = found {
                    assert forall|a: int| 0 <= a < j implies offer_key()(#[trigger] self.catalog@[a])
                        != offer_key()(self.catalog@[i as int]) by {
                        assert(!fits(self.catalog@[a]));
                    }
                    assert(fits(self.catalog@[j as int]));
                    assert(offer_key()(self.catalog@[j as int]) == offer_key()(
                        self.catalog@[i as int],
                    ));
                }
            }
            if found != Some(i) {
                return false;
            }
            i = i + 1;
        }
        true
    }

    /// Whether no session has ended twice.
    fn ends_once(&self) -> (r: bool)
        ensures
            r == once(self.session_end@, end_key()),
    {
        proof {
            reveal(once);
        }
        let mut i: usize = 0;
        while i < self.session_end.len()
            invariant
                i <= self.session_end@.len(),
                once(self.session_end@, end_key()) == (forall|a: int, b: int|
                    0 <= a < b < self.session_end@.len() ==> end_key()(#[trigger] self.session_end@[a])
                        != end_key()(#[trigger] self.session_end@[b])),
                forall|a: int, b: int|
                    0 <= a < b < i ==> end_key()(#[trigger] self.session_end@[a]) != end_key()(
                        #[trigger] self.session_end@[b],
                    ),
            decreases self.session_end@.len() - i,
        {
            let found: Option<usize> = self.find_end(self.session_end[i].session_id);
            proof {
                let fits = ending(self.session_end@[i as int].session_id);
                tables::lemma_first_where(self.session_end@, fits);
                assert(fits(self.session_end@[i as int]));
                if let Some(j) = found {
                    assert forall|a: int| 0 <= a < j implies end_key()(#[trigger] self.session_end@[a])
                        != end_key()(self.session_end@[i as int]) by {
                        assert(!fits(self.session_end@[a]));
                    }
                    assert(fits(self.session_end@[j as int]));
                    assert(end_key()(self.session_end@[j as int]) == end_key()(
                        self.session_end@[i as int],
                    ));
                }
            }
            if found != Some(i) {
                return false;
            }
            i = i + 1;
        }
        true
    }

    /// Whether only sessions that are there have ended.
    fn ends_refer(&self) -> (r: bool)
        ensures
            r == refers(self.session_end@, end_session(), self.sessions@),
    {
        proof {
            reveal(refers);
        }
        let mut i: usize = 0;
        while i < self.session_end.len()
            invariant
                i <= self.session_end@.len(),
                refers(self.session_end@, end_session(), self.sessions@) == (forall|a: int|
                    0 <= a < self.session_end@.len() ==> (end_session()(
                        #[trigger] self.session_end@[a],
                    ) matches Some(id) ==> session_known(self.sessions@, id))),
                forall|a: int|
                    0 <= a < i ==> (end_session()(#[trigger] self.session_end@[a]) matches Some(id)
                        ==> session_known(self.sessions@, id)),
            decreases self.session_end@.len() - i,
        {
            proof {
                if let Some(id) = end_session()(self.session_end@[i as int]) {
                    lemma_session_known(self.sessions@, id);
                }
            }
            if self.find_session(self.session_end[i].session_id).is_none() {
                return false;
            }
            i = i + 1;
        }
        true
    }

    /// Whether only sessions that are there are rated.
    fn ratings_refer(&self) -> (r: bool)
        ensures
            r == refers(self.ratings@, rating_session(), self.sessions@),
    {
        proof {
            reveal(refers);
        }
        let mut i: usize = 0;
        while i < self.ratings.len()
            invariant
                i <= self.ratings@.len(),
                refers(self.ratings@, rating_session(), self.sessions@) == (forall|a: int|
                    0 <= a < self.ratings@.len() ==> (rating_session()(
                        #[trigger] self.ratings@[a],
                    ) matches Some(id) ==> session_known(self.sessions@, id))),
                forall|a: int|
                    0 <= a < i ==> (rating_session()(#[trigger] self.ratings@[a]) matches Some(id)
                        ==> session_known(self.sessions@, id)),
            decreases self.ratings@.len() - i,
        {
            proof {
                if let Some(id) = rating_session()(self.ratings@[i as int]) {
                    lemma_session_known(self.sessions@, id);
                }
            }
            if self.find_session(self.ratings[i].session_id).is_none() {
                return false;
            }
            i = i + 1;
        }
        true
    }

    /// Whether no unmasking was for a session that is not there.
    fn reveals_refer(&self) -> (r: bool)
        ensures
            r == refers(self.reveals@, reveal_session(), self.sessions@),
    {
        proof {
            reveal(refers);
        }
        let mut i: usize = 0;
        while i < self.reveals.len()
            invariant
                i <= self.reveals@.len(),
                refers(self.reveals@, reveal_session(), self.sessions@) == (forall|a: int|
                    0 <= a < self.reveals@.len() ==> (reveal_session()(
                        #[trigger] self.reveals@[a],
                    ) matches Some(id) ==> session_known(self.sessions@, id))),
                forall|a: int|
                    0 <= a < i ==> (reveal_session()(#[trigger] self.reveals@[a]) matches Some(id)
                        ==> session_known(self.sessions@, id)),
            decreases self.reveals@.len() - i,
        {
            proof {
                if let Some(id) = reveal_session()(self.reveals@[i as int]) {
                    lemma_session_known(self.sessions@, id);
                }
            }
            if let Some(id) = self.reveals[i].session_id {
                if self.find_session(id).is_none() {
                    return false;
                }
            }
            i = i + 1;
        }
        true
    }

    /// Whether all ratings are on their scales, and each corrects an earlier one if it corrects any.
    fn ratings_sound(&self) -> (r: bool)
        requires
            forall|a: int, b: int|
                0 <= a < b < self.ratings@.len() ==> (#[trigger] self.ratings@[a]).id < (
                #[trigger] self.ratings@[b]).id,
            forall|a: int|
                0 <= a < self.ratings@.len() ==> ((
                #[trigger] self.ratings@[a]).supersedes matches Some(old) ==> old
                    < self.ratings@[a].id),
        ensures
            r == sound_ratings(self.ratings@),
    {
        let mut i: usize = 0;
        while i < self.ratings.len()
            invariant
                i <= self.ratings@.len(),
                forall|a: int, b: int|
                    0 <= a < b < self.ratings@.len() ==> (#[trigger] self.ratings@[a]).id < (
                    #[trigger] self.ratings@[b]).id,
                forall|a: int|
                    0 <= a < self.ratings@.len() ==> ((
                    #[trigger] self.ratings@[a]).supersedes matches Some(old) ==> old
                        < self.ratings@[a].id),
                forall|a: int|
                    0 <= a < i ==> on_scale(#[trigger] self.ratings@[a]) && (
                    self.ratings@[a].supersedes matches Some(old) ==> exists|j: int|
                        0 <= j < a && (#[trigger] self.ratings@[j]).id == old),
            decreases self.ratings@.len() - i,
        {
            let row: &RatingRow = &self.ratings[i];
            if row.performance_points < -2 || row.performance_points > 2 || row.difficulty_points
                < 0 || row.difficulty_points > 4 {
                proof {
                    reveal(sound_ratings);
                    assert(!on_scale(self.ratings@[i as int]));
                }
                return false;
            }
            if let Some(old) = row.supersedes {
                if !self.find_rating(old) {
                    proof {
                        reveal(sound_ratings);
                        assert(self.ratings@[i as int].supersedes == Some(old));
                    }
                    return false;
                }
                proof {
                    let j = choose|j: int|
                        0 <= j < self.ratings@.len() && (#[trigger] self.ratings@[j]).id == old;
                    assert(old < self.ratings@[i as int].id);
                    if j > i {
                        assert(self.ratings@[i as int].id < self.ratings@[j].id);
                    }
                    assert(0 <= j < i && self.ratings@[j].id == old);
                }
            }
            i = i + 1;
        }
        proof {
            reveal(sound_ratings);
        }
        true
    }
}

/// The id of the next row of a log whose last id is `last`.
pub open spec fn next_id(last: Option<i64>) -> Option<i64> {
    match last {
        None => Some(1),
        Some(id) => if id < i64::MAX {
            Some((id + 1) as i64)
        } else {
            None
        },
    }
}

/// The id of the next row of a log whose last id is `last`.
fn id_after(last: Option<i64>) -> (r: Option<i64>)
    ensures
        r == next_id(last),
{
    match last {
        None => Some(1),
        Some(id) => id.checked_add(1),
    }
}

impl Tables {
    /// The last session id.
    pub open spec fn last_session_id(self) -> Option<i64> {
        if self.sessions@.len() == 0 {
            None
        } else {
            Some(self.sessions@.last().id)
        }
    }

    /// The last rating id.
    pub open spec fn last_rating_id(self) -> Option<i64> {
        if self.ratings@.len() == 0 {
            None
        } else {
            Some(self.ratings@.last().id)
        }
    }

    /// The last reveal id.
    pub open spec fn last_reveal_id(self) -> Option<i64> {
        if self.reveals@.len() == 0 {
            None
        } else {
            Some(self.reveals@.last().id)
        }
    }

    /// The position of the row of an alias, by its shown form.
    pub fn find_alias(&self, display: &str) -> (r: Option<usize>)
        ensures
            match r {
                Some(i) => self.alias_at(display@) == Some(i as int) && i < self.aliases@.len(),
                None => self.alias_at(display@) is None,
            },
    {
        let ghost fits = shown_as(display@);
        let mut i: usize = 0;
        while i < self.aliases.len()
            invariant
                i <= self.aliases@.len(),
                fits == shown_as(display@),
                forall|k: int| 0 <= k < i ==> !fits(#[trigger] self.aliases@[k]),
            decreases self.aliases@.len() - i,
        {
            if same_text(self.aliases[i].alias.display().as_str(), display) {
                proof {
                    tables::lemma_first_is(self.aliases@, fits, i as int);
                }
                return Some(i);
            }
            i = i + 1;
        }
        proof {
            tables::lemma_none_fits(self.aliases@, fits);
        }
        None
    }

    /// The position of the row of a session.
    pub fn find_session(&self, id: i64) -> (r: Option<usize>)
        ensures
            match r {
                Some(i) => self.session_at(id) == Some(i as int) && i < self.sessions@.len()
                    && self.sessions@[i as int].id == id,
                None => self.session_at(id) is None,
            },
    {
        let ghost fits = with_id(id);
        let mut i: usize = 0;
        while i < self.sessions.len()
            invariant
                i <= self.sessions@.len(),
                fits == with_id(id),
                forall|k: int| 0 <= k < i ==> !fits(#[trigger] self.sessions@[k]),
            decreases self.sessions@.len() - i,
        {
            if self.sessions[i].id == id {
                proof {
                    tables::lemma_first_is(self.sessions@, fits, i as int);
                }
                return Some(i);
            }
            i = i + 1;
        }
        proof {
            tables::lemma_none_fits(self.sessions@, fits);
        }
        None
    }

    /// The model that a session was about.
    pub fn model_of_session(&self, id: i64) -> (r: Option<&String>)
        ensures
            match r {
                Some(k) => self.session_key(id) == Some(k@),
                None => self.session_key(id) is None,
            },
    {
        match self.find_session(id) {
            Some(s) => match self.find_alias(self.sessions[s].alias.as_str()) {
                Some(a) => Some(&self.aliases[a].canonical_key),
                None => None,
            },
            None => None,
        }
    }

    /// Why a rating would be refused, if it would.
    pub open spec fn rating_refusal(
        self,
        session_id: i64,
        performance: i64,
        difficulty: i64,
        supersedes: Option<i64>,
    ) -> Option<StoreError> {
        if !(-2 <= performance <= 2) {
            Some(StoreError::PerformanceRange)
        } else if !(0 <= difficulty <= 4) {
            Some(StoreError::DifficultyRange)
        } else if self.session_at(session_id) is None {
            Some(StoreError::NoSuchSession)
        } else if supersedes matches Some(old) && !self.has_rating(old) {
            Some(StoreError::NoSuchRating)
        } else if next_id(self.last_rating_id()) is None {
            Some(StoreError::OutOfIds)
        } else {
            None
        }
    }

    /// The store with one more rating.
    pub open spec fn rated(self, next: Tables, row: RatingRow) -> bool {
        next.ratings@ == self.ratings@.push(row) && next == (Tables { ratings: next.ratings, ..self })
    }

    /// Whether a rating with this id is there.
    fn find_rating(&self, id: i64) -> (r: bool)
        ensures
            r == self.has_rating(id),
    {
        let mut i: usize = 0;
        while i < self.ratings.len()
            invariant
                i <= self.ratings@.len(),
                forall|k: int| 0 <= k < i ==> (#[trigger] self.ratings@[k]).id != id,
            decreases self.ratings@.len() - i,
        {
            if self.ratings[i].id == id {
                return true;
            }
            i = i + 1;
        }
        false
    }
}

impl Store {
    /// Records a rating of a session; returns its id. `supersedes` is the rating that this one
    /// corrects.
    pub fn record_rating(
        &mut self,
        session_id: i64,
        performance_points: i64,
        difficulty_points: i64,
        supersedes: Option<i64>,
        now: i64,
    ) -> (r: Result<i64, StoreError>)
        ensures
            final(self)@.wf(),
            final(self)@.extends(old(self)@),
            match r {
                Ok(id) => old(self)@.rating_refusal(
                    session_id,
                    performance_points,
                    difficulty_points,
                    supersedes,
                ) is None && next_id(old(self)@.last_rating_id()) == Some(id) && old(self)@.rated(
                    final(self)@,
                    RatingRow {
                        id,
                        session_id,
                        performance_points,
                        difficulty_points,
                        supersedes,
                        rated_at: now,
                    },
                ),
                Err(e) => old(self)@.rating_refusal(
                    session_id,
                    performance_points,
                    difficulty_points,
                    supersedes,
                ) == Some(e) && final(self)@ == old(self)@,
            },
    {
        proof {
            use_type_invariant(&*self);
            lemma_logs_begin(self@);
        }
        if performance_points < -2 || performance_points > 2 {
            return Err(StoreError::PerformanceRange);
        }
        if difficulty_points < 0 || difficulty_points > 4 {
            return Err(StoreError::DifficultyRange);
        }
        if self.tables.find_session(session_id).is_none() {
            return Err(StoreError::NoSuchSession);
        }
        if let Some(old) = supersedes {
            if !self.tables.find_rating(old) {
                return Err(StoreError::NoSuchRating);
            }
        }
        let n: usize = self.tables.ratings.len();
        let last: Option<i64> = if n == 0 {
            None
        } else {
            Some(self.tables.ratings[n - 1].id)
        };
        let id: i64 = match id_after(last) {
            Some(id) => id,
            None => {
                return Err(StoreError::OutOfIds);
            },
        };
        let ghost before = self.tables.ratings@;
        let row: RatingRow = RatingRow {
            id,
            session_id,
            performance_points,
            difficulty_points,
            supersedes,
            rated_at: now,
        };
        let mut tables: Tables = self.take();
        tables.ratings.push(row);
        proof {
            lemma_refers_added(before, row, rating_session(), tables.sessions@);
            lemma_sound_rating_added(before, row);
            assert(tables.ratings@.take(before.len() as int) =~= before);
            if let Some(old) = supersedes {
                let k = choose|k: int| 0 <= k < before.len() && (#[trigger] before[k]).id == old;
                if k < before.len() - 1 {
                    assert(before[k].id < before[before.len() - 1].id);
                }
            }
        }
        *self = Store { tables };
        Ok(id)
    }
}

/// A row with a key of its own is one more that is there once.
proof fn lemma_once_added<T, K>(rows: Seq<T>, row: T, key: spec_fn(T) -> K)
    requires
        once(rows, key),
        forall|k: int| 0 <= k < rows.len() ==> key(#[trigger] rows[k]) != key(row),
    ensures
        once(rows.push(row), key),
{
    reveal(once);
}

/// A row that takes the place of one with its key is there once.
proof fn lemma_once_set<T, K>(rows: Seq<T>, i: int, row: T, key: spec_fn(T) -> K)
    requires
        once(rows, key),
        0 <= i < rows.len(),
        key(rows[i]) == key(row),
    ensures
        once(rows.update(i, row), key),
{
    reveal(once);
    let next = rows.update(i, row);
    assert forall|a: int, b: int| 0 <= a < b < next.len() implies key(#[trigger] next[a]) != key(
        #[trigger] next[b],
    ) by {
        assert(key(next[a]) == key(rows[a]));
        assert(key(next[b]) == key(rows[b]));
    }
}

/// A session is there where looking for it finds it.
proof fn lemma_session_known(sessions: Seq<SessionRow>, id: i64)
    ensures
        session_known(sessions, id) == (tables::first_where(sessions, with_id(id)) is Some),
{
    let fits = with_id(id);
    tables::lemma_first_where(sessions, fits);
    match tables::first_where(sessions, fits) {
        Some(k) => {
            assert(sessions[k].id == id);
        },
        None => {
            assert forall|k: int| 0 <= k < sessions.len() implies (#[trigger] sessions[k]).id
                != id by {
                assert(!fits(sessions[k]));
            }
        },
    }
}

/// A row about a session that is there, or about none, is one more that refers to what is there.
proof fn lemma_refers_added<T>(
    rows: Seq<T>,
    row: T,
    about: spec_fn(T) -> Option<i64>,
    sessions: Seq<SessionRow>,
)
    requires
        refers(rows, about, sessions),
        about(row) matches Some(id) ==> tables::first_where(sessions, with_id(id)) is Some,
    ensures
        refers(rows.push(row), about, sessions),
{
    reveal(refers);
    if let Some(id) = about(row) {
        lemma_session_known(sessions, id);
    }
}

/// One more session takes none away from those who speak of it.
proof fn lemma_refers_kept<T>(
    rows: Seq<T>,
    about: spec_fn(T) -> Option<i64>,
    sessions: Seq<SessionRow>,
    row: SessionRow,
)
    requires
        refers(rows, about, sessions),
    ensures
        refers(rows, about, sessions.push(row)),
{
    reveal(refers);
    let next = sessions.push(row);
    assert forall|i: int|
        0 <= i < rows.len() implies (about(#[trigger] rows[i]) matches Some(id) ==> session_known(
        next,
        id,
    )) by {
        if let Some(id) = about(rows[i]) {
            let k = choose|k: int| 0 <= k < sessions.len() && (#[trigger] sessions[k]).id == id;
            assert(next[k].id == id);
        }
    }
}

/// A rating on its scales that corrects one that is there is one more sound rating.
proof fn lemma_sound_rating_added(rows: Seq<RatingRow>, row: RatingRow)
    requires
        sound_ratings(rows),
        on_scale(row),
        row.supersedes matches Some(old) ==> exists|k: int|
            0 <= k < rows.len() && (#[trigger] rows[k]).id == old,
    ensures
        sound_ratings(rows.push(row)),
{
    reveal(sound_ratings);
    let next = rows.push(row);
    assert forall|i: int| 0 <= i < next.len() implies on_scale(#[trigger] next[i]) && (
    next[i].supersedes matches Some(old) ==> exists|j: int|
        0 <= j < i && (#[trigger] next[j]).id == old) by {
        if i < rows.len() {
            assert(next[i] == rows[i]);
        }
        if let Some(old) = next[i].supersedes {
            let j = choose|j: int| 0 <= j < i && j < rows.len() && (#[trigger] rows[j]).id == old;
            assert(next[j].id == old);
        }
    }
}

/// A log begins with itself.
proof fn lemma_begins<T>(log: Seq<T>)
    ensures
        begins(log, log),
        forall|row: T| begins(#[trigger] log.push(row), log),
{
    assert(log.take(log.len() as int) =~= log);
    assert forall|row: T| begins(#[trigger] log.push(row), log) by {
        assert(log.push(row).take(log.len() as int) =~= log);
    }
}

/// Every log of a store begins with itself, and still does with one more row.
pub proof fn lemma_logs_begin(s: Tables)
    ensures
        s.extends(s),
        forall|row: PriceRow| begins(#[trigger] s.price_history@.push(row), s.price_history@),
        forall|row: AliasRow| begins(#[trigger] s.aliases@.push(row), s.aliases@),
        forall|row: SessionRow| begins(#[trigger] s.sessions@.push(row), s.sessions@),
        forall|row: EndRow| begins(#[trigger] s.session_end@.push(row), s.session_end@),
        forall|row: RatingRow| begins(#[trigger] s.ratings@.push(row), s.ratings@),
        forall|row: RevealRow| begins(#[trigger] s.reveals@.push(row), s.reveals@),
{
    lemma_begins(s.price_history@);
    lemma_begins(s.aliases@);
    lemma_begins(s.sessions@);
    lemma_begins(s.session_end@);
    lemma_begins(s.ratings@);
    lemma_begins(s.reveals@);
}

/// Nothing that was recorded is ever lost: what extends an extension extends the original.
pub proof fn lemma_history_is_kept(a: Tables, b: Tables, c: Tables)
    requires
        b.extends(a),
        c.extends(b),
    ensures
        c.extends(a),
{
    lemma_begins_again(a.price_history@, b.price_history@, c.price_history@);
    lemma_begins_again(a.aliases@, b.aliases@, c.aliases@);
    lemma_begins_again(a.sessions@, b.sessions@, c.sessions@);
    lemma_begins_again(a.session_end@, b.session_end@, c.session_end@);
    lemma_begins_again(a.ratings@, b.ratings@, c.ratings@);
    lemma_begins_again(a.reveals@, b.reveals@, c.reveals@);
}

/// The beginning of a beginning is a beginning.
proof fn lemma_begins_again<T>(a: Seq<T>, b: Seq<T>, c: Seq<T>)
    requires
        begins(b, a),
        begins(c, b),
    ensures
        begins(c, a),
{
    assert(c.take(b.len() as int).take(a.len() as int) =~= c.take(a.len() as int));
}

/// A correction takes the place of what it corrects: the superseded rating no longer counts, the
/// new one counts where its model is known, and every other rating counts as before. So a chain of
/// corrections comes down to its last link, and nothing is counted twice.
pub proof fn lemma_correction_replaces(before: Tables, after: Tables, row: RatingRow)
    requires
        before.wf(),
        after.wf(),
        before.rated(after, row),
        next_id(before.last_rating_id()) == Some(row.id),
    ensures
        forall|i: int|
            0 <= i < before.ratings@.len() ==> #[trigger] after.counts(i) == (before.counts(i)
                && row.supersedes != Some(before.ratings@[i].id)),
        after.counts(before.ratings@.len() as int) == (before.session_key(
            row.session_id,
        ) is Some),
{
    let n = before.ratings@.len() as int;
    assert(after.ratings@[n] == row);
    assert forall|i: int| 0 <= i < n implies #[trigger] after.counts(i) == (before.counts(i)
        && row.supersedes != Some(before.ratings@[i].id)) by {
        let id = before.ratings@[i].id;
        assert(after.ratings@[i] == before.ratings@[i]);
        if before.superseded(id) {
            let k = choose|k: int|
                0 <= k < n && (#[trigger] before.ratings@[k]).supersedes == Some(id);
            assert(after.ratings@[k].supersedes == Some(id));
        }
        if after.superseded(id) {
            let k = choose|k: int|
                0 <= k < after.ratings@.len() && (#[trigger] after.ratings@[k]).supersedes == Some(
                    id,
                );
            if k < n {
                assert(before.ratings@[k].supersedes == Some(id));
            }
        }
        if row.supersedes == Some(id) {
            assert(after.ratings@[n].supersedes == Some(id));
        }
        assert(after.session_key(before.ratings@[i].session_id) == before.session_key(
            before.ratings@[i].session_id,
        ));
    }
    assert(!after.superseded(row.id)) by {
        if after.superseded(row.id) {
            let k = choose|k: int|
                0 <= k < after.ratings@.len() && (#[trigger] after.ratings@[k]).supersedes == Some(
                    row.id,
                );
            if k < n {
                assert(after.ratings@[k].id < after.ratings@[n].id);
            }
        }
    }
    assert(after.session_key(row.session_id) == before.session_key(row.session_id));
}

impl Tables {
    /// When the ratings were given.
    pub open spec fn rating_times(self) -> Seq<i128> {
        self.ratings@.map_values(|r: RatingRow| r.rated_at as i128)
    }

    /// Whether `order` lists the ratings that count, oldest first.
    pub open spec fn effective_order(self, order: Seq<int>) -> bool {
        tables::is_listing(
            order,
            self.rating_times(),
            Seq::new(self.ratings@.len(), |i: int| self.counts(i)),
        )
    }

    /// Whether some rating supersedes the one with this id.
    pub fn is_superseded(&self, id: i64) -> (r: bool)
        ensures
            r == self.superseded(id),
    {
        let mut i: usize = 0;
        while i < self.ratings.len()
            invariant
                i <= self.ratings@.len(),
                forall|k: int| 0 <= k < i ==> (#[trigger] self.ratings@[k]).supersedes != Some(id),
            decreases self.ratings@.len() - i,
        {
            if let Some(old) = self.ratings[i].supersedes {
                if old == id {
                    return true;
                }
            }
            i = i + 1;
        }
        false
    }

    /// The positions of the ratings that count, oldest first.
    pub fn effective_positions(&self) -> (r: Vec<usize>)
        ensures
            self.effective_order(tables::positions(r@)),
    {
        let mut keys: Vec<i128> = Vec::new();
        let mut keep: Vec<bool> = Vec::new();
        let mut i: usize = 0;
        while i < self.ratings.len()
            invariant
                i <= self.ratings@.len(),
                keys@.len() == i,
                keep@.len() == i,
                forall|k: int| 0 <= k < i ==> #[trigger] keys@[k] == self.ratings@[k].rated_at,
                forall|k: int| 0 <= k < i ==> #[trigger] keep@[k] == self.counts(k),
            decreases self.ratings@.len() - i,
        {
            let row: RatingRow = self.ratings[i];
            keys.push(row.rated_at as i128);
            keep.push(
                !self.is_superseded(row.id) && self.model_of_session(row.session_id).is_some(),
            );
            i = i + 1;
        }
        proof {
            assert(keys@ =~= self.rating_times());
            assert(keep@ =~= Seq::new(self.ratings@.len(), |i: int| self.counts(i)));
        }
        tables::listing(&keys, &keep)
    }

    /// Whether a result is the rating at a position.
    pub open spec fn is_rating(self, r: EffectiveRating, i: int) -> bool {
        &&& self.session_key(self.ratings@[i].session_id) == Some(r.canonical_key@)
        &&& r.performance_points == self.ratings@[i].performance_points
        &&& r.difficulty_points == self.ratings@[i].difficulty_points
        &&& r.rated_at == self.ratings@[i].rated_at
    }
}

impl Store {
    /// The ratings that count, oldest first, each with the model that it is about.
    pub fn effective_ratings(&self) -> (r: Vec<EffectiveRating>)
        ensures
            exists|order: Seq<int>| #[trigger]
                self@.effective_order(order) && order.len() == r@.len() && forall|k: int|
                    0 <= k < r@.len() ==> self@.is_rating(#[trigger] r@[k], order[k]),
    {
        let order: Vec<usize> = self.tables.effective_positions();
        let ghost places = tables::positions(order@);
        let mut out: Vec<EffectiveRating> = Vec::new();
        let mut k: usize = 0;
        while k < order.len()
            invariant
                k <= order@.len(),
                places == tables::positions(order@),
                self@.effective_order(places),
                out@.len() == k,
                forall|j: int| 0 <= j < k ==> self@.is_rating(#[trigger] out@[j], places[j]),
            decreases order@.len() - k,
        {
            proof {
                assert(places[k as int] == order@[k as int]);
            }
            let row: RatingRow = self.tables.ratings[order[k]];
            let key: String = match self.tables.model_of_session(row.session_id) {
                Some(key) => key.clone(),
                None => String::new(),
            };
            out.push(
                EffectiveRating {
                    canonical_key: key,
                    performance_points: row.performance_points,
                    difficulty_points: row.difficulty_points,
                    rated_at: row.rated_at,
                },
            );
            k = k + 1;
        }
        out
    }
}

impl Tables {
    /// Whether a result is the rating at a position, aged.
    pub open spec fn is_aged_rating(self, r: AgedRating, i: int, now: i64) -> bool {
        &&& self.session_key(self.ratings@[i].session_id) == Some(r.canonical_key@)
        &&& r.performance_points == self.ratings@[i].performance_points
        &&& r.difficulty_points == self.ratings@[i].difficulty_points
        &&& r.age_seconds == age(now, self.ratings@[i].rated_at)
    }

    /// Whether a list is the ratings that count, oldest first, each with its age at `now`.
    pub open spec fn ages_ratings(self, list: Seq<AgedRating>, now: i64) -> bool {
        exists|order: Seq<int>| #[trigger]
            self.effective_order(order) && order.len() == list.len() && forall|k: int|
                0 <= k < list.len() ==> self.is_aged_rating(#[trigger] list[k], order[k], now)
    }
}

impl Store {
    /// The ratings that count, oldest first, each with its age at `now`.
    pub fn effective_ratings_aged(&self, now: i64) -> (r: Vec<AgedRating>)
        ensures
            self@.ages_ratings(r@, now),
    {
        let order: Vec<usize> = self.tables.effective_positions();
        let ghost places = tables::positions(order@);
        let mut out: Vec<AgedRating> = Vec::new();
        let mut k: usize = 0;
        while k < order.len()
            invariant
                k <= order@.len(),
                places == tables::positions(order@),
                self@.effective_order(places),
                out@.len() == k,
                forall|j: int|
                    0 <= j < k ==> self@.is_aged_rating(#[trigger] out@[j], places[j], now),
            decreases order@.len() - k,
        {
            proof {
                assert(places[k as int] == order@[k as int]);
            }
            let row: RatingRow = self.tables.ratings[order[k]];
            let key: String = match self.tables.model_of_session(row.session_id) {
                Some(key) => key.clone(),
                None => String::new(),
            };
            out.push(
                AgedRating {
                    canonical_key: key,
                    performance_points: row.performance_points,
                    difficulty_points: row.difficulty_points,
                    age_seconds: age_of(now, row.rated_at),
                },
            );
            k = k + 1;
        }
        out
    }
}

impl Tables {
    /// Whether the session end at a position is a failure of a known model.
    pub open spec fn fails(self, i: int) -> bool {
        self.session_end@[i].end.error_kind is Some && self.session_key(
            self.session_end@[i].session_id,
        ) is Some
    }

    /// Whether `order` lists the failures, oldest first.
    pub open spec fn failure_order(self, order: Seq<int>) -> bool {
        tables::is_listing(
            order,
            self.session_end@.map_values(|e: EndRow| e.ended_at as i128),
            Seq::new(self.session_end@.len(), |i: int| self.fails(i)),
        )
    }

    /// Whether a result is the failure at a position, aged.
    pub open spec fn is_aged_failure(self, f: AgedFailure, i: int, now: i64) -> bool {
        &&& self.session_key(self.session_end@[i].session_id) == Some(f.canonical_key@)
        &&& self.session_end@[i].end.error_kind == Some(f.error_kind)
        &&& f.age_seconds == age(now, self.session_end@[i].ended_at)
    }

    /// Whether a list is the failed sessions, oldest first, each with its age at `now`.
    pub open spec fn ages_failures(self, list: Seq<AgedFailure>, now: i64) -> bool {
        exists|order: Seq<int>| #[trigger]
            self.failure_order(order) && order.len() == list.len() && forall|k: int|
                0 <= k < list.len() ==> self.is_aged_failure(#[trigger] list[k], order[k], now)
    }
}

impl Store {
    /// The failed sessions, oldest first, each with its age at `now`. A crash is never rated, so
    /// this is how a failure is learned from.
    pub fn effective_failures_aged(&self, now: i64) -> (r: Vec<AgedFailure>)
        ensures
            self@.ages_failures(r@, now),
    {
        let mut keys: Vec<i128> = Vec::new();
        let mut keep: Vec<bool> = Vec::new();
        let mut i: usize = 0;
        while i < self.tables.session_end.len()
            invariant
                i <= self.tables.session_end@.len(),
                keys@.len() == i,
                keep@.len() == i,
                forall|k: int| 0 <= k < i ==> #[trigger] keys@[k] == self.tables.session_end@[k].ended_at,
                forall|k: int| 0 <= k < i ==> #[trigger] keep@[k] == self@.fails(k),
            decreases self.tables.session_end@.len() - i,
        {
            let row: EndRow = self.tables.session_end[i];
            keys.push(row.ended_at as i128);
            keep.push(
                row.end.error_kind.is_some() && self.tables.model_of_session(row.session_id).is_some(),
            );
            i = i + 1;
        }
        let order: Vec<usize> = tables::listing(&keys, &keep);
        let ghost places = tables::positions(order@);
        proof {
            assert(keys@ =~= self.tables.session_end@.map_values(|e: EndRow| e.ended_at as i128));
            assert(keep@ =~= Seq::new(self.tables.session_end@.len(), |i: int| self@.fails(i)));
        }
        let mut out: Vec<AgedFailure> = Vec::new();
        let mut k: usize = 0;
        while k < order.len()
            invariant
                k <= order@.len(),
                places == tables::positions(order@),
                self@.failure_order(places),
                out@.len() == k,
                forall|j: int|
                    0 <= j < k ==> self@.is_aged_failure(#[trigger] out@[j], places[j], now),
            decreases order@.len() - k,
        {
            proof {
                assert(places[k as int] == order@[k as int]);
            }
            let row: EndRow = self.tables.session_end[order[k]];
            let key: String = match self.tables.model_of_session(row.session_id) {
                Some(key) => key.clone(),
                None => String::new(),
            };
            let kind: ErrorKind = match row.end.error_kind {
                Some(kind) => kind,
                None => ErrorKind::Unknown,
            };
            out.push(
                AgedFailure {
                    canonical_key: key,
                    error_kind: kind,
                    age_seconds: age_of(now, row.ended_at),
                },
            );
            k = k + 1;
        }
        out
    }
}

impl Tables {
    /// Whether a row is a given reveal.
    pub open spec fn is_reveal(
        row: RevealRow,
        id: i64,
        alias: Seq<char>,
        session_id: Option<i64>,
        reason: RevealReason,
        now: i64,
    ) -> bool {
        row.id == id && row.alias@ == alias && row.session_id == session_id && row.reason == reason
            && row.revealed_at == now
    }
}

impl Store {
    /// Journals an unmasking; returns its id. A peek biases later ratings, so it stays visible.
    pub fn record_reveal(
        &mut self,
        alias: &str,
        session_id: Option<i64>,
        reason: RevealReason,
        now: i64,
    ) -> (r: Result<i64, StoreError>)
        ensures
            final(self)@.wf(),
            final(self)@.extends(old(self)@),
            match r {
                Ok(id) => {
                    &&& session_id matches Some(s) ==> old(self)@.session_at(s) is Some
                    &&& next_id(old(self)@.last_reveal_id()) == Some(id)
                    &&& final(self)@.reveals@.len() == old(self)@.reveals@.len() + 1
                    &&& Tables::is_reveal(
                        final(self)@.reveals@.last(),
                        id,
                        alias@,
                        session_id,
                        reason,
                        now,
                    )
                    &&& final(self)@ == (Tables { reveals: final(self)@.reveals, ..old(self)@ })
                },
                Err(StoreError::NoSuchSession) => (session_id matches Some(s) && old(
                    self,
                )@.session_at(s) is None) && final(self)@ == old(self)@,
                Err(e) => e == StoreError::OutOfIds && (session_id matches Some(s) ==> old(
                    self,
                )@.session_at(s) is Some) && next_id(old(self)@.last_reveal_id()) is None
                    && final(self)@ == old(self)@,
            },
    {
        proof {
            use_type_invariant(&*self);
            lemma_logs_begin(self@);
        }
        if let Some(s) = session_id {
            if self.tables.find_session(s).is_none() {
                return Err(StoreError::NoSuchSession);
            }
        }
        let n: usize = self.tables.reveals.len();
        let last: Option<i64> = if n == 0 {
            None
        } else {
            Some(self.tables.reveals[n - 1].id)
        };
        let id: i64 = match id_after(last) {
            Some(id) => id,
            None => {
                return Err(StoreError::OutOfIds);
            },
        };
        let mut tables: Tables = self.take();
        let row: RevealRow = RevealRow {
            id,
            alias: alias.to_owned(),
            session_id,
            reason,
            revealed_at: now,
        };
        proof {
            lemma_refers_added(tables.reveals@, row, reveal_session(), tables.sessions@);
        }
        tables.reveals.push(row);
        *self = Store { tables };
        Ok(id)
    }
}

impl Tables {
    /// Whether a row is a given session start.
    pub open spec fn is_session(
        row: SessionRow,
        id: i64,
        alias: Seq<char>,
        cli: Option<Seq<char>>,
        tuneables_json: Option<Seq<char>>,
        capture_level: CaptureLevel,
        now: i64,
    ) -> bool {
        &&& row.id == id
        &&& row.alias@ == alias
        &&& config::owned_text(row.cli) == cli
        &&& config::owned_text(row.tuneables_json) == tuneables_json
        &&& row.capture_level == capture_level
        &&& row.started_at == now
    }
}

impl Store {
    /// Opens a session under an alias; returns its id.
    pub fn record_session_start(
        &mut self,
        alias_display: &str,
        cli: Option<&str>,
        tuneables_json: Option<&str>,
        capture_level: CaptureLevel,
        now: i64,
    ) -> (r: Result<i64, StoreError>)
        ensures
            final(self)@.wf(),
            final(self)@.extends(old(self)@),
            match r {
                Ok(id) => {
                    &&& next_id(old(self)@.last_session_id()) == Some(id)
                    &&& final(self)@.sessions@.len() == old(self)@.sessions@.len() + 1
                    &&& Tables::is_session(
                        final(self)@.sessions@.last(),
                        id,
                        alias_display@,
                        config::text_of(cli),
                        config::text_of(tuneables_json),
                        capture_level,
                        now,
                    )
                    &&& final(self)@ == (Tables { sessions: final(self)@.sessions, ..old(self)@ })
                },
                Err(e) => e == StoreError::OutOfIds && next_id(old(self)@.last_session_id()) is None
                    && final(self)@ == old(self)@,
            },
    {
        proof {
            use_type_invariant(&*self);
            lemma_logs_begin(self@);
        }
        let n: usize = self.tables.sessions.len();
        let last: Option<i64> = if n == 0 {
            None
        } else {
            Some(self.tables.sessions[n - 1].id)
        };
        let id: i64 = match id_after(last) {
            Some(id) => id,
            None => {
                return Err(StoreError::OutOfIds);
            },
        };
        let row: SessionRow = SessionRow {
            id,
            alias: alias_display.to_owned(),
            cli: match cli {
                Some(t) => Some(t.to_owned()),
                None => None,
            },
            tuneables_json: match tuneables_json {
                Some(t) => Some(t.to_owned()),
                None => None,
            },
            capture_level,
            started_at: now,
        };
        let mut tables: Tables = self.take();
        proof {
            lemma_refers_kept(tables.session_end@, end_session(), tables.sessions@, row);
            lemma_refers_kept(tables.ratings@, rating_session(), tables.sessions@, row);
            lemma_refers_kept(tables.reveals@, reveal_session(), tables.sessions@, row);
        }
        tables.sessions.push(row);
        *self = Store { tables };
        Ok(id)
    }
}

impl Tables {
    /// The position of the row of a session's end.
    pub open spec fn end_at(self, id: i64) -> Option<int> {
        tables::first_where(self.session_end@, ending(id))
    }

    /// Whether a session has ended.
    pub open spec fn has_ended(self, id: i64) -> bool {
        exists|k: int|
            0 <= k < self.session_end@.len() && (#[trigger] self.session_end@[k]).session_id == id
    }

    /// The position of the row of a session's end.
    fn find_end(&self, id: i64) -> (r: Option<usize>)
        ensures
            match r {
                Some(i) => self.end_at(id) == Some(i as int) && i < self.session_end@.len(),
                None => self.end_at(id) is None,
            },
            r is Some <==> self.has_ended(id),
    {
        let ghost fits = ending(id);
        let mut i: usize = 0;
        while i < self.session_end.len()
            invariant
                i <= self.session_end@.len(),
                fits == ending(id),
                forall|k: int| 0 <= k < i ==> !fits(#[trigger] self.session_end@[k]),
            decreases self.session_end@.len() - i,
        {
            if self.session_end[i].session_id == id {
                proof {
                    tables::lemma_first_is(self.session_end@, fits, i as int);
                }
                return Some(i);
            }
            i = i + 1;
        }
        proof {
            tables::lemma_none_fits(self.session_end@, fits);
            assert forall|k: int| 0 <= k < self.session_end@.len() implies (
            #[trigger] self.session_end@[k]).session_id != id by {
                assert(!fits(self.session_end@[k]));
            }
        }
        None
    }
}

impl Store {
    /// Records how a session ended: once per session.
    pub fn record_session_end(&mut self, session_id: i64, end: &SessionEnd, now: i64) -> (r: Result<
        (),
        StoreError,
    >)
        ensures
            final(self)@.wf(),
            final(self)@.extends(old(self)@),
            match r {
                Ok(_) => {
                    &&& old(self)@.session_at(session_id) is Some
                    &&& !old(self)@.has_ended(session_id)
                    &&& final(self)@.session_end@ == old(self)@.session_end@.push(
                        EndRow { session_id, end: *end, ended_at: now },
                    )
                    &&& final(self)@ == (Tables {
                        session_end: final(self)@.session_end,
                        ..old(self)@
                    })
                },
                Err(StoreError::NoSuchSession) => old(self)@.session_at(session_id) is None
                    && final(self)@ == old(self)@,
                Err(e) => e == StoreError::AlreadyEnded && old(self)@.session_at(session_id) is Some
                    && old(self)@.has_ended(session_id) && final(self)@ == old(self)@,
            },
    {
        proof {
            use_type_invariant(&*self);
            lemma_logs_begin(self@);
        }
        if self.tables.find_session(session_id).is_none() {
            return Err(StoreError::NoSuchSession);
        }
        if self.tables.find_end(session_id).is_some() {
            return Err(StoreError::AlreadyEnded);
        }
        let mut tables: Tables = self.take();
        let row: EndRow = EndRow { session_id, end: *end, ended_at: now };
        proof {
            lemma_once_added(tables.session_end@, row, end_key());
            lemma_refers_added(tables.session_end@, row, end_session(), tables.sessions@);
        }
        tables.session_end.push(row);
        *self = Store { tables };
        proof {
            lemma_begins(old(self)@.session_end@);
        }
        Ok(())
    }
}

/// Whether two optional prices are the same number, or both are missing.
pub open spec fn same_price(a: Option<Double>, b: Option<Double>) -> bool {
    match (a, b) {
        (Some(x), Some(y)) => x.same(y),
        (None, None) => true,
        _ => false,
    }
}

/// Whether two optional prices are the same number, or both are missing.
fn equal_price(a: &Option<Double>, b: &Option<Double>) -> (r: bool)
    ensures
        r == same_price(*a, *b),
{
    match (a, b) {
        (Some(x), Some(y)) => x.equals(y),
        (None, None) => true,
        _ => false,
    }
}

/// The position of the latest price of a model at a provider: by time, and by position for equal
/// times.
pub open spec fn latest_at(
    rows: Seq<PriceRow>,
    canonical_key: Seq<char>,
    provider_slug: Seq<char>,
) -> Option<int>
    decreases rows.len(),
{
    if rows.len() == 0 {
        None
    } else {
        let before = latest_at(rows.drop_last(), canonical_key, provider_slug);
        let last = rows.last();
        if last.canonical_key@ == canonical_key && last.provider_slug@ == provider_slug && (
        before matches Some(b) ==> rows[b].observed_at <= last.observed_at) {
            Some(rows.len() - 1)
        } else {
            before
        }
    }
}

/// What the latest price is, said directly: it is of that model at that provider, and no other
/// price of the two is later.
pub proof fn lemma_latest_at(
    rows: Seq<PriceRow>,
    canonical_key: Seq<char>,
    provider_slug: Seq<char>,
)
    ensures
        match latest_at(rows, canonical_key, provider_slug) {
            Some(i) => 0 <= i < rows.len() && rows[i].canonical_key@ == canonical_key
                && rows[i].provider_slug@ == provider_slug && forall|k: int|
                0 <= k < rows.len() && (#[trigger] rows[k]).canonical_key@ == canonical_key
                    && rows[k].provider_slug@ == provider_slug ==> rows[k].observed_at
                    < rows[i].observed_at || (rows[k].observed_at == rows[i].observed_at && k
                    <= i),
            None => forall|k: int|
                0 <= k < rows.len() ==> (#[trigger] rows[k]).canonical_key@ != canonical_key
                    || rows[k].provider_slug@ != provider_slug,
        },
    decreases rows.len(),
{
    if rows.len() > 0 {
        let rest = rows.drop_last();
        lemma_latest_at(rest, canonical_key, provider_slug);
        assert forall|k: int| 0 <= k < rest.len() implies rest[k] == #[trigger] rows[k] by {}
        if let Some(b) = latest_at(rest, canonical_key, provider_slug) {
            assert(rest[b] == rows[b]);
        }
    }
}

impl Tables {
    /// The position of the row of a provider.
    pub open spec fn provider_at(self, slug: Seq<char>) -> Option<int> {
        tables::first_where(self.providers@, with_slug(slug))
    }

    /// The position of the row of a model at a provider.
    pub open spec fn model_at(self, canonical_key: Seq<char>, provider_slug: Seq<char>) -> Option<
        int,
    > {
        tables::first_where(self.catalog@, offering(canonical_key, provider_slug))
    }

    /// The position of the row of a provider.
    fn find_provider(&self, slug: &str) -> (r: Option<usize>)
        ensures
            match r {
                Some(i) => self.provider_at(slug@) == Some(i as int) && i < self.providers@.len()
                    && self.providers@[i as int].slug@ == slug@,
                None => self.provider_at(slug@) is None,
            },
    {
        let ghost fits = with_slug(slug@);
        let mut i: usize = 0;
        while i < self.providers.len()
            invariant
                i <= self.providers@.len(),
                fits == with_slug(slug@),
                forall|k: int| 0 <= k < i ==> !fits(#[trigger] self.providers@[k]),
            decreases self.providers@.len() - i,
        {
            if same_text(self.providers[i].slug.as_str(), slug) {
                proof {
                    tables::lemma_first_is(self.providers@, fits, i as int);
                }
                return Some(i);
            }
            i = i + 1;
        }
        proof {
            tables::lemma_none_fits(self.providers@, fits);
        }
        None
    }

    /// The position of the row of a model at a provider.
    pub fn find_model(&self, canonical_key: &str, provider_slug: &str) -> (r: Option<usize>)
        ensures
            match r {
                Some(i) => self.model_at(canonical_key@, provider_slug@) == Some(i as int) && i
                    < self.catalog@.len(),
                None => self.model_at(canonical_key@, provider_slug@) is None,
            },
    {
        let ghost fits = offering(canonical_key@, provider_slug@);
        let mut i: usize = 0;
        while i < self.catalog.len()
            invariant
                i <= self.catalog@.len(),
                fits == offering(canonical_key@, provider_slug@),
                forall|k: int| 0 <= k < i ==> !fits(#[trigger] self.catalog@[k]),
            decreases self.catalog@.len() - i,
        {
            if same_text(self.catalog[i].canonical_key.as_str(), canonical_key) && same_text(
                self.catalog[i].provider_slug.as_str(),
                provider_slug,
            ) {
                proof {
                    tables::lemma_first_is(self.catalog@, fits, i as int);
                }
                return Some(i);
            }
            i = i + 1;
        }
        proof {
            tables::lemma_none_fits(self.catalog@, fits);
        }
        None
    }

    /// Whether `next` is this store with a provider's routing facts set.
    pub open spec fn provider_set(
        self,
        next: Tables,
        slug: Seq<char>,
        base_url: Seq<char>,
        wire: Seq<char>,
    ) -> bool {
        let i = match self.provider_at(slug) {
            Some(i) => i,
            None => self.providers@.len() as int,
        };
        let row = next.providers@[i];
        &&& next == (Tables { providers: next.providers, ..self })
        &&& row.slug@ == slug && row.base_url@ == base_url && row.wire@ == wire
        &&& next.providers@ == (if self.provider_at(slug) is Some {
            self.providers@.update(i, row)
        } else {
            self.providers@.push(row)
        })
    }
}

impl Store {
    /// Inserts or refreshes a provider's routing facts.
    pub fn upsert_provider(&mut self, slug: &str, base_url: &str, wire: &str)
        ensures
            old(self)@.provider_set(final(self)@, slug@, base_url@, wire@),
            final(self)@.wf(),
            final(self)@.extends(old(self)@),
    {
        proof {
            use_type_invariant(&*self);
            lemma_logs_begin(self@);
        }
        let row: ProviderRow = ProviderRow {
            slug: slug.to_owned(),
            base_url: base_url.to_owned(),
            wire: wire.to_owned(),
        };
        let mut tables: Tables = self.take();
        proof {
            tables::lemma_first_where(tables.providers@, with_slug(slug@));
            match tables.provider_at(slug@) {
                Some(i) => lemma_once_set(tables.providers@, i, row, provider_key()),
                None => {
                    assert forall|k: int| 0 <= k < tables.providers@.len() implies provider_key()(
                        #[trigger] tables.providers@[k],
                    ) != provider_key()(row) by {
                        assert(!with_slug(slug@)(tables.providers@[k]));
                    }
                    lemma_once_added(tables.providers@, row, provider_key());
                },
            }
        }
        match tables.find_provider(slug) {
            Some(i) => tables.providers.set(i, row),
            None => tables.providers.push(row),
        }
        *self = Store { tables };
    }
}

impl Tables {
    /// Whether `next` is this store with a model's slug at a provider set.
    pub open spec fn model_set(
        self,
        next: Tables,
        canonical_key: Seq<char>,
        provider_slug: Seq<char>,
        real_slug: Seq<char>,
    ) -> bool {
        let i = match self.model_at(canonical_key, provider_slug) {
            Some(i) => i,
            None => self.catalog@.len() as int,
        };
        let row = next.catalog@[i];
        &&& next == (Tables { catalog: next.catalog, ..self })
        &&& row.canonical_key@ == canonical_key && row.provider_slug@ == provider_slug
            && row.real_slug@ == real_slug
        &&& next.catalog@ == (if self.model_at(canonical_key, provider_slug) is Some {
            self.catalog@.update(i, row)
        } else {
            self.catalog@.push(row)
        })
    }
}

impl Store {
    /// Inserts or refreshes a model's slug at a provider.
    pub fn upsert_model(&mut self, canonical_key: &str, provider_slug: &str, real_slug: &str)
        ensures
            old(self)@.model_set(final(self)@, canonical_key@, provider_slug@, real_slug@),
            final(self)@.wf(),
            final(self)@.extends(old(self)@),
    {
        proof {
            use_type_invariant(&*self);
            lemma_logs_begin(self@);
        }
        let row: CatalogRow = CatalogRow {
            canonical_key: canonical_key.to_owned(),
            provider_slug: provider_slug.to_owned(),
            real_slug: real_slug.to_owned(),
        };
        let mut tables: Tables = self.take();
        proof {
            let fits = offering(canonical_key@, provider_slug@);
            tables::lemma_first_where(tables.catalog@, fits);
            match tables.model_at(canonical_key@, provider_slug@) {
                Some(i) => lemma_once_set(tables.catalog@, i, row, offer_key()),
                None => {
                    assert forall|k: int| 0 <= k < tables.catalog@.len() implies offer_key()(
                        #[trigger] tables.catalog@[k],
                    ) != offer_key()(row) by {
                        assert(!fits(tables.catalog@[k]));
                    }
                    lemma_once_added(tables.catalog@, row, offer_key());
                },
            }
        }
        match tables.find_model(canonical_key, provider_slug) {
            Some(i) => tables.catalog.set(i, row),
            None => tables.catalog.push(row),
        }
        *self = Store { tables };
    }
}

impl Tables {
    /// The latest price of a model at a provider; a model that was never priced is unpriced.
    pub open spec fn price_of(self, canonical_key: Seq<char>, provider_slug: Seq<char>) -> (
        Option<Double>,
        Option<Double>,
    ) {
        match latest_at(self.price_history@, canonical_key, provider_slug) {
            Some(i) => (
                self.price_history@[i].input_per_mtok,
                self.price_history@[i].output_per_mtok,
            ),
            None => (None, None),
        }
    }
}

impl Store {
    /// The position of the latest price of a model at a provider.
    fn find_latest_price(&self, canonical_key: &str, provider_slug: &str) -> (r: Option<usize>)
        ensures
            match r {
                Some(i) => latest_at(self@.price_history@, canonical_key@, provider_slug@) == Some(
                    i as int,
                ) && i < self@.price_history@.len(),
                None => latest_at(self@.price_history@, canonical_key@, provider_slug@) is None,
            },
    {
        let ghost rows = self.tables.price_history@;
        let mut best: Option<usize> = None;
        let mut i: usize = 0;
        while i < self.tables.price_history.len()
            invariant
                rows == self.tables.price_history@,
                i <= rows.len(),
                match best {
                    Some(b) => b < i && latest_at(
                        rows.take(i as int),
                        canonical_key@,
                        provider_slug@,
                    ) == Some(b as int),
                    None => latest_at(rows.take(i as int), canonical_key@, provider_slug@) is None,
                },
            decreases rows.len() - i,
        {
            proof {
                assert(rows.take(i + 1).drop_last() =~= rows.take(i as int));
            }
            let row: &PriceRow = &self.tables.price_history[i];
            if same_text(row.canonical_key.as_str(), canonical_key) && same_text(
                row.provider_slug.as_str(),
                provider_slug,
            ) {
                let newer: bool = match best {
                    Some(b) => self.tables.price_history[b].observed_at <= row.observed_at,
                    None => true,
                };
                if newer {
                    best = Some(i);
                }
            }
            i = i + 1;
        }
        proof {
            assert(rows.take(i as int) =~= rows);
        }
        best
    }
}

impl Tables {
    /// Whether `next` is this store after a price was observed: with one more row where the price
    /// differs from the latest, else unchanged.
    pub open spec fn price_observed(
        self,
        next: Tables,
        canonical_key: Seq<char>,
        provider_slug: Seq<char>,
        input: Option<Double>,
        output: Option<Double>,
        now: i64,
    ) -> bool {
        let latest = self.price_of(canonical_key, provider_slug);
        if same_price(latest.0, input) && same_price(latest.1, output) {
            next == self
        } else {
            let row = next.price_history@.last();
            &&& next == (Tables { price_history: next.price_history, ..self })
            &&& next.price_history@ == self.price_history@.push(row)
            &&& row.canonical_key@ == canonical_key && row.provider_slug@ == provider_slug
            &&& row.input_per_mtok == input && row.output_per_mtok == output
            &&& row.observed_at == now
        }
    }
}

impl Store {
    /// Appends a price, where it differs from the latest. A model that was never priced counts as
    /// unpriced, so a free model leaves no row.
    pub fn record_price_if_changed(
        &mut self,
        canonical_key: &str,
        provider_slug: &str,
        input_per_mtok: Option<Double>,
        output_per_mtok: Option<Double>,
        now: i64,
    )
        ensures
            old(self)@.price_observed(
                final(self)@,
                canonical_key@,
                provider_slug@,
                input_per_mtok,
                output_per_mtok,
                now,
            ),
            final(self)@.wf(),
            final(self)@.extends(old(self)@),
    {
        proof {
            use_type_invariant(&*self);
            lemma_logs_begin(self@);
        }
        let (input, output): (Option<Double>, Option<Double>) = match self.find_latest_price(
            canonical_key,
            provider_slug,
        ) {
            Some(i) => (
                self.tables.price_history[i].input_per_mtok,
                self.tables.price_history[i].output_per_mtok,
            ),
            None => (None, None),
        };
        if equal_price(&input, &input_per_mtok) && equal_price(&output, &output_per_mtok) {
            return ;
        }
        let mut tables: Tables = self.take();
        tables.price_history.push(
            PriceRow {
                canonical_key: canonical_key.to_owned(),
                provider_slug: provider_slug.to_owned(),
                input_per_mtok,
                output_per_mtok,
                observed_at: now,
            },
        );
        *self = Store { tables };
        proof {
            lemma_begins(old(self)@.price_history@);
        }
    }
}

impl Tables {
    /// Whether the price at a position is the latest of its model at its provider.
    pub open spec fn is_latest(self, i: int) -> bool {
        latest_at(
            self.price_history@,
            self.price_history@[i].canonical_key@,
            self.price_history@[i].provider_slug@,
        ) == Some(i)
    }

    /// Whether a result is the price at a position.
    pub open spec fn is_price(self, p: PricePoint, i: int) -> bool {
        &&& p.canonical_key@ == self.price_history@[i].canonical_key@
        &&& p.provider_slug@ == self.price_history@[i].provider_slug@
        &&& p.input_per_mtok == self.price_history@[i].input_per_mtok
        &&& p.output_per_mtok == self.price_history@[i].output_per_mtok
    }

    /// Whether `order` lists the latest prices, in the order in which they were observed.
    pub open spec fn price_order(self, order: Seq<int>) -> bool {
        tables::is_listing(
            order,
            Seq::new(self.price_history@.len(), |i: int| 0i128),
            Seq::new(self.price_history@.len(), |i: int| self.is_latest(i)),
        )
    }

    /// Whether a list is the latest prices, one for each pair that was ever priced.
    pub open spec fn lists_prices(self, list: Seq<PricePoint>) -> bool {
        exists|order: Seq<int>| #[trigger]
            self.price_order(order) && order.len() == list.len() && forall|k: int|
                0 <= k < list.len() ==> self.is_price(#[trigger] list[k], order[k])
    }
}

impl Store {
    /// The latest price of every model at every provider: one for each pair that was ever priced.
    pub fn latest_prices(&self) -> (r: Vec<PricePoint>)
        ensures
            self@.lists_prices(r@),
    {
        let mut keys: Vec<i128> = Vec::new();
        let mut keep: Vec<bool> = Vec::new();
        let mut i: usize = 0;
        while i < self.tables.price_history.len()
            invariant
                i <= self.tables.price_history@.len(),
                keys@.len() == i,
                keep@.len() == i,
                forall|k: int| 0 <= k < i ==> #[trigger] keys@[k] == 0,
                forall|k: int| 0 <= k < i ==> #[trigger] keep@[k] == self@.is_latest(k),
            decreases self.tables.price_history@.len() - i,
        {
            keys.push(0);
            let row: &PriceRow = &self.tables.price_history[i];
            let latest: bool = match self.find_latest_price(
                row.canonical_key.as_str(),
                row.provider_slug.as_str(),
            ) {
                Some(k) => k == i,
                None => false,
            };
            keep.push(latest);
            i = i + 1;
        }
        let order: Vec<usize> = tables::listing(&keys, &keep);
        let ghost places = tables::positions(order@);
        proof {
            assert(keys@ =~= Seq::new(self.tables.price_history@.len(), |i: int| 0i128));
            assert(keep@ =~= Seq::new(self.tables.price_history@.len(), |i: int| self@.is_latest(i)));
        }
        let mut out: Vec<PricePoint> = Vec::new();
        let mut k: usize = 0;
        while k < order.len()
            invariant
                k <= order@.len(),
                places == tables::positions(order@),
                self@.price_order(places),
                out@.len() == k,
                forall|j: int| 0 <= j < k ==> self@.is_price(#[trigger] out@[j], places[j]),
            decreases order@.len() - k,
        {
            proof {
                assert(places[k as int] == order@[k as int]);
            }
            let row: &PriceRow = &self.tables.price_history[order[k]];
            out.push(
                PricePoint {
                    canonical_key: row.canonical_key.clone(),
                    provider_slug: row.provider_slug.clone(),
                    input_per_mtok: row.input_per_mtok,
                    output_per_mtok: row.output_per_mtok,
                },
            );
            k = k + 1;
        }
        out
    }
}

/// Observing an unchanged price twice appends nothing the second time, for prices that are numbers.
pub proof fn lemma_prices_append_on_change(
    before: Tables,
    after: Tables,
    again: Tables,
    canonical_key: Seq<char>,
    provider_slug: Seq<char>,
    input: Option<Double>,
    output: Option<Double>,
    now: i64,
    later: i64,
)
    requires
        before.price_observed(after, canonical_key, provider_slug, input, output, now),
        after.price_observed(again, canonical_key, provider_slug, input, output, later),
        input matches Some(x) ==> !x.nan(),
        output matches Some(x) ==> !x.nan(),
        forall|k: int|
            0 <= k < before.price_history@.len() ==> (
            #[trigger] before.price_history@[k]).observed_at <= now,
    ensures
        again == after,
        same_price(after.price_of(canonical_key, provider_slug).0, input),
        same_price(after.price_of(canonical_key, provider_slug).1, output),
{
    let latest = before.price_of(canonical_key, provider_slug);
    if !(same_price(latest.0, input) && same_price(latest.1, output)) {
        let rows = after.price_history@;
        assert(rows.drop_last() =~= before.price_history@);
        lemma_latest_at(before.price_history@, canonical_key, provider_slug);
    }
}

/// What a route says.
pub struct RouteView {
    pub canonical_key: Seq<char>,
    pub provider_slug: Seq<char>,
    pub real_slug: Seq<char>,
    pub base_url: Seq<char>,
    pub wire: Seq<char>,
}

impl Route {
    /// What the route says.
    pub open spec fn view(self) -> RouteView {
        RouteView {
            canonical_key: self.canonical_key@,
            provider_slug: self.provider_slug@,
            real_slug: self.real_slug@,
            base_url: self.base_url@,
            wire: self.wire@,
        }
    }
}

impl Tables {
    /// The position of the first alias of a model, under any provider.
    pub open spec fn model_alias_at(self, canonical_key: Seq<char>) -> Option<int> {
        tables::first_where(self.aliases@, masking_model(canonical_key))
    }

    /// The position of the first alias of a provider, for any model.
    pub open spec fn provider_alias_at(self, provider_slug: Seq<char>) -> Option<int> {
        tables::first_where(self.aliases@, masking_provider(provider_slug))
    }

    /// The position of the alias of a model at a provider.
    pub open spec fn pair_alias_at(
        self,
        canonical_key: Seq<char>,
        provider_slug: Seq<char>,
    ) -> Option<int> {
        tables::first_where(self.aliases@, masking(canonical_key, provider_slug))
    }
}

impl Store {
    /// The token of a model, shared by its aliases under every provider, if it has one.
    pub fn model_token_for(&self, canonical_key: &str) -> (r: Option<String>)
        ensures
            match r {
                Some(t) => self@.model_alias_at(canonical_key@) matches Some(i)
                    && self@.aliases@[i].alias.model_token@ == t@,
                None => self@.model_alias_at(canonical_key@) is None,
            },
    {
        let ghost fits = masking_model(canonical_key@);
        let mut i: usize = 0;
        while i < self.tables.aliases.len()
            invariant
                i <= self.tables.aliases@.len(),
                fits == masking_model(canonical_key@),
                forall|k: int| 0 <= k < i ==> !fits(#[trigger] self.tables.aliases@[k]),
            decreases self.tables.aliases@.len() - i,
        {
            if same_text(self.tables.aliases[i].canonical_key.as_str(), canonical_key) {
                proof {
                    tables::lemma_first_is(self.tables.aliases@, fits, i as int);
                }
                return Some(self.tables.aliases[i].alias.model_token.clone());
            }
            i = i + 1;
        }
        proof {
            tables::lemma_none_fits(self.tables.aliases@, fits);
        }
        None
    }

    /// The token of a provider, shared by the aliases of all its models, if it has one.
    pub fn provider_token_for(&self, provider_slug: &str) -> (r: Option<String>)
        ensures
            match r {
                Some(t) => self@.provider_alias_at(provider_slug@) matches Some(i)
                    && self@.aliases@[i].alias.provider_token@ == t@,
                None => self@.provider_alias_at(provider_slug@) is None,
            },
    {
        let ghost fits = masking_provider(provider_slug@);
        let mut i: usize = 0;
        while i < self.tables.aliases.len()
            invariant
                i <= self.tables.aliases@.len(),
                fits == masking_provider(provider_slug@),
                forall|k: int| 0 <= k < i ==> !fits(#[trigger] self.tables.aliases@[k]),
            decreases self.tables.aliases@.len() - i,
        {
            if same_text(self.tables.aliases[i].provider_slug.as_str(), provider_slug) {
                proof {
                    tables::lemma_first_is(self.tables.aliases@, fits, i as int);
                }
                return Some(self.tables.aliases[i].alias.provider_token.clone());
            }
            i = i + 1;
        }
        proof {
            tables::lemma_none_fits(self.tables.aliases@, fits);
        }
        None
    }

    /// The alias of a model at a provider, if it has been minted.
    pub fn alias_for(&self, canonical_key: &str, provider_slug: &str) -> (r: Option<Alias>)
        ensures
            match r {
                Some(a) => self@.pair_alias_at(canonical_key@, provider_slug@) matches Some(i)
                    && self@.aliases@[i].alias.provider_token@ == a.provider_token@
                    && self@.aliases@[i].alias.model_token@ == a.model_token@,
                None => self@.pair_alias_at(canonical_key@, provider_slug@) is None,
            },
    {
        let ghost fits = masking(canonical_key@, provider_slug@);
        let mut i: usize = 0;
        while i < self.tables.aliases.len()
            invariant
                i <= self.tables.aliases@.len(),
                fits == masking(canonical_key@, provider_slug@),
                forall|k: int| 0 <= k < i ==> !fits(#[trigger] self.tables.aliases@[k]),
            decreases self.tables.aliases@.len() - i,
        {
            if same_text(self.tables.aliases[i].canonical_key.as_str(), canonical_key) && same_text(
                self.tables.aliases[i].provider_slug.as_str(),
                provider_slug,
            ) {
                proof {
                    tables::lemma_first_is(self.tables.aliases@, fits, i as int);
                }
                return Some(self.tables.aliases[i].alias.duplicate());
            }
            i = i + 1;
        }
        proof {
            tables::lemma_none_fits(self.tables.aliases@, fits);
        }
        None
    }
}

impl Tables {
    /// Whether `next` is this store with one more alias.
    pub open spec fn alias_added(
        self,
        next: Tables,
        provider_token: Seq<char>,
        model_token: Seq<char>,
        canonical_key: Seq<char>,
        provider_slug: Seq<char>,
    ) -> bool {
        let row = next.aliases@.last();
        &&& next == (Tables { aliases: next.aliases, ..self })
        &&& next.aliases@ == self.aliases@.push(row)
        &&& row.alias.provider_token@ == provider_token && row.alias.model_token@ == model_token
        &&& row.canonical_key@ == canonical_key && row.provider_slug@ == provider_slug
    }
}

impl Store {
    /// Keeps a freshly minted alias. An alias that is shown like one in use is refused.
    pub fn insert_alias(&mut self, alias: &Alias, canonical_key: &str, provider_slug: &str) -> (r:
        Result<(), StoreError>)
        ensures
            final(self)@.wf(),
            final(self)@.extends(old(self)@),
            match r {
                Ok(_) => old(self)@.alias_at(alias.name()) is None && old(self)@.alias_added(
                    final(self)@,
                    alias.provider_token@,
                    alias.model_token@,
                    canonical_key@,
                    provider_slug@,
                ),
                Err(e) => e == StoreError::AliasTaken && old(self)@.alias_at(alias.name()) is Some
                    && final(self)@ == old(self)@,
            },
    {
        proof {
            use_type_invariant(&*self);
            lemma_logs_begin(self@);
        }
        if self.tables.find_alias(alias.display().as_str()).is_some() {
            return Err(StoreError::AliasTaken);
        }
        let row: AliasRow = AliasRow {
            alias: alias.duplicate(),
            canonical_key: canonical_key.to_owned(),
            provider_slug: provider_slug.to_owned(),
        };
        let mut tables: Tables = self.take();
        proof {
            let fits = shown_as(alias.name());
            tables::lemma_first_where(tables.aliases@, fits);
            assert forall|k: int| 0 <= k < tables.aliases@.len() implies alias_key()(
                #[trigger] tables.aliases@[k],
            ) != alias_key()(row) by {
                assert(!fits(tables.aliases@[k]));
            }
            lemma_once_added(tables.aliases@, row, alias_key());
        }
        tables.aliases.push(row);
        *self = Store { tables };
        proof {
            lemma_begins(old(self)@.aliases@);
        }
        Ok(())
    }
}

impl Tables {
    /// The routing target of an alias, by its shown form: nothing where the alias, its model or its
    /// provider is not known.
    pub open spec fn route_of(self, display: Seq<char>) -> Option<RouteView> {
        match self.alias_at(display) {
            Some(a) => {
                let row = self.aliases@[a];
                match (
                    self.model_at(row.canonical_key@, row.provider_slug@),
                    self.provider_at(row.provider_slug@),
                ) {
                    (Some(c), Some(p)) => Some(
                        RouteView {
                            canonical_key: row.canonical_key@,
                            provider_slug: row.provider_slug@,
                            real_slug: self.catalog@[c].real_slug@,
                            base_url: self.providers@[p].base_url@,
                            wire: self.providers@[p].wire@,
                        },
                    ),
                    _ => None,
                }
            },
            None => None,
        }
    }
}

impl Store {
    /// Resolves an alias to its routing target: the crossing from the blind identity to the real
    /// one, which belongs behind the reveal gate.
    pub fn resolve_route(&self, alias_display: &str) -> (r: Option<Route>)
        ensures
            match r {
                Some(t) => self@.route_of(alias_display@) == Some(t@),
                None => self@.route_of(alias_display@) is None,
            },
    {
        let a: usize = match self.tables.find_alias(alias_display) {
            Some(a) => a,
            None => {
                return None;
            },
        };
        let row: &AliasRow = &self.tables.aliases[a];
        match (
            self.tables.find_model(row.canonical_key.as_str(), row.provider_slug.as_str()),
            self.tables.find_provider(row.provider_slug.as_str()),
        ) {
            (Some(c), Some(p)) => Some(
                Route {
                    canonical_key: row.canonical_key.clone(),
                    provider_slug: row.provider_slug.clone(),
                    real_slug: self.tables.catalog[c].real_slug.clone(),
                    base_url: self.tables.providers[p].base_url.clone(),
                    wire: self.tables.providers[p].wire.clone(),
                },
            ),
            _ => None,
        }
    }
}

/// Looking for an alias as it is shown finds its row and no other.
pub proof fn lemma_alias_is_found(s: Tables, a: int)
    requires
        s.wf(),
        0 <= a < s.aliases@.len(),
    ensures
        s.alias_at(s.aliases@[a].alias.name()) == Some(a),
{
    reveal(once);
    let fits = shown_as(s.aliases@[a].alias.name());
    assert forall|k: int| 0 <= k < a implies !fits(#[trigger] s.aliases@[k]) by {
        assert(alias_key()(s.aliases@[k]) != alias_key()(s.aliases@[a]));
    }
    tables::lemma_first_is(s.aliases@, fits, a);
}

/// Observing a price does not touch the price of another model or provider.
pub proof fn lemma_price_keeps_others(
    s: Tables,
    next: Tables,
    canonical_key: Seq<char>,
    provider_slug: Seq<char>,
    input: Option<Double>,
    output: Option<Double>,
    now: i64,
    other_key: Seq<char>,
    other_slug: Seq<char>,
)
    requires
        s.price_observed(next, canonical_key, provider_slug, input, output, now),
        other_key != canonical_key || other_slug != provider_slug,
    ensures
        next.price_of(other_key, other_slug) == s.price_of(other_key, other_slug),
{
    let latest = s.price_of(canonical_key, provider_slug);
    if !(same_price(latest.0, input) && same_price(latest.1, output)) {
        assert(next.price_history@.drop_last() =~= s.price_history@);
        lemma_latest_at(s.price_history@, other_key, other_slug);
    }
}

/// What is seeded resolves: once a provider, a model at it and their alias are in, the alias leads
/// to exactly that provider and that model.
pub proof fn lemma_seeded_alias_resolves(
    s0: Tables,
    s1: Tables,
    s2: Tables,
    s3: Tables,
    slug: Seq<char>,
    base_url: Seq<char>,
    wire: Seq<char>,
    canonical_key: Seq<char>,
    real_slug: Seq<char>,
    provider_token: Seq<char>,
    model_token: Seq<char>,
)
    requires
        s0.provider_set(s1, slug, base_url, wire),
        s1.model_set(s2, canonical_key, slug, real_slug),
        s2.alias_at(crate::alias::shown(provider_token, model_token)) is None,
        s2.alias_added(s3, provider_token, model_token, canonical_key, slug),
    ensures
        s3.route_of(crate::alias::shown(provider_token, model_token)) == Some(
            RouteView { canonical_key, provider_slug: slug, real_slug, base_url, wire },
        ),
{
    let display = crate::alias::shown(provider_token, model_token);
    tables::lemma_first_stays(s2.aliases@, s3.aliases@.last(), shown_as(display));
    let p = match s0.provider_at(slug) {
        Some(i) => i,
        None => s0.providers@.len() as int,
    };
    tables::lemma_set_row_is_found(s0.providers@, s1.providers@, s1.providers@[p], with_slug(slug));
    let c = match s1.model_at(canonical_key, slug) {
        Some(i) => i,
        None => s1.catalog@.len() as int,
    };
    tables::lemma_set_row_is_found(
        s1.catalog@,
        s2.catalog@,
        s2.catalog@[c],
        offering(canonical_key, slug),
    );
}

/// A route is what the rows say: the alias's model and provider, the model's slug there, and the
/// provider's address and wire format.
pub proof fn lemma_route_is_what_the_rows_say(s: Tables, a: int, c: int, p: int)
    requires
        s.wf(),
        0 <= a < s.aliases@.len(),
        0 <= c < s.catalog@.len(),
        0 <= p < s.providers@.len(),
        s.catalog@[c].canonical_key@ == s.aliases@[a].canonical_key@,
        s.catalog@[c].provider_slug@ == s.aliases@[a].provider_slug@,
        s.providers@[p].slug@ == s.aliases@[a].provider_slug@,
    ensures
        s.route_of(s.aliases@[a].alias.name()) == Some(
            RouteView {
                canonical_key: s.aliases@[a].canonical_key@,
                provider_slug: s.aliases@[a].provider_slug@,
                real_slug: s.catalog@[c].real_slug@,
                base_url: s.providers@[p].base_url@,
                wire: s.providers@[p].wire@,
            },
        ),
{
    lemma_alias_is_found(s, a);
    reveal(once);
    let key = s.aliases@[a].canonical_key@;
    let slug = s.aliases@[a].provider_slug@;
    assert forall|k: int| 0 <= k < c implies !offering(key, slug)(#[trigger] s.catalog@[k]) by {
        assert(offer_key()(s.catalog@[k]) != offer_key()(s.catalog@[c]));
    }
    tables::lemma_first_is(s.catalog@, offering(key, slug), c);
    assert forall|k: int| 0 <= k < p implies !with_slug(slug)(#[trigger] s.providers@[k]) by {
        assert(provider_key()(s.providers@[k]) != provider_key()(s.providers@[p]));
    }
    tables::lemma_first_is(s.providers@, with_slug(slug), p);
}

/// There is no route without the alias, nor without its model's row, nor without its provider's.
pub proof fn lemma_no_route_without_the_rows(s: Tables, display: Seq<char>, a: int)
    requires
        s.wf(),
    ensures
        (forall|k: int| 0 <= k < s.aliases@.len() ==> (#[trigger] s.aliases@[k]).alias.name()
            != display) ==> s.route_of(display) is None,
        0 <= a < s.aliases@.len() && s.aliases@[a].alias.name() == display && (forall|k: int|
            0 <= k < s.catalog@.len() ==> (#[trigger] s.catalog@[k]).canonical_key@
                != s.aliases@[a].canonical_key@ || s.catalog@[k].provider_slug@
                != s.aliases@[a].provider_slug@) ==> s.route_of(display) is None,
        0 <= a < s.aliases@.len() && s.aliases@[a].alias.name() == display && (forall|k: int|
            0 <= k < s.providers@.len() ==> (#[trigger] s.providers@[k]).slug@
                != s.aliases@[a].provider_slug@) ==> s.route_of(display) is None,
{
    tables::lemma_first_where(s.aliases@, shown_as(display));
    if 0 <= a < s.aliases@.len() && s.aliases@[a].alias.name() == display {
        lemma_alias_is_found(s, a);
        let key = s.aliases@[a].canonical_key@;
        let slug = s.aliases@[a].provider_slug@;
        tables::lemma_first_where(s.catalog@, offering(key, slug));
        tables::lemma_first_where(s.providers@, with_slug(slug));
    }
}

/// The price of a model at a provider is that of its newest row, the last of equally new ones; a
/// model without rows has none.
pub proof fn lemma_price_is_the_newest(
    s: Tables,
    canonical_key: Seq<char>,
    provider_slug: Seq<char>,
    i: int,
)
    requires
        0 <= i < s.price_history@.len() ==> s.price_history@[i].canonical_key@ == canonical_key
            && s.price_history@[i].provider_slug@ == provider_slug,
        forall|k: int|
            0 <= k < s.price_history@.len() && k != i && (
            #[trigger] s.price_history@[k]).canonical_key@ == canonical_key
                && s.price_history@[k].provider_slug@ == provider_slug ==> 0 <= i
                < s.price_history@.len() && (s.price_history@[k].observed_at
                < s.price_history@[i].observed_at || (s.price_history@[k].observed_at
                == s.price_history@[i].observed_at && k < i)),
    ensures
        0 <= i < s.price_history@.len() ==> s.price_of(canonical_key, provider_slug) == (
            s.price_history@[i].input_per_mtok,
            s.price_history@[i].output_per_mtok,
        ),
        !(0 <= i < s.price_history@.len()) ==> s.price_of(canonical_key, provider_slug) == (
            None::<Double>,
            None::<Double>,
        ),
{
    lemma_latest_at(s.price_history@, canonical_key, provider_slug);
}

/// A rating is taken exactly where its points are on their scales, its session is there, and so is
/// the rating that it corrects if it corrects one.
pub proof fn lemma_ratings_that_are_taken(
    s: Tables,
    session_id: i64,
    performance: i64,
    difficulty: i64,
    supersedes: Option<i64>,
)
    requires
        s.ratings@.len() > 0 ==> s.ratings@.last().id < i64::MAX,
    ensures
        s.rating_refusal(session_id, performance, difficulty, supersedes) is None <==> -2
            <= performance <= 2 && 0 <= difficulty <= 4 && (exists|k: int|
            0 <= k < s.sessions@.len() && (#[trigger] s.sessions@[k]).id == session_id) && (
        supersedes matches Some(old) ==> exists|k: int|
            0 <= k < s.ratings@.len() && (#[trigger] s.ratings@[k]).id == old),
{
    tables::lemma_first_where(s.sessions@, with_id(session_id));
    if let Some(k) = s.session_at(session_id) {
        assert(s.sessions@[k].id == session_id);
    }
}

/// Setting a provider changes that provider alone: it is found as set, every other is found as it
/// was, and at most one row is new.
pub proof fn lemma_provider_is_set_alone(
    s: Tables,
    next: Tables,
    slug: Seq<char>,
    base_url: Seq<char>,
    wire: Seq<char>,
    other: Seq<char>,
)
    requires
        s.provider_set(next, slug, base_url, wire),
        other != slug,
    ensures
        next.provider_at(slug) matches Some(i) && 0 <= i < next.providers@.len()
            && next.providers@[i].base_url@ == base_url && next.providers@[i].wire@ == wire,
        next.provider_at(other) == s.provider_at(other),
        s.provider_at(other) matches Some(k) ==> next.providers@[k] == s.providers@[k],
        s.provider_at(slug) is Some ==> next.providers@.len() == s.providers@.len(),
        s.provider_at(slug) is None ==> next.providers@.len() == s.providers@.len() + 1,
        next.catalog == s.catalog && next.aliases == s.aliases && next.sessions == s.sessions
            && next.price_history == s.price_history && next.session_end == s.session_end
            && next.ratings == s.ratings && next.reveals == s.reveals,
{
    let p = match s.provider_at(slug) {
        Some(i) => i,
        None => s.providers@.len() as int,
    };
    tables::lemma_first_where(s.providers@, with_slug(slug));
    let row = next.providers@[p];
    tables::lemma_set_row_is_found(s.providers@, next.providers@, row, with_slug(slug));
    tables::lemma_first_where(next.providers@, with_slug(slug));
    tables::lemma_set_row_keeps(
        s.providers@,
        next.providers@,
        row,
        with_slug(slug),
        with_slug(other),
    );
}

/// Setting a model's slug at a provider changes that one alone: it is found as set, and every other
/// is found as it was.
pub proof fn lemma_model_is_set_alone(
    s: Tables,
    next: Tables,
    canonical_key: Seq<char>,
    provider_slug: Seq<char>,
    real_slug: Seq<char>,
    other_key: Seq<char>,
    other_slug: Seq<char>,
)
    requires
        s.model_set(next, canonical_key, provider_slug, real_slug),
        other_key != canonical_key || other_slug != provider_slug,
    ensures
        next.model_at(canonical_key, provider_slug) matches Some(i) && 0 <= i < next.catalog@.len()
            && next.catalog@[i].real_slug@ == real_slug,
        next.model_at(other_key, other_slug) == s.model_at(other_key, other_slug),
        s.model_at(other_key, other_slug) matches Some(k) ==> next.catalog@[k] == s.catalog@[k],
        next.providers == s.providers && next.aliases == s.aliases && next.sessions == s.sessions
            && next.price_history == s.price_history && next.session_end == s.session_end
            && next.ratings == s.ratings && next.reveals == s.reveals,
{
    let c = match s.model_at(canonical_key, provider_slug) {
        Some(i) => i,
        None => s.catalog@.len() as int,
    };
    let fits = offering(canonical_key, provider_slug);
    tables::lemma_first_where(s.catalog@, fits);
    let row = next.catalog@[c];
    tables::lemma_set_row_is_found(s.catalog@, next.catalog@, row, fits);
    tables::lemma_first_where(next.catalog@, fits);
    tables::lemma_set_row_keeps(
        s.catalog@,
        next.catalog@,
        row,
        fits,
        offering(other_key, other_slug),
    );
}

/// Observing a price that is not the newest one's adds a row that holds it; the rows before it stay.
pub proof fn lemma_price_is_added(
    s: Tables,
    next: Tables,
    canonical_key: Seq<char>,
    provider_slug: Seq<char>,
    input: Option<Double>,
    output: Option<Double>,
    now: i64,
)
    requires
        s.price_observed(next, canonical_key, provider_slug, input, output, now),
    ensures
        begins(next.price_history@, s.price_history@),
        next.price_history@.len() <= s.price_history@.len() + 1,
        next.price_history@.len() > s.price_history@.len() ==> {
            let row = next.price_history@[s.price_history@.len() as int];
            &&& row.canonical_key@ == canonical_key && row.provider_slug@ == provider_slug
            &&& row.input_per_mtok == input && row.output_per_mtok == output
            &&& row.observed_at == now
        },
        next.price_history@.len() == s.price_history@.len() ==> same_price(
            s.price_of(canonical_key, provider_slug).0,
            input,
        ) && same_price(s.price_of(canonical_key, provider_slug).1, output),
        same_price(s.price_of(canonical_key, provider_slug).0, input) && same_price(
            s.price_of(canonical_key, provider_slug).1,
            output,
        ) ==> next == s,
{
    assert(next.price_history@.take(s.price_history@.len() as int) =~= s.price_history@);
}

/// Prices are the same where both are missing or both are the same number; a price that is not a
/// number is like no other.
pub proof fn lemma_prices_compare_by_value(a: Double, b: Double)
    ensures
        same_price(None, None),
        !same_price(Some(a), None) && !same_price(None, Some(a)),
        !a.nan() && !b.nan() ==> (same_price(Some(a), Some(b)) <==> a.value() == b.value()),
        a.nan() || b.nan() ==> !same_price(Some(a), Some(b)),
{
    crate::double::lemma_rank_orders(a, b);
    crate::double::lemma_rank_orders(b, a);
}

/// Ids count up from one.
pub proof fn lemma_ids_count_up(id: i64)
    ensures
        next_id(None) == Some(1i64),
        id < i64::MAX ==> next_id(Some(id)) == Some((id + 1) as i64),
        next_id(Some(i64::MAX)) is None,
{
}

/// Of all that keeps a rating from being taken, the first is answered: the performance, then the
/// difficulty, then the session, then the rating that it corrects.
pub proof fn lemma_ratings_refused_in_order(
    s: Tables,
    session_id: i64,
    performance: i64,
    difficulty: i64,
    supersedes: Option<i64>,
)
    ensures
        ({
            let refusal = s.rating_refusal(session_id, performance, difficulty, supersedes);
            let known = exists|k: int|
                0 <= k < s.sessions@.len() && (#[trigger] s.sessions@[k]).id == session_id;
            let corrects = supersedes matches Some(old) ==> exists|k: int|
                0 <= k < s.ratings@.len() && (#[trigger] s.ratings@[k]).id == old;
            let good = -2 <= performance <= 2;
            let fair = 0 <= difficulty <= 4;
            &&& !good <==> refusal == Some(StoreError::PerformanceRange)
            &&& good && !fair <==> refusal == Some(StoreError::DifficultyRange)
            &&& good && fair && !known <==> refusal == Some(StoreError::NoSuchSession)
            &&& good && fair && known && !corrects <==> refusal == Some(StoreError::NoSuchRating)
        }),
{
    tables::lemma_first_where(s.sessions@, with_id(session_id));
    if let Some(k) = s.session_at(session_id) {
        assert(s.sessions@[k].id == session_id);
    }
}

/// A rating that is taken is added behind all others as it was given, and nothing else changes.
pub proof fn lemma_rating_is_added_as_given(s: Tables, next: Tables, row: RatingRow)
    requires
        s.rated(next, row),
    ensures
        next.ratings@.len() == s.ratings@.len() + 1,
        next.ratings@[s.ratings@.len() as int] == row,
        next.ratings@.take(s.ratings@.len() as int) == s.ratings@,
        next.sessions == s.sessions && next.session_end == s.session_end && next.aliases
            == s.aliases && next.catalog == s.catalog && next.providers == s.providers
            && next.price_history == s.price_history && next.reveals == s.reveals,
{
    assert(next.ratings@.take(s.ratings@.len() as int) =~= s.ratings@);
}

/// A row is found by what it says: the alias by how it is shown, a session and its end by the id, a
/// provider by its slug, a model at a provider by both, and an alias also by its model, its provider
/// or both. Where nothing is found, no row says so.
pub proof fn lemma_rows_are_found_by_what_they_say(
    s: Tables,
    display: Seq<char>,
    id: i64,
    key: Seq<char>,
    slug: Seq<char>,
)
    ensures
        match s.alias_at(display) {
            Some(i) => 0 <= i < s.aliases@.len() && s.aliases@[i].alias.name() == display,
            None => forall|k: int|
                0 <= k < s.aliases@.len() ==> (#[trigger] s.aliases@[k]).alias.name() != display,
        },
        match s.session_at(id) {
            Some(i) => 0 <= i < s.sessions@.len() && s.sessions@[i].id == id,
            None => forall|k: int| 0 <= k < s.sessions@.len() ==> (#[trigger] s.sessions@[k]).id != id,
        },
        match s.end_at(id) {
            Some(i) => 0 <= i < s.session_end@.len() && s.session_end@[i].session_id == id,
            None => forall|k: int|
                0 <= k < s.session_end@.len() ==> (#[trigger] s.session_end@[k]).session_id != id,
        },
        match s.provider_at(slug) {
            Some(i) => 0 <= i < s.providers@.len() && s.providers@[i].slug@ == slug,
            None => forall|k: int|
                0 <= k < s.providers@.len() ==> (#[trigger] s.providers@[k]).slug@ != slug,
        },
        match s.model_at(key, slug) {
            Some(i) => 0 <= i < s.catalog@.len() && s.catalog@[i].canonical_key@ == key
                && s.catalog@[i].provider_slug@ == slug,
            None => forall|k: int|
                0 <= k < s.catalog@.len() ==> (#[trigger] s.catalog@[k]).canonical_key@ != key
                    || s.catalog@[k].provider_slug@ != slug,
        },
        match s.model_alias_at(key) {
            Some(i) => 0 <= i < s.aliases@.len() && s.aliases@[i].canonical_key@ == key,
            None => forall|k: int|
                0 <= k < s.aliases@.len() ==> (#[trigger] s.aliases@[k]).canonical_key@ != key,
        },
        match s.provider_alias_at(slug) {
            Some(i) => 0 <= i < s.aliases@.len() && s.aliases@[i].provider_slug@ == slug,
            None => forall|k: int|
                0 <= k < s.aliases@.len() ==> (#[trigger] s.aliases@[k]).provider_slug@ != slug,
        },
        match s.pair_alias_at(key, slug) {
            Some(i) => 0 <= i < s.aliases@.len() && s.aliases@[i].canonical_key@ == key
                && s.aliases@[i].provider_slug@ == slug,
            None => forall|k: int|
                0 <= k < s.aliases@.len() ==> (#[trigger] s.aliases@[k]).canonical_key@ != key
                    || s.aliases@[k].provider_slug@ != slug,
        },
{
    tables::lemma_first_where(s.aliases@, shown_as(display));
    tables::lemma_first_where(s.sessions@, with_id(id));
    tables::lemma_first_where(s.session_end@, ending(id));
    tables::lemma_first_where(s.providers@, with_slug(slug));
    tables::lemma_first_where(s.catalog@, offering(key, slug));
    tables::lemma_first_where(s.aliases@, masking_model(key));
    tables::lemma_first_where(s.aliases@, masking_provider(slug));
    tables::lemma_first_where(s.aliases@, masking(key, slug));
}

/// A store that extends another has every row of its logs where it stood.
pub proof fn lemma_rows_stay_where_they_stood(new: Tables, old_tables: Tables, i: int)
    requires
        new.extends(old_tables),
        0 <= i,
    ensures
        i < old_tables.price_history@.len() ==> i < new.price_history@.len()
            && new.price_history@[i] == old_tables.price_history@[i],
        i < old_tables.aliases@.len() ==> i < new.aliases@.len() && new.aliases@[i]
            == old_tables.aliases@[i],
        i < old_tables.sessions@.len() ==> i < new.sessions@.len() && new.sessions@[i]
            == old_tables.sessions@[i],
        i < old_tables.session_end@.len() ==> i < new.session_end@.len() && new.session_end@[i]
            == old_tables.session_end@[i],
        i < old_tables.ratings@.len() ==> i < new.ratings@.len() && new.ratings@[i]
            == old_tables.ratings@[i],
        i < old_tables.reveals@.len() ==> i < new.reveals@.len() && new.reveals@[i]
            == old_tables.reveals@[i],
{
    lemma_row_stays(new.price_history@, old_tables.price_history@, i);
    lemma_row_stays(new.aliases@, old_tables.aliases@, i);
    lemma_row_stays(new.sessions@, old_tables.sessions@, i);
    lemma_row_stays(new.session_end@, old_tables.session_end@, i);
    lemma_row_stays(new.ratings@, old_tables.ratings@, i);
    lemma_row_stays(new.reveals@, old_tables.reveals@, i);
}

/// A log that begins with another has its rows.
proof fn lemma_row_stays<T>(new: Seq<T>, before: Seq<T>, i: int)
    requires
        begins(new, before),
        0 <= i,
    ensures
        i < before.len() ==> i < new.len() && new[i] == before[i],
{
    if i < before.len() {
        assert(new.take(before.len() as int)[i] == new[i]);
    }
}

} // verus!
