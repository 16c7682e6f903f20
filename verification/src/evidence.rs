//! What the tables say of a model, row by row. The laws here tie what the selector and the
//! leaderboard are given to the recorded rows themselves.

use vstd::prelude::*;

use crate::backend::ErrorKind;
use crate::config::Config;
use crate::pool;
use crate::pool::PoolEntry;
use crate::selector;
use crate::selector::{Failure, Rating};
use crate::stats;
use crate::stats::{ModelAggregate, PricePair, RowBasis};
use crate::store;
use crate::store::{AgedFailure, AgedRating, EndRow, PricePoint, RatingRow, SessionRow, Tables};
use crate::tables;
use crate::text;

verus! {

/// Whether a session ran on a model: under an alias of that model.
pub open spec fn session_ran_on(s: Tables, session: SessionRow, key: Seq<char>) -> bool {
    exists|a: int|
        0 <= a < s.aliases@.len() && (#[trigger] s.aliases@[a]).canonical_key@ == key
            && session.alias@ == s.aliases@[a].alias.provider_token@ + seq![':']
            + s.aliases@[a].alias.model_token@
}

/// Whether the session of an id ran on a model.
pub open spec fn ran_on(s: Tables, id: i64, key: Seq<char>) -> bool {
    exists|j: int|
        0 <= j < s.sessions@.len() && (#[trigger] s.sessions@[j]).id == id && session_ran_on(
            s,
            s.sessions@[j],
            key,
        )
}

/// Whether no rating corrects this one.
pub open spec fn stands(s: Tables, row: RatingRow) -> bool {
    forall|k: int|
        0 <= k < s.ratings@.len() ==> (#[trigger] s.ratings@[k]).supersedes != Some(row.id)
}

/// Whether a rating is one of a model, and no other corrects it.
pub open spec fn stands_for(s: Tables, row: RatingRow, key: Seq<char>) -> bool {
    stands(s, row) && ran_on(s, row.session_id, key)
}

/// The seconds from `at` to `now`, none where `at` is yet to come.
pub open spec fn seconds_since(now: i64, at: i64) -> int {
    if now > at {
        now - at
    } else {
        0
    }
}

/// A session ran on the model that the tables look up for it.
proof fn lemma_ran_on(s: Tables, id: i64, key: Seq<char>)
    requires
        s.wf(),
    ensures
        ran_on(s, id, key) <==> s.session_key(id) == Some(key),
{
    let fits = store::with_id(id);
    tables::lemma_first_where(s.sessions@, fits);
    if s.session_key(id) == Some(key) {
        let j = s.session_at(id)->Some_0;
        let shown = store::shown_as(s.sessions@[j].alias@);
        tables::lemma_first_where(s.aliases@, shown);
        let a = s.alias_at(s.sessions@[j].alias@)->Some_0;
        assert(shown(s.aliases@[a]));
        assert(s.aliases@[a].canonical_key@ == key);
        assert(session_ran_on(s, s.sessions@[j], key));
        assert(s.sessions@[j].id == id);
    }
    if ran_on(s, id, key) {
        let j = choose|j: int|
            0 <= j < s.sessions@.len() && (#[trigger] s.sessions@[j]).id == id && session_ran_on(
                s,
                s.sessions@[j],
                key,
            );
        assert(fits(s.sessions@[j]));
        let first = s.session_at(id)->Some_0;
        if first < j {
            assert(s.sessions@[first].id < s.sessions@[j].id);
        } else if j < first {
            assert(!fits(s.sessions@[j]));
        }
        lemma_session_ran_on(s, s.sessions@[j], key);
    }
}

/// A session ran on the model of the alias that it is found under.
proof fn lemma_session_ran_on(s: Tables, session: SessionRow, key: Seq<char>)
    requires
        s.wf(),
    ensures
        session_ran_on(s, session, key) <==> (s.alias_at(session.alias@) matches Some(a)
            && s.aliases@[a].canonical_key@ == key),
{
    let shown = store::shown_as(session.alias@);
    tables::lemma_first_where(s.aliases@, shown);
    if let Some(a) = s.alias_at(session.alias@) {
        assert(shown(s.aliases@[a]));
    }
    if session_ran_on(s, session, key) {
        let a = choose|a: int|
            0 <= a < s.aliases@.len() && (#[trigger] s.aliases@[a]).canonical_key@ == key
                && session.alias@ == s.aliases@[a].alias.provider_token@ + seq![':']
                + s.aliases@[a].alias.model_token@;
        assert(s.aliases@[a].alias.name() == session.alias@);
        store::lemma_alias_is_found(s, a);
    }
}

/// A rating stands where the tables find nothing that supersedes it.
proof fn lemma_stands(s: Tables, row: RatingRow)
    ensures
        stands(s, row) <==> !s.superseded(row.id),
{
}

/// The positions at which a key stands in a list of keys.
spec fn places_of(keys: Seq<Seq<char>>, key: Seq<char>) -> Seq<int>
    decreases keys.len(),
{
    if keys.len() == 0 {
        Seq::empty()
    } else if keys.last() == key {
        places_of(keys.drop_last(), key).push(keys.len() - 1)
    } else {
        places_of(keys.drop_last(), key)
    }
}

/// What the positions of a key are.
proof fn lemma_places_of(keys: Seq<Seq<char>>, key: Seq<char>)
    ensures
        forall|k: int|
            0 <= k < places_of(keys, key).len() ==> 0 <= #[trigger] places_of(keys, key)[k]
                < keys.len() && keys[places_of(keys, key)[k]] == key,
        forall|k: int, l: int|
            0 <= k < l < places_of(keys, key).len() ==> #[trigger] places_of(keys, key)[k]
                < #[trigger] places_of(keys, key)[l],
        forall|m: int|
            0 <= m < keys.len() && #[trigger] keys[m] == key ==> places_of(keys, key).contains(m),
    decreases keys.len(),
{
    if keys.len() > 0 {
        let rest = keys.drop_last();
        lemma_places_of(rest, key);
        let p = places_of(rest, key);
        let q = places_of(keys, key);
        assert forall|k: int| 0 <= k < q.len() implies 0 <= #[trigger] q[k] < keys.len()
            && keys[q[k]] == key by {
            if k < p.len() {
                assert(q[k] == p[k]);
                assert(rest[p[k]] == keys[p[k]]);
            }
        }
        assert forall|k: int, l: int| 0 <= k < l < q.len() implies #[trigger] q[k]
            < #[trigger] q[l] by {
            assert(q[k] == p[k]);
            if l < p.len() {
                assert(q[l] == p[l]);
            }
        }
        assert forall|m: int| 0 <= m < keys.len() && #[trigger] keys[m] == key implies q.contains(
            m,
        ) by {
            if m < rest.len() {
                assert(rest[m] == key);
                assert(p.contains(m));
                let k = choose|k: int| 0 <= k < p.len() && p[k] == m;
                assert(q[k] == m);
            } else {
                assert(q[q.len() - 1] == m);
            }
        }
    }
}

/// The ratings of a model are those at its positions.
proof fn lemma_ratings_at(all: Seq<AgedRating>, key: Seq<char>)
    ensures
        ({
            let p = places_of(all.map_values(|a: AgedRating| a.canonical_key@), key);
            let r = pool::ratings_on(all, key);
            &&& r.len() == p.len()
            &&& forall|k: int|
                0 <= k < r.len() ==> (#[trigger] r[k]).performance_points
                    == all[p[k]].performance_points && r[k].difficulty_points
                    == all[p[k]].difficulty_points && r[k].age_seconds == all[p[k]].age_seconds
        }),
    decreases all.len(),
{
    let keys = all.map_values(|a: AgedRating| a.canonical_key@);
    if all.len() > 0 {
        let rest = all.drop_last();
        lemma_ratings_at(rest, key);
        lemma_places_of(rest.map_values(|a: AgedRating| a.canonical_key@), key);
        assert(keys.drop_last() =~= rest.map_values(|a: AgedRating| a.canonical_key@));
    }
}

/// The failures of a model are those at its positions.
proof fn lemma_failures_at(all: Seq<AgedFailure>, key: Seq<char>)
    ensures
        ({
            let p = places_of(all.map_values(|a: AgedFailure| a.canonical_key@), key);
            let r = pool::failures_on(all, key);
            &&& r.len() == p.len()
            &&& forall|k: int|
                0 <= k < r.len() ==> (#[trigger] r[k]).loss_weight == all[p[k]].error_kind.weight()
                    && r[k].age_seconds == all[p[k]].age_seconds
        }),
    decreases all.len(),
{
    let keys = all.map_values(|a: AgedFailure| a.canonical_key@);
    if all.len() > 0 {
        let rest = all.drop_last();
        lemma_failures_at(rest, key);
        lemma_places_of(rest.map_values(|a: AgedFailure| a.canonical_key@), key);
        assert(keys.drop_last() =~= rest.map_values(|a: AgedFailure| a.canonical_key@));
    }
}

/// Whether a list of ratings is what is recorded of a model: `from` names the row that each was read
/// from. Every rating of the model that no other corrects is there once, oldest first, with the
/// points of its row and the seconds since it was given.
pub open spec fn ratings_recorded(
    ratings: Seq<Rating>,
    from: Seq<int>,
    s: Tables,
    key: Seq<char>,
    now: i64,
) -> bool {
    &&& from.len() == ratings.len()
    &&& from.no_duplicates()
    &&& forall|i: int|
        0 <= i < s.ratings@.len() ==> (stands_for(s, #[trigger] s.ratings@[i], key)
            <==> from.contains(i))
    &&& forall|k: int|
        0 <= k < ratings.len() ==> {
            let row = s.ratings@[from[k]];
            &&& 0 <= from[k] < s.ratings@.len()
            &&& (#[trigger] ratings[k]).performance_points == row.performance_points
            &&& ratings[k].difficulty_points == row.difficulty_points
            &&& ratings[k].age_seconds == seconds_since(now, row.rated_at)
        }
    &&& forall|k: int, l: int|
        0 <= k < l < from.len() ==> s.ratings@[#[trigger] from[k]].rated_at
            <= s.ratings@[#[trigger] from[l]].rated_at
}

/// Whether the end of a session is a failure on a model.
pub open spec fn failed_on(s: Tables, row: EndRow, key: Seq<char>) -> bool {
    row.end.error_kind is Some && ran_on(s, row.session_id, key)
}

/// How much a failure counts against a model, in hundredths: in full where the model cannot serve
/// the request, not at all where the request was at fault, a little otherwise.
pub open spec fn counts_against(kind: ErrorKind) -> int {
    if kind == ErrorKind::TooLarge || kind == ErrorKind::Unavailable {
        100
    } else if kind == ErrorKind::Auth || kind == ErrorKind::BadRequest {
        0
    } else {
        15
    }
}

/// Whether a list of failures is what is recorded of a model: `from` names the session end that each
/// was read from. Every failed session of the model is there once, oldest first, with the weight of
/// its kind and the seconds since it ended.
pub open spec fn failures_recorded(
    failures: Seq<Failure>,
    from: Seq<int>,
    s: Tables,
    key: Seq<char>,
    now: i64,
) -> bool {
    &&& from.len() == failures.len()
    &&& from.no_duplicates()
    &&& forall|i: int|
        0 <= i < s.session_end@.len() ==> (failed_on(s, #[trigger] s.session_end@[i], key)
            <==> from.contains(i))
    &&& forall|k: int|
        0 <= k < failures.len() ==> {
            let row = s.session_end@[from[k]];
            &&& 0 <= from[k] < s.session_end@.len()
            &&& row.end.error_kind matches Some(kind) && (#[trigger] failures[k]).loss_weight
                == counts_against(kind)
            &&& failures[k].age_seconds == seconds_since(now, row.ended_at)
        }
    &&& forall|k: int, l: int|
        0 <= k < l < from.len() ==> s.session_end@[#[trigger] from[k]].ended_at
            <= s.session_end@[#[trigger] from[l]].ended_at
}

/// The ratings of a model among those that count are what is recorded of it.
proof fn lemma_ratings_recorded(s: Tables, all: Seq<AgedRating>, key: Seq<char>, now: i64)
    requires
        s.wf(),
        s.ages_ratings(all, now),
    ensures
        exists|from: Seq<int>| #[trigger]
            ratings_recorded(pool::ratings_on(all, key), from, s, key, now),
{
    let order = choose|order: Seq<int>| #[trigger]
        s.effective_order(order) && order.len() == all.len() && forall|k: int|
            0 <= k < all.len() ==> s.is_aged_rating(#[trigger] all[k], order[k], now);
    let keys = all.map_values(|a: AgedRating| a.canonical_key@);
    let p = places_of(keys, key);
    let from = p.map_values(|m: int| order[m]);
    let r = pool::ratings_on(all, key);
    lemma_places_of(keys, key);
    lemma_ratings_at(all, key);
    let keep = Seq::new(s.ratings@.len(), |i: int| s.counts(i));
    assert forall|k: int, l: int| 0 <= k < l < from.len() implies tables::listed_before(
        s.rating_times(),
        #[trigger] from[k],
        #[trigger] from[l],
    ) by {
        assert(p[k] < p[l]);
        assert(from[k] == order[p[k]] && from[l] == order[p[l]]);
    }
    assert forall|k: int| 0 <= k < r.len() implies ({
        let row = s.ratings@[from[k]];
        &&& 0 <= from[k] < s.ratings@.len()
        &&& (#[trigger] r[k]).performance_points == row.performance_points
        &&& r[k].difficulty_points == row.difficulty_points
        &&& r[k].age_seconds == seconds_since(now, row.rated_at)
    }) by {
        assert(from[k] == order[p[k]]);
        assert(s.is_aged_rating(all[p[k]], order[p[k]], now));
    }
    assert forall|i: int| 0 <= i < s.ratings@.len() implies (stands_for(
        s,
        #[trigger] s.ratings@[i],
        key,
    ) <==> from.contains(i)) by {
        lemma_ran_on(s, s.ratings@[i].session_id, key);
        lemma_stands(s, s.ratings@[i]);
        if stands_for(s, s.ratings@[i], key) {
            assert(keep[i]);
            assert(order.contains(i));
            let m = choose|m: int| 0 <= m < order.len() && order[m] == i;
            assert(s.is_aged_rating(all[m], order[m], now));
            assert(keys[m] == key);
            let k = choose|k: int| 0 <= k < p.len() && p[k] == m;
            assert(from[k] == i);
        }
        if from.contains(i) {
            let k = choose|k: int| 0 <= k < from.len() && from[k] == i;
            assert(from[k] == order[p[k]]);
            assert(keep[order[p[k]]]);
            assert(s.is_aged_rating(all[p[k]], order[p[k]], now));
            assert(keys[p[k]] == key);
        }
    }
    assert forall|k: int, l: int| 0 <= k < l < from.len() implies s.ratings@[#[trigger] from[k]].rated_at
        <= s.ratings@[#[trigger] from[l]].rated_at by {
        assert(tables::listed_before(s.rating_times(), from[k], from[l]));
        assert(from[k] == order[p[k]] && from[l] == order[p[l]]);
        assert(0 <= order[p[k]] < s.rating_times().len());
        assert(0 <= order[p[l]] < s.rating_times().len());
    }
    assert(from.no_duplicates());
    assert(ratings_recorded(r, from, s, key, now));
}

/// The failures of a model among the failed sessions are what is recorded of it.
proof fn lemma_failures_recorded(s: Tables, all: Seq<AgedFailure>, key: Seq<char>, now: i64)
    requires
        s.wf(),
        s.ages_failures(all, now),
    ensures
        exists|from: Seq<int>| #[trigger]
            failures_recorded(pool::failures_on(all, key), from, s, key, now),
{
    let order = choose|order: Seq<int>| #[trigger]
        s.failure_order(order) && order.len() == all.len() && forall|k: int|
            0 <= k < all.len() ==> s.is_aged_failure(#[trigger] all[k], order[k], now);
    let keys = all.map_values(|a: AgedFailure| a.canonical_key@);
    let times = s.session_end@.map_values(|e: EndRow| e.ended_at as i128);
    let p = places_of(keys, key);
    let from = p.map_values(|m: int| order[m]);
    let r = pool::failures_on(all, key);
    lemma_places_of(keys, key);
    lemma_failures_at(all, key);
    let keep = Seq::new(s.session_end@.len(), |i: int| s.fails(i));
    assert forall|k: int, l: int| 0 <= k < l < from.len() implies tables::listed_before(
        times,
        #[trigger] from[k],
        #[trigger] from[l],
    ) by {
        assert(p[k] < p[l]);
        assert(from[k] == order[p[k]] && from[l] == order[p[l]]);
    }
    assert forall|k: int| 0 <= k < r.len() implies ({
        let row = s.session_end@[from[k]];
        &&& 0 <= from[k] < s.session_end@.len()
        &&& row.end.error_kind matches Some(kind) && (#[trigger] r[k]).loss_weight
            == counts_against(kind)
        &&& r[k].age_seconds == seconds_since(now, row.ended_at)
    }) by {
        assert(from[k] == order[p[k]]);
        assert(s.is_aged_failure(all[p[k]], order[p[k]], now));
    }
    assert forall|i: int| 0 <= i < s.session_end@.len() implies (failed_on(
        s,
        #[trigger] s.session_end@[i],
        key,
    ) <==> from.contains(i)) by {
        lemma_ran_on(s, s.session_end@[i].session_id, key);
        if failed_on(s, s.session_end@[i], key) {
            assert(keep[i]);
            assert(order.contains(i));
            let m = choose|m: int| 0 <= m < order.len() && order[m] == i;
            assert(s.is_aged_failure(all[m], order[m], now));
            assert(keys[m] == key);
            let k = choose|k: int| 0 <= k < p.len() && p[k] == m;
            assert(from[k] == i);
        }
        if from.contains(i) {
            let k = choose|k: int| 0 <= k < from.len() && from[k] == i;
            assert(from[k] == order[p[k]]);
            assert(keep[order[p[k]]]);
            assert(s.is_aged_failure(all[p[k]], order[p[k]], now));
            assert(keys[p[k]] == key);
        }
    }
    assert forall|k: int, l: int| 0 <= k < l < from.len() implies s.session_end@[#[trigger] from[k]].ended_at
        <= s.session_end@[#[trigger] from[l]].ended_at by {
        assert(tables::listed_before(times, from[k], from[l]));
        assert(from[k] == order[p[k]] && from[l] == order[p[l]]);
        assert(0 <= order[p[k]] < times.len());
        assert(0 <= order[p[l]] < times.len());
    }
    assert(from.no_duplicates());
    assert(failures_recorded(r, from, s, key, now));
}

/// What the selector learns of a pool entry is what the tables hold of its model: each rating that
/// stands, with its points and its age, and each failed session, with its weight and its age. Nothing
/// else is there, and nothing is there twice.
pub proof fn lemma_pool_learns_from_the_rows(
    entries: Seq<PoolEntry>,
    s: Tables,
    cfg: Config,
    now: i64,
    e: int,
)
    requires
        s.wf(),
        pool::is_pool(entries, s, cfg, now),
        0 <= e < entries.len(),
    ensures
        exists|from: Seq<int>| #[trigger]
            ratings_recorded(entries[e].ratings@, from, s, entries[e].canonical_key@, now),
        exists|from: Seq<int>| #[trigger]
            failures_recorded(entries[e].failures@, from, s, entries[e].canonical_key@, now),
{
    let key = entries[e].canonical_key@;
    let (ratings, failures) = choose|ratings: Seq<AgedRating>, failures: Seq<AgedFailure>| #[trigger]
        s.ages_ratings(ratings, now) && #[trigger] s.ages_failures(failures, now) && entries.len()
            == pool::pool_places(cfg.providers@).len() && forall|k: int|
            0 <= k < entries.len() ==> pool::is_entry(
                #[trigger] entries[k],
                s,
                cfg.providers@,
                pool::pool_places(cfg.providers@)[k],
                ratings,
                failures,
            );
    assert(pool::is_entry(
        entries[e],
        s,
        cfg.providers@,
        pool::pool_places(cfg.providers@)[e],
        ratings,
        failures,
    ));
    lemma_ratings_recorded(s, ratings, key, now);
    lemma_failures_recorded(s, failures, key, now);
}

/// A rating that stands is in every pool entry of its model, with its age and its points.
pub proof fn lemma_every_rating_reaches_the_pool(
    entries: Seq<PoolEntry>,
    s: Tables,
    cfg: Config,
    now: i64,
    e: int,
    i: int,
)
    requires
        s.wf(),
        pool::is_pool(entries, s, cfg, now),
        0 <= e < entries.len(),
        0 <= i < s.ratings@.len(),
        stands_for(s, s.ratings@[i], entries[e].canonical_key@),
    ensures
        exists|k: int|
            0 <= k < entries[e].ratings@.len() && (
            #[trigger] entries[e].ratings@[k]).performance_points
                == s.ratings@[i].performance_points && entries[e].ratings@[k].difficulty_points
                == s.ratings@[i].difficulty_points && entries[e].ratings@[k].age_seconds
                == seconds_since(now, s.ratings@[i].rated_at),
{
    lemma_pool_learns_from_the_rows(entries, s, cfg, now, e);
    let key = entries[e].canonical_key@;
    let from = choose|from: Seq<int>| #[trigger]
        ratings_recorded(entries[e].ratings@, from, s, key, now);
    assert(from.contains(i));
    let k = choose|k: int| 0 <= k < from.len() && from[k] == i;
    assert(entries[e].ratings@[k].performance_points == s.ratings@[i].performance_points);
}

/// The sum of a list of numbers.
pub open spec fn total(list: Seq<int>) -> int {
    list.fold_left(0int, |a: int, b: int| a + b)
}

/// One more number adds to the sum.
proof fn lemma_total_push(list: Seq<int>, n: int)
    ensures
        total(list.push(n)) == total(list) + n,
{
    assert(list.push(n).drop_last() =~= list);
}

/// Counting positions counts the rows that fit.
proof fn lemma_count_is_filter<T>(
    rows: Seq<T>,
    n: int,
    fits: spec_fn(int) -> bool,
    p: spec_fn(T) -> bool,
)
    requires
        0 <= n <= rows.len(),
        forall|i: int| 0 <= i < n ==> #[trigger] fits(i) == p(rows[i]),
    ensures
        tables::count_below(n, fits) == rows.take(n).filter(p).len(),
    decreases n,
{
    reveal(Seq::filter);
    if n > 0 {
        lemma_count_is_filter(rows, n - 1, fits, p);
        assert(rows.take(n).drop_last() =~= rows.take(n - 1));
        assert(fits(n - 1) == p(rows[n - 1]));
    } else {
        assert(rows.take(0).filter(p).len() == 0);
    }
}

/// Adding up positions adds up the rows that fit.
proof fn lemma_sum_is_total<T>(
    rows: Seq<T>,
    n: int,
    amount: spec_fn(int) -> int,
    p: spec_fn(T) -> bool,
    f: spec_fn(T) -> int,
)
    requires
        0 <= n <= rows.len(),
        forall|i: int|
            0 <= i < n ==> #[trigger] amount(i) == (if p(rows[i]) {
                f(rows[i])
            } else {
                0
            }),
    ensures
        tables::sum_below(n, amount) == total(rows.take(n).filter(p).map_values(f)),
    decreases n,
{
    reveal(Seq::filter);
    if n > 0 {
        lemma_sum_is_total(rows, n - 1, amount, p, f);
        let before = rows.take(n - 1).filter(p);
        assert(rows.take(n).drop_last() =~= rows.take(n - 1));
        assert(amount(n - 1) == (if p(rows[n - 1]) {
            f(rows[n - 1])
        } else {
            0
        }));
        if p(rows[n - 1]) {
            assert(rows.take(n).filter(p) == before.push(rows[n - 1]));
            assert(before.push(rows[n - 1]).map_values(f) =~= before.map_values(f).push(
                f(rows[n - 1]),
            ));
            lemma_total_push(before.map_values(f), f(rows[n - 1]));
        }
    } else {
        assert(rows.take(0).filter(p).map_values(f) =~= Seq::empty());
    }
}

/// The ratings of a model that stand.
pub open spec fn standing_ratings(s: Tables, key: Seq<char>) -> Seq<RatingRow> {
    s.ratings@.filter(|r: RatingRow| stands_for(s, r, key))
}

/// The ends of the sessions of a model.
pub open spec fn ends_of(s: Tables, key: Seq<char>) -> Seq<EndRow> {
    s.session_end@.filter(|e: EndRow| ran_on(s, e.session_id, key))
}

/// The sessions of a model.
pub open spec fn sessions_of(s: Tables, key: Seq<char>) -> Seq<SessionRow> {
    s.sessions@.filter(|x: SessionRow| session_ran_on(s, x, key))
}

/// Whether some rating of a session stands.
pub open spec fn has_standing_rating(s: Tables, session: SessionRow) -> bool {
    exists|k: int|
        0 <= k < s.ratings@.len() && (#[trigger] s.ratings@[k]).session_id == session.id && stands(
            s,
            s.ratings@[k],
        )
}

/// A model's counts and sums are those of its rows: its sessions, those of them with a rating that
/// stands, its ratings that stand, and the points of these.
pub proof fn lemma_aggregate_counts_the_ratings(s: Tables, a: ModelAggregate, key: Seq<char>)
    requires
        s.wf(),
        s.is_aggregate(a, key),
    ensures
        a.canonical_key@ == key,
        a.sessions == sessions_of(s, key).len(),
        a.rated == s.sessions@.filter(
            |x: SessionRow| session_ran_on(s, x, key) && has_standing_rating(s, x),
        ).len(),
        a.ratings == standing_ratings(s, key).len(),
        a.performance_sum == total(
            standing_ratings(s, key).map_values(|r: RatingRow| r.performance_points as int),
        ),
        a.difficulty_sum == total(
            standing_ratings(s, key).map_values(|r: RatingRow| r.difficulty_points as int),
        ),
{
    let stand = |r: RatingRow| stands_for(s, r, key);
    let on = |x: SessionRow| session_ran_on(s, x, key);
    let rated = |x: SessionRow| session_ran_on(s, x, key) && has_standing_rating(s, x);
    let n = s.ratings@.len() as int;
    let m = s.sessions@.len() as int;
    assert forall|i: int| 0 <= i < n implies #[trigger] s.rating_on(key)(i) == stand(
        s.ratings@[i],
    ) by {
        lemma_ran_on(s, s.ratings@[i].session_id, key);
        lemma_stands(s, s.ratings@[i]);
    }
    assert forall|i: int| 0 <= i < m implies #[trigger] s.session_on(key)(i) == on(
        s.sessions@[i],
    ) by {
        lemma_session_ran_on(s, s.sessions@[i], key);
    }
    assert forall|i: int| 0 <= i < m implies #[trigger] s.rated_session_on(key)(i) == rated(
        s.sessions@[i],
    ) by {
        lemma_session_ran_on(s, s.sessions@[i], key);
        assert(s.session_on(key)(i) == on(s.sessions@[i]));
        assert forall|k: int| 0 <= k < n implies stands(s, #[trigger] s.ratings@[k])
            == !s.superseded(s.ratings@[k].id) by {
            lemma_stands(s, s.ratings@[k]);
        }
    }
    assert(s.ratings@.take(n) =~= s.ratings@);
    assert(s.sessions@.take(m) =~= s.sessions@);
    lemma_count_is_filter(s.sessions@, m, s.session_on(key), on);
    lemma_count_is_filter(s.sessions@, m, s.rated_session_on(key), rated);
    lemma_count_is_filter(s.ratings@, n, s.rating_on(key), stand);
    assert forall|i: int| 0 <= i < n implies #[trigger] s.performance_on(key)(i) == (if stand(
        s.ratings@[i],
    ) {
        s.ratings@[i].performance_points as int
    } else {
        0
    }) by {
        assert(s.rating_on(key)(i) == stand(s.ratings@[i]));
    }
    assert forall|i: int| 0 <= i < n implies #[trigger] s.difficulty_on(key)(i) == (if stand(
        s.ratings@[i],
    ) {
        s.ratings@[i].difficulty_points as int
    } else {
        0
    }) by {
        assert(s.rating_on(key)(i) == stand(s.ratings@[i]));
    }
    lemma_sum_is_total(
        s.ratings@,
        n,
        s.performance_on(key),
        stand,
        |r: RatingRow| r.performance_points as int,
    );
    lemma_sum_is_total(
        s.ratings@,
        n,
        s.difficulty_on(key),
        stand,
        |r: RatingRow| r.difficulty_points as int,
    );
}

/// A model's tokens and costs are those of the ends of its sessions: every count that was recorded,
/// and every cost, in the order of the ends.
pub proof fn lemma_aggregate_adds_up_the_ends(s: Tables, a: ModelAggregate, key: Seq<char>)
    requires
        s.wf(),
        s.is_aggregate(a, key),
    ensures
        a.total_prompt_tokens == total(
            ends_of(s, key).map_values(
                |e: EndRow|
                    match e.end.prompt_tokens {
                        Some(n) => n as int,
                        None => 0int,
                    },
            ),
        ),
        a.total_completion_tokens == total(
            ends_of(s, key).map_values(
                |e: EndRow|
                    match e.end.completion_tokens {
                        Some(n) => n as int,
                        None => 0int,
                    },
            ),
        ),
        a.costs@ == s.session_end@.filter(
            |e: EndRow| ran_on(s, e.session_id, key) && e.end.realized_cost is Some,
        ).map_values(|e: EndRow| e.end.realized_cost->Some_0),
{
    let on = |e: EndRow| ran_on(s, e.session_id, key);
    let n = s.session_end@.len() as int;
    assert forall|i: int| 0 <= i < n implies #[trigger] s.end_on(key)(i) == on(
        s.session_end@[i],
    ) by {
        lemma_ran_on(s, s.session_end@[i].session_id, key);
    }
    assert(s.session_end@.take(n) =~= s.session_end@);
    let prompt = |e: EndRow|
        match e.end.prompt_tokens {
            Some(n) => n as int,
            None => 0int,
        };
    let completion = |e: EndRow|
        match e.end.completion_tokens {
            Some(n) => n as int,
            None => 0int,
        };
    assert forall|i: int| 0 <= i < n implies #[trigger] s.prompt_on(key)(i) == (if on(
        s.session_end@[i],
    ) {
        prompt(s.session_end@[i])
    } else {
        0
    }) by {
        assert(s.end_on(key)(i) == on(s.session_end@[i]));
    }
    assert forall|i: int| 0 <= i < n implies #[trigger] s.completion_on(key)(i) == (if on(
        s.session_end@[i],
    ) {
        completion(s.session_end@[i])
    } else {
        0
    }) by {
        assert(s.end_on(key)(i) == on(s.session_end@[i]));
    }
    lemma_sum_is_total(s.session_end@, n, s.prompt_on(key), on, prompt);
    lemma_sum_is_total(s.session_end@, n, s.completion_on(key), on, completion);
    lemma_costs_are_filtered(s, key, n);
}

/// The costs of a model are those of the ends that have one.
proof fn lemma_costs_are_filtered(s: Tables, key: Seq<char>, n: int)
    requires
        s.wf(),
        0 <= n <= s.session_end@.len(),
    ensures
        s.costs_on(key, n) == s.session_end@.take(n).filter(
            |e: EndRow| ran_on(s, e.session_id, key) && e.end.realized_cost is Some,
        ).map_values(|e: EndRow| e.end.realized_cost->Some_0),
    decreases n,
{
    reveal(Seq::filter);
    let p = |e: EndRow| ran_on(s, e.session_id, key) && e.end.realized_cost is Some;
    let f = |e: EndRow| e.end.realized_cost->Some_0;
    if n > 0 {
        lemma_costs_are_filtered(s, key, n - 1);
        let before = s.session_end@.take(n - 1).filter(p);
        let last = s.session_end@[n - 1];
        assert(s.session_end@.take(n).drop_last() =~= s.session_end@.take(n - 1));
        lemma_ran_on(s, last.session_id, key);
        if p(last) {
            assert(s.session_end@.take(n).filter(p) == before.push(last));
            assert(before.push(last).map_values(f) =~= before.map_values(f).push(f(last)));
        }
    } else {
        assert(s.session_end@.take(0).filter(p).map_values(f) =~= Seq::empty());
    }
}

/// How often the sessions of a model ended in a failure of one kind.
pub open spec fn times_failed(s: Tables, key: Seq<char>, kind: ErrorKind) -> nat {
    s.session_end@.filter(
        |e: EndRow| ran_on(s, e.session_id, key) && e.end.error_kind == Some(kind),
    ).len()
}

/// The failures of a model are listed by the names of their kinds, each kind that occurred once, with
/// how often it did.
pub proof fn lemma_aggregate_counts_the_failures(s: Tables, a: ModelAggregate, key: Seq<char>)
    requires
        s.wf(),
        s.is_aggregate(a, key),
        s.session_end@.len() <= u64::MAX,
    ensures
        forall|k: int|
            0 <= k < a.failures@.len() ==> (#[trigger] a.failures@[k]).count == times_failed(
                s,
                key,
                a.failures@[k].error_kind,
            ) && a.failures@[k].count > 0,
        forall|kind: ErrorKind| #[trigger]
            times_failed(s, key, kind) > 0 ==> exists|k: int|
                0 <= k < a.failures@.len() && (#[trigger] a.failures@[k]).error_kind == kind,
        forall|k: int, l: int|
            0 <= k < l < a.failures@.len() ==> text::comes_before(
                (#[trigger] a.failures@[k]).error_kind.name(),
                (#[trigger] a.failures@[l]).error_kind.name(),
            ),
{
    let kinds = stats::kinds_by_name();
    let n = kinds.len() as int;
    let list = a.failures@;
    let keep = |m: int| occurred(s, key, m);
    let kept = selector::kept_below(n, keep);
    lemma_kinds_by_name();
    lemma_failures_by_name(s, key, n);
    selector::lemma_kept_below(n, keep);
    assert forall|k: int| 0 <= k < list.len() implies (#[trigger] list[k]).count == times_failed(
        s,
        key,
        list[k].error_kind,
    ) && list[k].count > 0 by {
        lemma_times_failed(s, key, list[k].error_kind);
        assert(keep(kept[k]));
    }
    assert forall|kind: ErrorKind| #[trigger] times_failed(s, key, kind) > 0 implies exists|k: int|
        0 <= k < list.len() && (#[trigger] list[k]).error_kind == kind by {
        lemma_times_failed(s, key, kind);
        assert(kinds.contains(kind));
        let m = choose|m: int| 0 <= m < kinds.len() && kinds[m] == kind;
        assert(keep(m));
        assert(kept.contains(m));
        let k = choose|k: int| 0 <= k < kept.len() && kept[k] == m;
        assert(list[k].error_kind == kind);
    }
    assert forall|k: int, l: int| 0 <= k < l < list.len() implies text::comes_before(
        (#[trigger] list[k]).error_kind.name(),
        (#[trigger] list[l]).error_kind.name(),
    ) by {
        assert(kept[k] < kept[l]);
        assert(text::comes_before(kinds[kept[k]].name(), kinds[kept[l]].name()));
    }
}

/// Counting the failures of a kind counts the rows.
proof fn lemma_times_failed(s: Tables, key: Seq<char>, kind: ErrorKind)
    requires
        s.wf(),
    ensures
        times_failed(s, key, kind) == s.failure_count(key, kind),
        s.failure_count(key, kind) <= s.session_end@.len(),
{
    let p = |e: EndRow| ran_on(s, e.session_id, key) && e.end.error_kind == Some(kind);
    let n = s.session_end@.len() as int;
    assert forall|i: int| 0 <= i < n implies #[trigger] s.failure_on(key, kind)(i) == p(
        s.session_end@[i],
    ) by {
        lemma_ran_on(s, s.session_end@[i].session_id, key);
    }
    assert(s.session_end@.take(n) =~= s.session_end@);
    lemma_count_is_filter(s.session_end@, n, s.failure_on(key, kind), p);
    tables::lemma_count_below(n, s.failure_on(key, kind));
}

/// The failures by name are those of the kinds that occurred.
proof fn lemma_failures_by_name(s: Tables, key: Seq<char>, n: int)
    requires
        0 <= n <= stats::kinds_by_name().len(),
    ensures
        ({
            let kept = selector::kept_below(n, |m: int| occurred(s, key, m));
            let list = s.failures_by_name(key, n);
            &&& list.len() == kept.len()
            &&& forall|k: int|
                0 <= k < list.len() ==> (#[trigger] list[k]).error_kind
                    == stats::kinds_by_name()[kept[k]] && list[k].count == s.failure_count(
                    key,
                    list[k].error_kind,
                ) as u64
        }),
    decreases n,
{
    if n > 0 {
        lemma_failures_by_name(s, key, n - 1);
    }
}

/// Whether the kind at a position by name occurred.
spec fn occurred(s: Tables, key: Seq<char>, m: int) -> bool {
    s.failure_count(key, stats::kinds_by_name()[m]) > 0
}

/// Each kind by name comes before the next.
proof fn lemma_next_kind_comes_behind(k: int)
    requires
        0 <= k < stats::kinds_by_name().len() - 1,
    ensures
        text::comes_before(
            stats::kinds_by_name()[k].name(),
            stats::kinds_by_name()[k + 1].name(),
        ),
{
    reveal_strlit("auth");
    reveal_strlit("bad_request");
    reveal_strlit("http_5xx");
    reveal_strlit("network");
    reveal_strlit("rate_limit");
    reveal_strlit("refused");
    reveal_strlit("too_large");
    reveal_strlit("truncated");
    reveal_strlit("unavailable");
    reveal_strlit("unknown");
    assert("auth"@.len() == 4 && "bad_request"@.len() == 11);
    assert("auth"@[0] == 'a' && "bad_request"@[0] == 'b');
    text::lemma_order_by_difference("auth"@, "bad_request"@, 0);
    assert("bad_request"@.len() == 11 && "http_5xx"@.len() == 8);
    assert("bad_request"@[0] == 'b' && "http_5xx"@[0] == 'h');
    text::lemma_order_by_difference("bad_request"@, "http_5xx"@, 0);
    assert("http_5xx"@.len() == 8 && "network"@.len() == 7);
    assert("http_5xx"@[0] == 'h' && "network"@[0] == 'n');
    text::lemma_order_by_difference("http_5xx"@, "network"@, 0);
    assert("network"@.len() == 7 && "rate_limit"@.len() == 10);
    assert("network"@[0] == 'n' && "rate_limit"@[0] == 'r');
    text::lemma_order_by_difference("network"@, "rate_limit"@, 0);
    assert("rate_limit"@[0] == "refused"@[0]);
    assert("rate_limit"@.len() == 10 && "refused"@.len() == 7);
    assert("rate_limit"@[1] == 'a' && "refused"@[1] == 'e');
    text::lemma_order_by_difference("rate_limit"@, "refused"@, 1);
    assert("refused"@.len() == 7 && "too_large"@.len() == 9);
    assert("refused"@[0] == 'r' && "too_large"@[0] == 't');
    text::lemma_order_by_difference("refused"@, "too_large"@, 0);
    assert("too_large"@[0] == "truncated"@[0]);
    assert("too_large"@.len() == 9 && "truncated"@.len() == 9);
    assert("too_large"@[1] == 'o' && "truncated"@[1] == 'r');
    text::lemma_order_by_difference("too_large"@, "truncated"@, 1);
    assert("truncated"@.len() == 9 && "unavailable"@.len() == 11);
    assert("truncated"@[0] == 't' && "unavailable"@[0] == 'u');
    text::lemma_order_by_difference("truncated"@, "unavailable"@, 0);
    assert("unavailable"@[0] == "unknown"@[0]);
    assert("unavailable"@[1] == "unknown"@[1]);
    assert("unavailable"@.len() == 11 && "unknown"@.len() == 7);
    assert("unavailable"@[2] == 'a' && "unknown"@[2] == 'k');
    text::lemma_order_by_difference("unavailable"@, "unknown"@, 2);
}

/// The kinds by name are all kinds, in the order of their names.
proof fn lemma_kinds_by_name()
    ensures
        forall|kind: ErrorKind| stats::kinds_by_name().contains(kind),
        forall|k: int, l: int|
            0 <= k < l < stats::kinds_by_name().len() ==> text::comes_before(
                (#[trigger] stats::kinds_by_name()[k]).name(),
                (#[trigger] stats::kinds_by_name()[l]).name(),
            ),
{
    let kinds = stats::kinds_by_name();
    assert forall|k: int| 0 <= k < kinds.len() - 1 implies text::comes_before(
        (#[trigger] kinds[k]).name(),
        kinds[k + 1].name(),
    ) by {
        lemma_next_kind_comes_behind(k);
    }
    assert forall|k: int, l: int| 0 <= k < l < kinds.len() implies text::comes_before(
        (#[trigger] kinds[k]).name(),
        (#[trigger] kinds[l]).name(),
    ) by {
        lemma_chain(kinds, k, l);
    }
    assert forall|kind: ErrorKind| kinds.contains(kind) by {
        match kind {
            ErrorKind::Auth => assert(kinds[0] == kind),
            ErrorKind::BadRequest => assert(kinds[1] == kind),
            ErrorKind::Http5xx => assert(kinds[2] == kind),
            ErrorKind::Network => assert(kinds[3] == kind),
            ErrorKind::RateLimit => assert(kinds[4] == kind),
            ErrorKind::Refused => assert(kinds[5] == kind),
            ErrorKind::TooLarge => assert(kinds[6] == kind),
            ErrorKind::Truncated => assert(kinds[7] == kind),
            ErrorKind::Unavailable => assert(kinds[8] == kind),
            ErrorKind::Unknown => assert(kinds[9] == kind),
        }
    }
}

/// Names that ascend from one to the next ascend throughout.
proof fn lemma_chain(kinds: Seq<ErrorKind>, k: int, l: int)
    requires
        0 <= k < l < kinds.len(),
        forall|i: int|
            0 <= i < kinds.len() - 1 ==> text::comes_before(
                (#[trigger] kinds[i]).name(),
                kinds[i + 1].name(),
            ),
    ensures
        text::comes_before(kinds[k].name(), kinds[l].name()),
    decreases l - k,
{
    assert(text::comes_before(kinds[l - 1].name(), kinds[l - 1 + 1].name()));
    if k < l - 1 {
        lemma_chain(kinds, k, l - 1);
        text::lemma_order_is_transitive(kinds[k].name(), kinds[l - 1].name(), kinds[l].name());
    }
}

/// Sums of points stay on their scales: the performance sum within two points, up or down, for each
/// rating, and the difficulty sum within four.
pub proof fn lemma_sums_stay_on_scale(s: Tables, a: ModelAggregate, key: Seq<char>)
    requires
        s.wf(),
        s.is_aggregate(a, key),
    ensures
        -2 * a.ratings <= a.performance_sum <= 2 * a.ratings,
        0 <= a.difficulty_sum <= 4 * a.ratings,
{
    reveal(store::sound_ratings);
    let n = s.ratings@.len() as int;
    assert forall|i: int| 0 <= i < n implies (if s.rating_on(key)(i) {
        -2 <= #[trigger] s.performance_on(key)(i) <= 2
    } else {
        s.performance_on(key)(i) == 0
    }) by {
        assert(store::on_scale(s.ratings@[i]));
    }
    assert forall|i: int| 0 <= i < n implies (if s.rating_on(key)(i) {
        0 <= #[trigger] s.difficulty_on(key)(i) <= 4
    } else {
        s.difficulty_on(key)(i) == 0
    }) by {
        assert(store::on_scale(s.ratings@[i]));
    }
    lemma_sum_between(n, s.rating_on(key), s.performance_on(key), -2, 2);
    lemma_sum_between(n, s.rating_on(key), s.difficulty_on(key), 0, 4);
}

/// A sum lies between the bounds of its parts.
proof fn lemma_sum_between(
    n: int,
    fits: spec_fn(int) -> bool,
    amount: spec_fn(int) -> int,
    lo: int,
    hi: int,
)
    requires
        0 <= n,
        forall|i: int|
            0 <= i < n ==> (if fits(i) {
                lo <= #[trigger] amount(i) <= hi
            } else {
                amount(i) == 0
            }),
    ensures
        lo * tables::count_below(n, fits) <= tables::sum_below(n, amount) <= hi
            * tables::count_below(n, fits),
    decreases n,
{
    if n > 0 {
        lemma_sum_between(n - 1, fits, amount, lo, hi);
        let c = tables::count_below(n - 1, fits) as int;
        assert(lo * (c + 1) == lo * c + lo) by (nonlinear_arith);
        assert(hi * (c + 1) == hi * c + hi) by (nonlinear_arith);
        assert(if fits(n - 1) {
            lo <= amount(n - 1) <= hi
        } else {
            amount(n - 1) == 0
        });
    } else {
        assert(lo * 0 == 0 && hi * 0 == 0);
    }
}

/// A model with a single rating that stands shows the points of that rating.
pub proof fn lemma_single_rating_shows(s: Tables, a: ModelAggregate, key: Seq<char>, i: int)
    requires
        s.wf(),
        s.is_aggregate(a, key),
        0 <= i < s.ratings@.len(),
        forall|k: int|
            0 <= k < s.ratings@.len() ==> (stands_for(s, #[trigger] s.ratings@[k], key) <==> k == i),
    ensures
        a.ratings == 1,
        a.performance_sum == s.ratings@[i].performance_points,
        a.difficulty_sum == s.ratings@[i].difficulty_points,
{
    let n = s.ratings@.len() as int;
    assert forall|k: int| 0 <= k < n implies #[trigger] s.rating_on(key)(k) == (k == i) by {
        lemma_ran_on(s, s.ratings@[k].session_id, key);
        lemma_stands(s, s.ratings@[k]);
        assert(stands_for(s, s.ratings@[k], key) <==> k == i);
    }
    lemma_single_sum(n, s.rating_on(key), s.performance_on(key), i);
    lemma_single_sum(n, s.rating_on(key), s.difficulty_on(key), i);
}

/// Where a single position fits, it is the count and the sum.
proof fn lemma_single_sum(n: int, fits: spec_fn(int) -> bool, amount: spec_fn(int) -> int, i: int)
    requires
        0 <= n,
        forall|k: int| 0 <= k < n ==> #[trigger] fits(k) == (k == i),
        forall|k: int| 0 <= k < n && k != i ==> #[trigger] amount(k) == 0,
    ensures
        tables::count_below(n, fits) == (if 0 <= i < n {
            1nat
        } else {
            0
        }),
        tables::sum_below(n, amount) == (if 0 <= i < n {
            amount(i)
        } else {
            0
        }),
    decreases n,
{
    if n > 0 {
        lemma_single_sum(n - 1, fits, amount, i);
        assert(fits(n - 1) == (n - 1 == i));
        if n - 1 != i {
            assert(amount(n - 1) == 0);
        }
    }
}

/// Whether no price of the same model at the same provider is newer than the one at a position.
pub open spec fn newest_price(s: Tables, i: int) -> bool {
    forall|j: int|
        0 <= j < s.price_history@.len() && (#[trigger] s.price_history@[j]).canonical_key@
            == s.price_history@[i].canonical_key@ && s.price_history@[j].provider_slug@
            == s.price_history@[i].provider_slug@ ==> s.price_history@[j].observed_at
            < s.price_history@[i].observed_at || (s.price_history@[j].observed_at
            == s.price_history@[i].observed_at && j <= i)
}

/// The latest price is the newest.
proof fn lemma_newest_price(s: Tables, i: int)
    requires
        0 <= i < s.price_history@.len(),
    ensures
        newest_price(s, i) <==> s.is_latest(i),
{
    let row = s.price_history@[i];
    store::lemma_latest_at(s.price_history@, row.canonical_key@, row.provider_slug@);
    let b = store::latest_at(s.price_history@, row.canonical_key@, row.provider_slug@)->Some_0;
    assert(s.price_history@[i].canonical_key@ == row.canonical_key@);
    if newest_price(s, i) {
        assert(s.price_history@[b].canonical_key@ == row.canonical_key@);
    }
}

/// Whether a list of prices is what is recorded of a model: `from` names the row that each was read
/// from. The newest price at every provider that ever priced the model is there, and no other.
pub open spec fn prices_recorded(
    prices: Seq<PricePair>,
    from: Seq<int>,
    s: Tables,
    key: Seq<char>,
) -> bool {
    &&& from.len() == prices.len()
    &&& from.no_duplicates()
    &&& forall|i: int|
        0 <= i < s.price_history@.len() ==> ((#[trigger] s.price_history@[i]).canonical_key@ == key
            && newest_price(s, i) <==> from.contains(i))
    &&& forall|k: int|
        0 <= k < prices.len() ==> {
            let row = s.price_history@[from[k]];
            &&& 0 <= from[k] < s.price_history@.len()
            &&& (#[trigger] prices[k]).input_per_mtok == row.input_per_mtok
            &&& prices[k].output_per_mtok == row.output_per_mtok
        }
}

/// The prices of a model are those at its positions.
proof fn lemma_prices_at(all: Seq<PricePoint>, key: Seq<char>)
    ensures
        ({
            let p = places_of(all.map_values(|a: PricePoint| a.canonical_key@), key);
            let r = stats::prices_on(all, key);
            &&& r.len() == p.len()
            &&& forall|k: int|
                0 <= k < r.len() ==> (#[trigger] r[k]).input_per_mtok == all[p[k]].input_per_mtok
                    && r[k].output_per_mtok == all[p[k]].output_per_mtok
        }),
    decreases all.len(),
{
    let keys = all.map_values(|a: PricePoint| a.canonical_key@);
    if all.len() > 0 {
        let rest = all.drop_last();
        lemma_prices_at(rest, key);
        lemma_places_of(rest.map_values(|a: PricePoint| a.canonical_key@), key);
        assert(keys.drop_last() =~= rest.map_values(|a: PricePoint| a.canonical_key@));
    }
}

/// The prices of a model among the latest are what is recorded of it.
proof fn lemma_prices_recorded(s: Tables, all: Seq<PricePoint>, key: Seq<char>)
    requires
        s.lists_prices(all),
    ensures
        exists|from: Seq<int>| #[trigger]
            prices_recorded(stats::prices_on(all, key), from, s, key),
{
    let order = choose|order: Seq<int>| #[trigger]
        s.price_order(order) && order.len() == all.len() && forall|k: int|
            0 <= k < all.len() ==> s.is_price(#[trigger] all[k], order[k]);
    let keys = all.map_values(|a: PricePoint| a.canonical_key@);
    let zeros = Seq::new(s.price_history@.len(), |i: int| 0i128);
    let p = places_of(keys, key);
    let from = p.map_values(|m: int| order[m]);
    let r = stats::prices_on(all, key);
    lemma_places_of(keys, key);
    lemma_prices_at(all, key);
    let keep = Seq::new(s.price_history@.len(), |i: int| s.is_latest(i));
    assert forall|k: int, l: int| 0 <= k < l < from.len() implies #[trigger] from[k]
        != #[trigger] from[l] by {
        assert(p[k] < p[l]);
        assert(from[k] == order[p[k]] && from[l] == order[p[l]]);
        assert(tables::listed_before(zeros, order[p[k]], order[p[l]]));
    }
    assert forall|k: int| 0 <= k < r.len() implies ({
        let row = s.price_history@[from[k]];
        &&& 0 <= from[k] < s.price_history@.len()
        &&& (#[trigger] r[k]).input_per_mtok == row.input_per_mtok
        &&& r[k].output_per_mtok == row.output_per_mtok
    }) by {
        assert(from[k] == order[p[k]]);
        assert(s.is_price(all[p[k]], order[p[k]]));
    }
    assert forall|i: int| 0 <= i < s.price_history@.len() implies ((
    #[trigger] s.price_history@[i]).canonical_key@ == key && newest_price(s, i)
        <==> from.contains(i)) by {
        lemma_newest_price(s, i);
        if s.price_history@[i].canonical_key@ == key && newest_price(s, i) {
            assert(keep[i]);
            assert(order.contains(i));
            let m = choose|m: int| 0 <= m < order.len() && order[m] == i;
            assert(s.is_price(all[m], order[m]));
            assert(keys[m] == key);
            let k = choose|k: int| 0 <= k < p.len() && p[k] == m;
            assert(from[k] == i);
        }
        if from.contains(i) {
            let k = choose|k: int| 0 <= k < from.len() && from[k] == i;
            assert(from[k] == order[p[k]]);
            assert(keep[order[p[k]]]);
            assert(s.is_price(all[p[k]], order[p[k]]));
            assert(keys[p[k]] == key);
        }
    }
    assert(prices_recorded(r, from, s, key));
}

/// What a row of the leaderboard is computed from is what the tables hold of its model.
pub proof fn lemma_leaderboard_learns_from_the_rows(
    list: Seq<RowBasis>,
    s: Tables,
    now: i64,
    i: int,
)
    requires
        s.wf(),
        stats::is_leaderboard(list, s, now),
        0 <= i < list.len(),
    ensures
        s.is_aggregate(list[i].aggregate, list[i].aggregate.canonical_key@),
        exists|from: Seq<int>| #[trigger]
            ratings_recorded(
                list[i].ratings@,
                from,
                s,
                list[i].aggregate.canonical_key@,
                now,
            ),
        exists|from: Seq<int>| #[trigger]
            failures_recorded(
                list[i].failures@,
                from,
                s,
                list[i].aggregate.canonical_key@,
                now,
            ),
        exists|from: Seq<int>| #[trigger]
            prices_recorded(list[i].prices@, from, s, list[i].aggregate.canonical_key@),
{
    let aggregates = list.map_values(|b: RowBasis| b.aggregate);
    let (ratings, failures, prices) = choose|
        ratings: Seq<AgedRating>,
        failures: Seq<AgedFailure>,
        prices: Seq<PricePoint>,
    |
        #![trigger s.ages_ratings(ratings, now), s.ages_failures(failures, now), s.lists_prices(prices)]
        s.ages_ratings(ratings, now) && s.ages_failures(failures, now) && s.lists_prices(prices)
            && s.are_aggregates(aggregates) && forall|i: int|
            0 <= i < list.len() ==> {
                let key = (#[trigger] list[i]).aggregate.canonical_key@;
                &&& list[i].ratings@ == pool::ratings_on(ratings, key)
                &&& list[i].failures@ == pool::failures_on(failures, key)
                &&& list[i].prices@ == stats::prices_on(prices, key)
            };
    let key = list[i].aggregate.canonical_key@;
    assert(aggregates[i] == list[i].aggregate);
    lemma_ratings_recorded(s, ratings, key, now);
    lemma_failures_recorded(s, failures, key, now);
    lemma_prices_recorded(s, prices, key);
}

/// The leaderboard has one row for every model that a session ran on, and no other.
pub proof fn lemma_leaderboard_covers_the_sessions(list: Seq<RowBasis>, s: Tables, now: i64)
    requires
        s.wf(),
        stats::is_leaderboard(list, s, now),
    ensures
        forall|j: int, key: Seq<char>|
            0 <= j < s.sessions@.len() && #[trigger] session_ran_on(s, s.sessions@[j], key)
                ==> exists|i: int|
                0 <= i < list.len() && (#[trigger] list[i]).aggregate.canonical_key@ == key,
        forall|i: int|
            0 <= i < list.len() ==> exists|j: int|
                0 <= j < s.sessions@.len() && session_ran_on(
                    s,
                    #[trigger] s.sessions@[j],
                    (#[trigger] list[i]).aggregate.canonical_key@,
                ),
        forall|i: int, k: int|
            0 <= i < k < list.len() ==> (#[trigger] list[i]).aggregate.canonical_key@ != (
            #[trigger] list[k]).aggregate.canonical_key@,
{
    let aggregates = list.map_values(|b: RowBasis| b.aggregate);
    let keys = aggregates.map_values(|a: ModelAggregate| a.canonical_key@);
    assert(s.are_aggregates(aggregates));
    assert forall|j: int, key: Seq<char>|
        0 <= j < s.sessions@.len() && #[trigger] session_ran_on(
            s,
            s.sessions@[j],
            key,
        ) implies exists|i: int|
        0 <= i < list.len() && (#[trigger] list[i]).aggregate.canonical_key@ == key by {
        lemma_session_ran_on(s, s.sessions@[j], key);
        assert(s.session_on(key)(j));
        assert(s.has_session(key));
        let i = choose|i: int| 0 <= i < keys.len() && keys[i] == key;
        assert(list[i].aggregate.canonical_key@ == key);
    }
    assert forall|i: int| 0 <= i < list.len() implies exists|j: int|
        0 <= j < s.sessions@.len() && session_ran_on(
            s,
            #[trigger] s.sessions@[j],
            (#[trigger] list[i]).aggregate.canonical_key@,
        ) by {
        let key = list[i].aggregate.canonical_key@;
        assert(keys[i] == key);
        assert(keys.contains(key));
        let j = choose|j: int| 0 <= j < s.sessions@.len() && #[trigger] s.session_on(key)(j);
        lemma_session_ran_on(s, s.sessions@[j], key);
        assert(session_ran_on(s, s.sessions@[j], key));
    }
    assert forall|i: int, k: int| 0 <= i < k < list.len() implies (
    #[trigger] list[i]).aggregate.canonical_key@ != (
    #[trigger] list[k]).aggregate.canonical_key@ by {
        assert(text::comes_before(keys[i], keys[k]));
        text::lemma_order_is_total(keys[i], keys[i]);
    }
}

/// A model is shown by its first alias: by the model token of it when blind, and by the slug that the
/// catalog has for it, at that alias's provider, when revealed.
pub proof fn lemma_aggregate_names_the_model(s: Tables, a: ModelAggregate, key: Seq<char>)
    requires
        s.wf(),
        s.is_aggregate(a, key),
    ensures
        exists|i: int|
            0 <= i < s.aliases@.len() && (forall|k: int|
                0 <= k < i ==> (#[trigger] s.aliases@[k]).canonical_key@ != key) && is_named_by(
                s,
                a,
                key,
                #[trigger] s.aliases@[i],
            ),
{
    tables::lemma_first_where(s.aliases@, store::masking_model(key));
    let i = s.model_alias_at(key)->Some_0;
    let row = s.aliases@[i];
    assert forall|k: int| 0 <= k < i implies (#[trigger] s.aliases@[k]).canonical_key@ != key by {
        assert(!store::masking_model(key)(s.aliases@[k]));
    }
    let fits = store::offering(row.canonical_key@, row.provider_slug@);
    tables::lemma_first_where(s.catalog@, fits);
    assert forall|c: int|
        0 <= c < s.catalog@.len() && (#[trigger] s.catalog@[c]).canonical_key@ == key
            && s.catalog@[c].provider_slug@ == row.provider_slug@ implies (
    a.real_slug matches Some(t) && t@ == s.catalog@[c].real_slug@) by {
        assert(fits(s.catalog@[c]));
        let first = s.model_at(row.canonical_key@, row.provider_slug@)->Some_0;
        assert(fits(s.catalog@[first]));
        reveal(store::once);
        assert(store::offer_key()(s.catalog@[c]) == store::offer_key()(s.catalog@[first]));
    }
    if a.real_slug is Some {
        let first = s.model_at(row.canonical_key@, row.provider_slug@)->Some_0;
        assert(fits(s.catalog@[first]));
    }
    assert(is_named_by(s, a, key, row));
}

/// Whether a model is shown by an alias.
pub open spec fn is_named_by(
    s: Tables,
    a: ModelAggregate,
    key: Seq<char>,
    row: store::AliasRow,
) -> bool {
    &&& row.canonical_key@ == key
    &&& a.model_token@ == row.alias.model_token@
    &&& a.alias@ == row.alias.provider_token@ + seq![':'] + row.alias.model_token@
    &&& forall|c: int|
        0 <= c < s.catalog@.len() && (#[trigger] s.catalog@[c]).canonical_key@ == key
            && s.catalog@[c].provider_slug@ == row.provider_slug@ ==> (
        a.real_slug matches Some(t) && t@ == s.catalog@[c].real_slug@)
    &&& a.real_slug is Some ==> exists|c: int|
        0 <= c < s.catalog@.len() && (#[trigger] s.catalog@[c]).canonical_key@ == key
            && s.catalog@[c].provider_slug@ == row.provider_slug@
}

/// Whether rows at the positions `from` are the ratings that stand and whose model is known, oldest
/// first.
pub open spec fn are_standing(s: Tables, from: Seq<int>) -> bool {
    &&& from.no_duplicates()
    &&& forall|k: int| 0 <= k < from.len() ==> 0 <= #[trigger] from[k] < s.ratings@.len()
    &&& forall|i: int|
        0 <= i < s.ratings@.len() ==> (from.contains(i) <==> exists|key: Seq<char>| #[trigger]
            stands_for(s, #[trigger] s.ratings@[i], key))
    &&& forall|k: int, l: int|
        0 <= k < l < from.len() ==> s.ratings@[#[trigger] from[k]].rated_at
            <= s.ratings@[#[trigger] from[l]].rated_at
}

/// The order of the ratings that count lists the ratings that stand.
proof fn lemma_order_is_standing(s: Tables, order: Seq<int>)
    requires
        s.wf(),
        s.effective_order(order),
    ensures
        are_standing(s, order),
{
    let keep = Seq::new(s.ratings@.len(), |i: int| s.counts(i));
    assert forall|i: int| 0 <= i < s.ratings@.len() implies (order.contains(i) <==> exists|
        key: Seq<char>,
    | #[trigger]
        stands_for(s, #[trigger] s.ratings@[i], key)) by {
        lemma_stands(s, s.ratings@[i]);
        if order.contains(i) {
            let k = choose|k: int| 0 <= k < order.len() && order[k] == i;
            assert(keep[order[k]]);
            let key = s.session_key(s.ratings@[i].session_id)->Some_0;
            lemma_ran_on(s, s.ratings@[i].session_id, key);
            assert(stands_for(s, s.ratings@[i], key));
        }
        if exists|key: Seq<char>| #[trigger] stands_for(s, s.ratings@[i], key) {
            let key = choose|key: Seq<char>| #[trigger] stands_for(s, s.ratings@[i], key);
            lemma_ran_on(s, s.ratings@[i].session_id, key);
            assert(keep[i]);
        }
    }
    assert forall|k: int, l: int| 0 <= k < l < order.len() implies s.ratings@[#[trigger] order[k]].rated_at
        <= s.ratings@[#[trigger] order[l]].rated_at && order[k] != order[l] by {
        assert(tables::listed_before(s.rating_times(), order[k], order[l]));
        assert(0 <= order[k] < s.rating_times().len());
        assert(0 <= order[l] < s.rating_times().len());
    }
}

/// The ratings that count are the rows that stand, each with its model, its points and its age.
pub proof fn lemma_aged_ratings_are_the_rows(s: Tables, list: Seq<AgedRating>, now: i64)
    requires
        s.wf(),
        s.ages_ratings(list, now),
    ensures
        exists|from: Seq<int>| #[trigger]
            are_standing(s, from) && from.len() == list.len() && forall|k: int|
                0 <= k < list.len() ==> {
                    let row = s.ratings@[from[k]];
                    &&& ran_on(s, row.session_id, (#[trigger] list[k]).canonical_key@)
                    &&& list[k].performance_points == row.performance_points
                    &&& list[k].difficulty_points == row.difficulty_points
                    &&& list[k].age_seconds == seconds_since(now, row.rated_at)
                },
{
    let order = choose|order: Seq<int>| #[trigger]
        s.effective_order(order) && order.len() == list.len() && forall|k: int|
            0 <= k < list.len() ==> s.is_aged_rating(#[trigger] list[k], order[k], now);
    lemma_order_is_standing(s, order);
    assert forall|k: int| 0 <= k < list.len() implies ({
        let row = s.ratings@[order[k]];
        &&& ran_on(s, row.session_id, (#[trigger] list[k]).canonical_key@)
        &&& list[k].performance_points == row.performance_points
        &&& list[k].difficulty_points == row.difficulty_points
        &&& list[k].age_seconds == seconds_since(now, row.rated_at)
    }) by {
        assert(s.is_aged_rating(list[k], order[k], now));
        lemma_ran_on(s, s.ratings@[order[k]].session_id, list[k].canonical_key@);
    }
}

/// The ratings that count are the rows that stand, each with its model, its points and its time.
pub proof fn lemma_effective_ratings_are_the_rows(s: Tables, list: Seq<store::EffectiveRating>)
    requires
        s.wf(),
        exists|order: Seq<int>| #[trigger]
            s.effective_order(order) && order.len() == list.len() && forall|k: int|
                0 <= k < list.len() ==> s.is_rating(#[trigger] list[k], order[k]),
    ensures
        exists|from: Seq<int>| #[trigger]
            are_standing(s, from) && from.len() == list.len() && forall|k: int|
                0 <= k < list.len() ==> {
                    let row = s.ratings@[from[k]];
                    &&& ran_on(s, row.session_id, (#[trigger] list[k]).canonical_key@)
                    &&& list[k].performance_points == row.performance_points
                    &&& list[k].difficulty_points == row.difficulty_points
                    &&& list[k].rated_at == row.rated_at
                },
{
    let order = choose|order: Seq<int>| #[trigger]
        s.effective_order(order) && order.len() == list.len() && forall|k: int|
            0 <= k < list.len() ==> s.is_rating(#[trigger] list[k], order[k]);
    lemma_order_is_standing(s, order);
    assert forall|k: int| 0 <= k < list.len() implies ({
        let row = s.ratings@[order[k]];
        &&& ran_on(s, row.session_id, (#[trigger] list[k]).canonical_key@)
        &&& list[k].performance_points == row.performance_points
        &&& list[k].difficulty_points == row.difficulty_points
        &&& list[k].rated_at == row.rated_at
    }) by {
        assert(s.is_rating(list[k], order[k]));
        lemma_ran_on(s, s.ratings@[order[k]].session_id, list[k].canonical_key@);
    }
}

} // verus!
