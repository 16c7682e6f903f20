//! The candidate pool: seeding the store from the config, and gathering what is known of every
//! configured model.

use vstd::prelude::*;

use crate::alias;
use crate::alias::{mint_token, Alias, TOKEN_LEN};
use crate::config;
use crate::config::{Config, ModelConfig, ProviderConfig};
use crate::double::Double;
use crate::registers;
use crate::selector::{Failure, Rating};
use crate::store;
use crate::store::{AgedFailure, AgedRating, Store, StoreError, Tables};
use crate::tables;
use crate::text;
use crate::text::{chars_of, same_text, trim};

verus! {

/// Whether a token is as it is minted.
pub open spec fn minted(t: Seq<char>) -> bool {
    t.len() == TOKEN_LEN && forall|i: int| 0 <= i < t.len() ==> alias::in_alphabet(#[trigger] t[i])
}

/// Whether every alias of a model has the same model token, and every alias of a provider the same
/// provider token.
pub open spec fn tokens_shared(s: Tables) -> bool {
    &&& forall|i: int, j: int|
        0 <= i < s.aliases@.len() && 0 <= j < s.aliases@.len() && (
        #[trigger] s.aliases@[i]).canonical_key@ == (#[trigger] s.aliases@[j]).canonical_key@
            ==> s.aliases@[i].alias.model_token@ == s.aliases@[j].alias.model_token@
    &&& forall|i: int, j: int|
        0 <= i < s.aliases@.len() && 0 <= j < s.aliases@.len() && (
        #[trigger] s.aliases@[i]).provider_slug@ == (#[trigger] s.aliases@[j]).provider_slug@
            ==> s.aliases@[i].alias.provider_token@ == s.aliases@[j].alias.provider_token@
}

/// Whether these may be the tokens of a new alias of a model at a provider: the model's and the
/// provider's tokens are reused where there are any, and fresh where there are none.
pub open spec fn may_mask(
    s: Tables,
    provider_token: Seq<char>,
    model_token: Seq<char>,
    canonical_key: Seq<char>,
    provider_slug: Seq<char>,
) -> bool {
    &&& match s.model_alias_at(canonical_key) {
        Some(i) => model_token == s.aliases@[i].alias.model_token@,
        None => minted(model_token),
    }
    &&& match s.provider_alias_at(provider_slug) {
        Some(i) => provider_token == s.aliases@[i].alias.provider_token@,
        None => minted(provider_token),
    }
}

/// Whether `next` is the store with an alias of these tokens added for a model at a provider.
pub open spec fn alias_minted(
    s: Tables,
    next: Tables,
    provider_token: Seq<char>,
    model_token: Seq<char>,
    canonical_key: Seq<char>,
    provider_slug: Seq<char>,
) -> bool {
    &&& s.alias_at(alias::shown(provider_token, model_token)) is None
    &&& s.alias_added(next, provider_token, model_token, canonical_key, provider_slug)
    &&& may_mask(s, provider_token, model_token, canonical_key, provider_slug)
}

/// Whether tokens of a new alias of a model at a provider may come out as an alias that is taken.
pub open spec fn may_collide(s: Tables, canonical_key: Seq<char>, provider_slug: Seq<char>) -> bool {
    exists|pt: Seq<char>, mt: Seq<char>| #[trigger]
        may_mask(s, pt, mt, canonical_key, provider_slug) && s.alias_at(
            alias::shown(pt, mt),
        ) is Some
}

/// Reuses or mints the alias of a model at a provider. The model token is shared by every provider
/// that offers the model, the provider token by every model of the provider: the aliases show
/// sameness and no names. A freshly minted alias that happens to be shown like another is refused.
pub fn ensure_alias(
    s: &mut Store,
    canonical_key: &str,
    provider_slug: &str,
    rng: &mut rand::rngs::StdRng,
) -> (r: Result<Alias, StoreError>)
    ensures
        final(s)@.wf(),
        final(s)@.extends(old(s)@),
        match r {
            Ok(a) => match old(s)@.pair_alias_at(canonical_key@, provider_slug@) {
                Some(i) => final(s)@ == old(s)@ && a.provider_token@
                    == old(s)@.aliases@[i].alias.provider_token@ && a.model_token@
                    == old(s)@.aliases@[i].alias.model_token@,
                None => alias_minted(
                    old(s)@,
                    final(s)@,
                    a.provider_token@,
                    a.model_token@,
                    canonical_key@,
                    provider_slug@,
                ),
            },
            Err(e) => e == StoreError::AliasTaken && old(s)@.pair_alias_at(
                canonical_key@,
                provider_slug@,
            ) is None && may_collide(old(s)@, canonical_key@, provider_slug@) && final(s)@ == old(s)@,
        },
{
    proof {
        use_type_invariant(&*s);
        store::lemma_logs_begin(s@);
    }
    if let Some(a) = s.alias_for(canonical_key, provider_slug) {
        return Ok(a);
    }
    let model_token: String = match s.model_token_for(canonical_key) {
        Some(t) => t,
        None => mint_token(rng, TOKEN_LEN),
    };
    let provider_token: String = match s.provider_token_for(provider_slug) {
        Some(t) => t,
        None => mint_token(rng, TOKEN_LEN),
    };
    let a: Alias = Alias { provider_token, model_token };
    proof {
        assert(may_mask(
            s@,
            a.provider_token@,
            a.model_token@,
            canonical_key@,
            provider_slug@,
        ));
    }
    match s.insert_alias(&a, canonical_key, provider_slug) {
        Ok(_) => Ok(a),
        Err(e) => Err(e),
    }
}

/// Minting keeps the tokens shared: the same model is recognisable under every provider.
pub proof fn lemma_tokens_stay_shared(
    s: Tables,
    next: Tables,
    provider_token: Seq<char>,
    model_token: Seq<char>,
    canonical_key: Seq<char>,
    provider_slug: Seq<char>,
)
    requires
        tokens_shared(s),
        alias_minted(s, next, provider_token, model_token, canonical_key, provider_slug),
    ensures
        tokens_shared(next),
{
    tables::lemma_first_where(s.aliases@, store::masking_model(canonical_key));
    tables::lemma_first_where(s.aliases@, store::masking_provider(provider_slug));
    let n = s.aliases@.len() as int;
    assert forall|i: int, j: int|
        0 <= i < next.aliases@.len() && 0 <= j < next.aliases@.len() && (
        #[trigger] next.aliases@[i]).canonical_key@ == (#[trigger] next.aliases@[j]).canonical_key@
        implies next.aliases@[i].alias.model_token@ == next.aliases@[j].alias.model_token@ by {
        if i < n && j < n {
            assert(next.aliases@[i] == s.aliases@[i] && next.aliases@[j] == s.aliases@[j]);
        } else if i < n {
            assert(next.aliases@[i] == s.aliases@[i]);
            assert(store::masking_model(canonical_key)(s.aliases@[i]));
        } else if j < n {
            assert(next.aliases@[j] == s.aliases@[j]);
            assert(store::masking_model(canonical_key)(s.aliases@[j]));
        }
    }
    assert forall|i: int, j: int|
        0 <= i < next.aliases@.len() && 0 <= j < next.aliases@.len() && (
        #[trigger] next.aliases@[i]).provider_slug@ == (#[trigger] next.aliases@[j]).provider_slug@
        implies next.aliases@[i].alias.provider_token@ == next.aliases@[j].alias.provider_token@ by {
        if i < n && j < n {
            assert(next.aliases@[i] == s.aliases@[i] && next.aliases@[j] == s.aliases@[j]);
        } else if i < n {
            assert(next.aliases@[i] == s.aliases@[i]);
            assert(store::masking_provider(provider_slug)(s.aliases@[i]));
        } else if j < n {
            assert(next.aliases@[j] == s.aliases@[j]);
            assert(store::masking_provider(provider_slug)(s.aliases@[j]));
        }
    }
}

/// Whether the latest price of a model at a provider is the configured one.
pub open spec fn settled(s: Tables, slug: Seq<char>, m: ModelConfig) -> bool {
    store::same_price(s.price_of(m.canonical_key@, slug).0, m.input_per_mtok) && store::same_price(
        s.price_of(m.canonical_key@, slug).1,
        m.output_per_mtok,
    )
}

/// Whether a model's slug at a provider is registered as configured.
pub open spec fn offered(s: Tables, slug: Seq<char>, m: ModelConfig) -> bool {
    s.model_at(m.canonical_key@, slug) matches Some(i) && s.catalog@[i].real_slug@ == m.real_slug@
}

/// Whether a provider is registered as configured.
pub open spec fn registered(s: Tables, p: ProviderConfig) -> bool {
    s.provider_at(p.slug@) matches Some(i) && s.providers@[i].base_url@ == p.base_url@
        && s.providers@[i].wire@ == p.wire@
}

/// Whether two stores have the same events: sessions, their ends, ratings and reveals.
pub open spec fn same_events(a: Tables, b: Tables) -> bool {
    a.sessions == b.sessions && a.session_end == b.session_end && a.ratings == b.ratings
        && a.reveals == b.reveals
}

/// Whether no price was observed later than `now`.
pub open spec fn observed_by(s: Tables, now: i64) -> bool {
    forall|k: int|
        0 <= k < s.price_history@.len() ==> (#[trigger] s.price_history@[k]).observed_at <= now
}

/// Whether `next` is the store with some alias minted for a model at a provider.
pub open spec fn newly_masked(
    s: Tables,
    next: Tables,
    canonical_key: Seq<char>,
    provider_slug: Seq<char>,
) -> bool {
    exists|pt: Seq<char>, mt: Seq<char>| #[trigger]
        alias_minted(s, next, pt, mt, canonical_key, provider_slug)
}

/// Whether `next` is the store with a configured model's slug and price reflected.
pub open spec fn model_entered(
    s: Tables,
    next: Tables,
    slug: Seq<char>,
    m: ModelConfig,
    now: i64,
) -> bool {
    &&& same_events(next, s)
    &&& next.providers == s.providers
    &&& s.model_set(
        Tables { catalog: next.catalog, ..s },
        m.canonical_key@,
        slug,
        m.real_slug@,
    )
    &&& s.price_observed(
        Tables { price_history: next.price_history, ..s },
        m.canonical_key@,
        slug,
        m.input_per_mtok,
        m.output_per_mtok,
        now,
    )
}

/// Whether `next` is the store with a configured model reflected: its slug, its price where that
/// has changed, and its alias where it had none.
pub open spec fn model_reflected(
    s: Tables,
    next: Tables,
    slug: Seq<char>,
    m: ModelConfig,
    now: i64,
) -> bool {
    &&& model_entered(s, next, slug, m, now)
    &&& if s.pair_alias_at(m.canonical_key@, slug) is Some {
        next.aliases == s.aliases
    } else {
        newly_masked(s, Tables { aliases: next.aliases, ..s }, m.canonical_key@, slug)
    }
}

/// Whether `next` is the store with a configured model's slug and price reflected, but no alias,
/// since the minted one is taken.
pub open spec fn model_refused(
    s: Tables,
    next: Tables,
    slug: Seq<char>,
    m: ModelConfig,
    now: i64,
) -> bool {
    &&& model_entered(s, next, slug, m, now)
    &&& s.pair_alias_at(m.canonical_key@, slug) is None
    &&& may_collide(s, m.canonical_key@, slug)
    &&& next.aliases == s.aliases
}

/// Whether `states` lead from `s0` to `s` by reflecting the models of a provider, one after the
/// other.
pub open spec fn models_trail(
    states: Seq<Tables>,
    s0: Tables,
    s: Tables,
    slug: Seq<char>,
    models: Seq<ModelConfig>,
    now: i64,
) -> bool {
    &&& states.len() == models.len() + 1
    &&& states[0] == s0
    &&& states[models.len() as int] == s
    &&& forall|k: int|
        0 <= k < models.len() ==> model_reflected(
            #[trigger] states[k],
            states[k + 1],
            slug,
            models[k],
            now,
        )
}

/// Whether `s` is the store `s0` with the models of a provider reflected, one after the other.
pub open spec fn models_reflected(
    s0: Tables,
    s: Tables,
    slug: Seq<char>,
    models: Seq<ModelConfig>,
    now: i64,
) -> bool {
    exists|states: Seq<Tables>| #[trigger] models_trail(states, s0, s, slug, models, now)
}

/// Whether `s` is the store `s0` with a provider reflected, then its models.
pub open spec fn provider_reflected(s0: Tables, s: Tables, p: ProviderConfig, now: i64) -> bool {
    exists|entered: Tables|
        s0.provider_set(entered, p.slug@, p.base_url@, p.wire@) && #[trigger] models_reflected(
            entered,
            s,
            p.slug@,
            p.models@,
            now,
        )
}

/// Whether `states` lead from `s0` to `s` by reflecting the providers, one after the other.
pub open spec fn pool_trail(
    states: Seq<Tables>,
    s0: Tables,
    s: Tables,
    ps: Seq<ProviderConfig>,
    now: i64,
) -> bool {
    &&& states.len() == ps.len() + 1
    &&& states[0] == s0
    &&& states[ps.len() as int] == s
    &&& forall|k: int|
        0 <= k < ps.len() ==> provider_reflected(#[trigger] states[k], states[k + 1], ps[k], now)
}

/// Whether `s` is the store `s0` with the configured providers reflected, one after the other, each
/// with its models.
pub open spec fn pool_reflected(s0: Tables, s: Tables, ps: Seq<ProviderConfig>, now: i64) -> bool {
    exists|states: Seq<Tables>| #[trigger] pool_trail(states, s0, s, ps, now)
}

/// Whether `s` is where reflecting the configured providers into `s0` stops at one model, since the
/// alias minted for it is taken.
pub open spec fn pool_refused_at(
    s0: Tables,
    s: Tables,
    ps: Seq<ProviderConfig>,
    i: int,
    j: int,
    now: i64,
) -> bool {
    let p = ps[i];
    &&& 0 <= i < ps.len()
    &&& 0 <= j < p.models@.len()
    &&& exists|a: Tables, b: Tables, mid: Tables| #[trigger]
        pool_reflected(s0, a, ps.take(i), now) && a.provider_set(
            b,
            p.slug@,
            p.base_url@,
            p.wire@,
        ) && #[trigger] models_reflected(b, mid, p.slug@, p.models@.take(j), now) && model_refused(
            mid,
            s,
            p.slug@,
            p.models@[j],
            now,
        )
}

/// Reflects one configured model into the store: its slug, its price where that has changed, and
/// its alias where it has none.
pub fn seed_model(
    s: &mut Store,
    provider_slug: &str,
    m: &ModelConfig,
    rng: &mut rand::rngs::StdRng,
    now: i64,
) -> (r: Result<(), StoreError>)
    ensures
        final(s)@.wf(),
        final(s)@.extends(old(s)@),
        match r {
            Ok(_) => model_reflected(old(s)@, final(s)@, provider_slug@, *m, now),
            Err(e) => e == StoreError::AliasTaken && model_refused(
                old(s)@,
                final(s)@,
                provider_slug@,
                *m,
                now,
            ),
        },
{
    let ghost s0 = s@;
    s.upsert_model(m.canonical_key.as_str(), provider_slug, m.real_slug.as_str());
    let ghost s1 = s@;
    s.record_price_if_changed(
        m.canonical_key.as_str(),
        provider_slug,
        m.input_per_mtok,
        m.output_per_mtok,
        now,
    );
    let ghost s2 = s@;
    let r = ensure_alias(s, m.canonical_key.as_str(), provider_slug, rng);
    proof {
        store::lemma_history_is_kept(s0, s1, s2);
        store::lemma_history_is_kept(s0, s2, s@);
    }
    match r {
        Ok(a) => {
            proof {
                if s0.pair_alias_at(m.canonical_key@, provider_slug@) is None {
                    assert(alias_minted(
                        s0,
                        Tables { aliases: s@.aliases, ..s0 },
                        a.provider_token@,
                        a.model_token@,
                        m.canonical_key@,
                        provider_slug@,
                    ));
                }
            }
            Ok(())
        },
        Err(e) => {
            proof {
                let key = m.canonical_key@;
                let (pt, mt) = choose|pt: Seq<char>, mt: Seq<char>| #[trigger]
                    may_mask(s2, pt, mt, key, provider_slug@) && s2.alias_at(
                        alias::shown(pt, mt),
                    ) is Some;
                assert(may_mask(s0, pt, mt, key, provider_slug@));
            }
            Err(e)
        },
    }
}

/// Whether there is a model at these positions of the config.
pub open spec fn in_pool(cfg: Config, pi: int, mi: int) -> bool {
    0 <= pi < cfg.providers@.len() && 0 <= mi < cfg.providers@[pi].models@.len()
}

/// The model at these positions of the config.
pub open spec fn model(cfg: Config, pi: int, mi: int) -> ModelConfig {
    cfg.providers@[pi].models@[mi]
}

/// Whether the model at these positions has an alias.
pub open spec fn masked(s: Tables, cfg: Config, pi: int, mi: int) -> bool {
    s.pair_alias_at(model(cfg, pi, mi).canonical_key@, cfg.providers@[pi].slug@) is Some
}

/// Whether every configured model has an alias.
pub open spec fn all_masked(s: Tables, cfg: Config) -> bool {
    forall|pi: int, mi: int| in_pool(cfg, pi, mi) ==> #[trigger] masked(s, cfg, pi, mi)
}

/// Whether the latest price of the model at these positions is the configured one.
pub open spec fn priced(s: Tables, cfg: Config, pi: int, mi: int) -> bool {
    settled(s, cfg.providers@[pi].slug@, model(cfg, pi, mi))
}

/// Whether the latest price of every configured model is the configured one.
pub open spec fn all_priced(s: Tables, cfg: Config) -> bool {
    forall|pi: int, mi: int| in_pool(cfg, pi, mi) ==> #[trigger] priced(s, cfg, pi, mi)
}

/// Whether the prices of the models at these positions are the same numbers.
pub open spec fn same_prices(cfg: Config, pi: int, mi: int, qi: int, ni: int) -> bool {
    store::same_price(model(cfg, pi, mi).input_per_mtok, model(cfg, qi, ni).input_per_mtok)
        && store::same_price(
        model(cfg, pi, mi).output_per_mtok,
        model(cfg, qi, ni).output_per_mtok,
    )
}

/// Whether all prices are numbers, and a model that is listed more than once for a provider has the
/// same prices each time.
pub open spec fn agreed_prices(cfg: Config) -> bool {
    forall|pi: int, mi: int, qi: int, ni: int|
        in_pool(cfg, pi, mi) && in_pool(cfg, qi, ni) && model(cfg, pi, mi).canonical_key@ == model(
            cfg,
            qi,
            ni,
        ).canonical_key@ && cfg.providers@[pi].slug@ == cfg.providers@[qi].slug@
            ==> #[trigger] same_prices(cfg, pi, mi, qi, ni)
}

/// Whether the slug of the model at these positions is the configured one.
pub open spec fn listed(s: Tables, cfg: Config, pi: int, mi: int) -> bool {
    offered(s, cfg.providers@[pi].slug@, model(cfg, pi, mi))
}

/// Whether no two providers share a slug, and no two models of a provider a key.
pub open spec fn distinct_pool(cfg: Config) -> bool {
    &&& forall|a: int, b: int|
        0 <= a < b < cfg.providers@.len() ==> (#[trigger] cfg.providers@[a]).slug@ != (
        #[trigger] cfg.providers@[b]).slug@
    &&& forall|p: int, a: int, b: int|
        0 <= p < cfg.providers@.len() && 0 <= a < b < cfg.providers@[p].models@.len() ==> (
        #[trigger] cfg.providers@[p].models@[a]).canonical_key@ != (
        #[trigger] cfg.providers@[p].models@[b]).canonical_key@
}

/// The providers of a store as a register: slugs with their address and wire format.
pub open spec fn provider_register(s: Tables) -> Seq<(Seq<char>, (Seq<char>, Seq<char>))> {
    s.providers@.map_values(|p: store::ProviderRow| (p.slug@, (p.base_url@, p.wire@)))
}

/// The catalog of a store as a register: models at providers with their slugs.
pub open spec fn catalog_register(s: Tables) -> Seq<((Seq<char>, Seq<char>), Seq<char>)> {
    s.catalog@.map_values(
        |c: store::CatalogRow| ((c.canonical_key@, c.provider_slug@), c.real_slug@),
    )
}

/// The entries that configured providers make.
pub open spec fn provider_entries(ps: Seq<ProviderConfig>) -> Seq<
    (Seq<char>, (Seq<char>, Seq<char>)),
> {
    ps.map_values(|p: ProviderConfig| (p.slug@, (p.base_url@, p.wire@)))
}

/// The entries that the models of a provider make.
pub open spec fn model_entries(slug: Seq<char>, models: Seq<ModelConfig>) -> Seq<
    ((Seq<char>, Seq<char>), Seq<char>),
> {
    models.map_values(|m: ModelConfig| ((m.canonical_key@, slug), m.real_slug@))
}

/// The entries that the models of configured providers make.
pub open spec fn pool_entries(ps: Seq<ProviderConfig>) -> Seq<
    ((Seq<char>, Seq<char>), Seq<char>),
>
    decreases ps.len(),
{
    if ps.len() == 0 {
        Seq::empty()
    } else {
        pool_entries(ps.drop_last()) + model_entries(ps.last().slug@, ps.last().models@)
    }
}

/// The entries that the models before position `i`, `j` make.
pub open spec fn entries_up_to(ps: Seq<ProviderConfig>, i: int, j: int) -> Seq<
    ((Seq<char>, Seq<char>), Seq<char>),
> {
    pool_entries(ps.take(i)) + (if 0 <= i < ps.len() {
        model_entries(ps[i].slug@, ps[i].models@.take(j))
    } else {
        Seq::empty()
    })
}

/// Whether no model has two aliases at one provider.
pub open spec fn pairs_once(s: Tables) -> bool {
    forall|i: int, j: int|
        0 <= i < j < s.aliases@.len() ==> (#[trigger] s.aliases@[i]).canonical_key@ != (
        #[trigger] s.aliases@[j]).canonical_key@ || s.aliases@[i].provider_slug@
            != s.aliases@[j].provider_slug@
}

/// Whether a model at a provider has no price.
pub open spec fn never_priced(s: Tables, key: Seq<char>, slug: Seq<char>) -> bool {
    forall|k: int|
        0 <= k < s.price_history@.len() ==> (#[trigger] s.price_history@[k]).canonical_key@ != key
            || s.price_history@[k].provider_slug@ != slug
}

/// Whether a model at a provider is configured without prices wherever it is configured.
pub open spec fn free_of_charge(cfg: Config, key: Seq<char>, slug: Seq<char>) -> bool {
    forall|pi: int, mi: int|
        in_pool(cfg, pi, mi) && (#[trigger] model(cfg, pi, mi)).canonical_key@ == key
            && cfg.providers@[pi].slug@ == slug ==> model(cfg, pi, mi).input_per_mtok is None
            && model(cfg, pi, mi).output_per_mtok is None
}

/// Whether seeding from the store `s0` has come to `s` with the first `n` providers registered and
/// every model before position `i`, `j` reflected.
pub open spec fn seeded_up_to(
    s0: Tables,
    s: Tables,
    cfg: Config,
    n: int,
    i: int,
    j: int,
    now: i64,
) -> bool {
    &&& s0.wf() ==> s.wf()
    &&& s.extends(s0)
    &&& same_events(s, s0)
    &&& tokens_shared(s0) ==> tokens_shared(s)
    &&& all_masked(s0, cfg) ==> s.aliases == s0.aliases
    &&& all_priced(s0, cfg) ==> s.price_history == s0.price_history
    &&& observed_by(s0, now) ==> observed_by(s, now)
    &&& provider_register(s) == registers::all_entered(
        provider_register(s0),
        provider_entries(cfg.providers@.take(n)),
    )
    &&& catalog_register(s) == registers::all_entered(
        catalog_register(s0),
        entries_up_to(cfg.providers@, i, j),
    )
    &&& pairs_once(s0) ==> pairs_once(s)
    &&& forall|key: Seq<char>, slug: Seq<char>|
        never_priced(s0, key, slug) && free_of_charge(cfg, key, slug) ==> #[trigger] never_priced(
            s,
            key,
            slug,
        )
    &&& forall|pi: int, mi: int|
        in_pool(cfg, pi, mi) && (pi < i || (pi == i && mi < j)) ==> #[trigger] masked(
            s,
            cfg,
            pi,
            mi,
        )
    &&& distinct_pool(cfg) ==> {
        &&& forall|pi: int| 0 <= pi < n ==> registered(s, #[trigger] cfg.providers@[pi])
        &&& forall|pi: int, mi: int|
            in_pool(cfg, pi, mi) && (pi < i || (pi == i && mi < j)) ==> #[trigger] listed(
                s,
                cfg,
                pi,
                mi,
            )
    }
    &&& observed_by(s0, now) && agreed_prices(cfg) ==> forall|pi: int, mi: int|
        in_pool(cfg, pi, mi) && (pi < i || (pi == i && mi < j)) ==> #[trigger] priced(
            s,
            cfg,
            pi,
            mi,
        )
}

/// Registering the next provider is a step of seeding.
proof fn lemma_provider_step(s0: Tables, s: Tables, next: Tables, cfg: Config, i: int, now: i64)
    requires
        0 <= i < cfg.providers@.len(),
        seeded_up_to(s0, s, cfg, i, i, 0, now),
        s.provider_set(
            next,
            cfg.providers@[i].slug@,
            cfg.providers@[i].base_url@,
            cfg.providers@[i].wire@,
        ),
        s.wf() ==> next.wf(),
        next.extends(s),
    ensures
        seeded_up_to(s0, next, cfg, i + 1, i, 0, now),
{
    let p = cfg.providers@[i];
    store::lemma_history_is_kept(s0, s, next);
    let at = match s.provider_at(p.slug@) {
        Some(k) => k,
        None => s.providers@.len() as int,
    };
    let row = next.providers@[at];
    tables::lemma_first_where(s.providers@, store::with_slug(p.slug@));
    tables::lemma_set_row_is_found(s.providers@, next.providers@, row, store::with_slug(p.slug@));
    lemma_provider_entered(s, next, p);
    let entries = provider_entries(cfg.providers@.take(i + 1));
    assert(entries.drop_last() =~= provider_entries(cfg.providers@.take(i)));
    assert(entries.last() == (p.slug@, (p.base_url@, p.wire@)));
    assert forall|key: Seq<char>, slug: Seq<char>|
        never_priced(s0, key, slug) && free_of_charge(cfg, key, slug) implies #[trigger] never_priced(
        next,
        key,
        slug,
    ) by {
        assert(never_priced(s, key, slug));
    }
    if distinct_pool(cfg) {
        assert forall|pi: int| 0 <= pi < i + 1 implies registered(
            next,
            #[trigger] cfg.providers@[pi],
        ) by {
            if pi < i {
                let other = cfg.providers@[pi];
                assert(other.slug@ != p.slug@);
                tables::lemma_set_row_keeps(
                    s.providers@,
                    next.providers@,
                    row,
                    store::with_slug(p.slug@),
                    store::with_slug(other.slug@),
                );
                assert(registered(s, other));
            }
        }
        assert forall|pi: int, mi: int|
            in_pool(cfg, pi, mi) && (pi < i || (pi == i && mi < 0)) implies #[trigger] listed(
            next,
            cfg,
            pi,
            mi,
        ) by {
            assert(listed(s, cfg, pi, mi));
        }
    }
    if observed_by(s0, now) && agreed_prices(cfg) {
        assert forall|pi: int, mi: int|
            in_pool(cfg, pi, mi) && (pi < i || (pi == i && mi < 0)) implies #[trigger] priced(
            next,
            cfg,
            pi,
            mi,
        ) by {
            assert(priced(s, cfg, pi, mi));
        }
    }
    assert forall|pi: int, mi: int|
        in_pool(cfg, pi, mi) && (pi < i || (pi == i && mi < 0)) implies #[trigger] masked(
        next,
        cfg,
        pi,
        mi,
    ) by {
        assert(masked(s, cfg, pi, mi));
    }
}

/// Reflecting the next model is a step of seeding.
proof fn lemma_model_step(
    s0: Tables,
    s: Tables,
    next: Tables,
    cfg: Config,
    i: int,
    j: int,
    now: i64,
)
    requires
        in_pool(cfg, i, j),
        seeded_up_to(s0, s, cfg, i + 1, i, j, now),
        s.wf() ==> next.wf(),
        next.extends(s),
        model_reflected(s, next, cfg.providers@[i].slug@, model(cfg, i, j), now),
    ensures
        seeded_up_to(s0, next, cfg, i + 1, i, j + 1, now),
{
    let m = model(cfg, i, j);
    let key = m.canonical_key@;
    let slug = cfg.providers@[i].slug@;
    store::lemma_history_is_kept(s0, s, next);
    if all_masked(s0, cfg) {
        assert(masked(s0, cfg, i, j));
    }
    if all_priced(s0, cfg) {
        assert(priced(s0, cfg, i, j));
    }
    let with_alias = Tables { aliases: next.aliases, ..s };
    if !masked(s, cfg, i, j) {
        let (pt, mt) = choose|pt: Seq<char>, mt: Seq<char>| #[trigger]
            alias_minted(s, with_alias, pt, mt, key, slug);
        if tokens_shared(s) {
            lemma_tokens_stay_shared(s, with_alias, pt, mt, key, slug);
        }
        tables::lemma_first_stays(s.aliases@, next.aliases@.last(), store::masking(key, slug));
        if pairs_once(s) {
            tables::lemma_first_where(s.aliases@, store::masking(key, slug));
            assert forall|a: int, b: int| 0 <= a < b < next.aliases@.len() implies (
            #[trigger] next.aliases@[a]).canonical_key@ != (
            #[trigger] next.aliases@[b]).canonical_key@ || next.aliases@[a].provider_slug@
                != next.aliases@[b].provider_slug@ by {
                assert(next.aliases@[a] == s.aliases@[a]);
                if b < s.aliases@.len() {
                    assert(next.aliases@[b] == s.aliases@[b]);
                } else {
                    assert(!store::masking(key, slug)(s.aliases@[a]));
                }
            }
        }
    }
    lemma_catalog_step(s0, s, next, cfg, i, j);
    lemma_free_step(s0, s, next, cfg, i, j, now);
    assert forall|pi: int, mi: int|
        in_pool(cfg, pi, mi) && (pi < i || (pi == i && mi < j + 1)) implies #[trigger] masked(
        next,
        cfg,
        pi,
        mi,
    ) by {
        if pi < i || mi < j {
            assert(masked(s, cfg, pi, mi));
            if !masked(s, cfg, i, j) {
                tables::lemma_first_stays(
                    s.aliases@,
                    next.aliases@.last(),
                    store::masking(model(cfg, pi, mi).canonical_key@, cfg.providers@[pi].slug@),
                );
            }
        }
    }
    let with_price = Tables { price_history: next.price_history, ..s };
    if observed_by(s, now) {
        assert forall|k: int| 0 <= k < next.price_history@.len() implies (
        #[trigger] next.price_history@[k]).observed_at <= now by {
            if k < s.price_history@.len() {
                assert(next.price_history@[k] == s.price_history@[k]);
            }
        }
    }
    if distinct_pool(cfg) {
        lemma_registries_step(s0, s, next, cfg, i, j, now);
    }
    if observed_by(s0, now) && agreed_prices(cfg) {
        lemma_prices_step(s0, s, next, cfg, i, j, now);
    }
}

/// Setting a provider enters it into the register.
proof fn lemma_provider_entered(s: Tables, next: Tables, p: ProviderConfig)
    requires
        s.provider_set(next, p.slug@, p.base_url@, p.wire@),
    ensures
        provider_register(next) == registers::entered(
            provider_register(s),
            (p.slug@, (p.base_url@, p.wire@)),
        ),
{
    let register = provider_register(s);
    let fits = registers::keyed::<Seq<char>, (Seq<char>, Seq<char>)>(p.slug@);
    let found = store::with_slug(p.slug@);
    tables::lemma_first_where(s.providers@, found);
    match s.provider_at(p.slug@) {
        Some(k) => {
            assert forall|x: int| 0 <= x < k implies !fits(#[trigger] register[x]) by {
                assert(!found(s.providers@[x]));
            }
            tables::lemma_first_is(register, fits, k);
        },
        None => {
            assert forall|x: int| 0 <= x < register.len() implies !fits(#[trigger] register[x]) by {
                assert(!found(s.providers@[x]));
            }
            tables::lemma_none_fits(register, fits);
        },
    }
    assert(provider_register(next) =~= registers::entered(
        register,
        (p.slug@, (p.base_url@, p.wire@)),
    ));
}

/// The register of the catalog once the next model is reflected.
proof fn lemma_catalog_step(s0: Tables, s: Tables, next: Tables, cfg: Config, i: int, j: int)
    requires
        in_pool(cfg, i, j),
        catalog_register(s) == registers::all_entered(
            catalog_register(s0),
            entries_up_to(cfg.providers@, i, j),
        ),
        s.model_set(
            Tables { catalog: next.catalog, ..s },
            model(cfg, i, j).canonical_key@,
            cfg.providers@[i].slug@,
            model(cfg, i, j).real_slug@,
        ),
    ensures
        catalog_register(next) == registers::all_entered(
            catalog_register(s0),
            entries_up_to(cfg.providers@, i, j + 1),
        ),
{
    let m = model(cfg, i, j);
    let slug = cfg.providers@[i].slug@;
    let pair = (m.canonical_key@, slug);
    let register = catalog_register(s);
    let fits = registers::keyed::<(Seq<char>, Seq<char>), Seq<char>>(pair);
    let found = store::offering(m.canonical_key@, slug);
    tables::lemma_first_where(s.catalog@, found);
    match s.model_at(m.canonical_key@, slug) {
        Some(k) => {
            assert forall|x: int| 0 <= x < k implies !fits(#[trigger] register[x]) by {
                assert(!found(s.catalog@[x]));
            }
            tables::lemma_first_is(register, fits, k);
        },
        None => {
            assert forall|x: int| 0 <= x < register.len() implies !fits(#[trigger] register[x]) by {
                assert(!found(s.catalog@[x]));
            }
            tables::lemma_none_fits(register, fits);
        },
    }
    assert(catalog_register(next) =~= registers::entered(register, (pair, m.real_slug@)));
    let entries = entries_up_to(cfg.providers@, i, j + 1);
    assert(entries.drop_last() =~= entries_up_to(cfg.providers@, i, j));
    assert(entries.last() == (pair, m.real_slug@));
}

/// A model without prices still has none once the next model is reflected.
proof fn lemma_free_step(
    s0: Tables,
    s: Tables,
    next: Tables,
    cfg: Config,
    i: int,
    j: int,
    now: i64,
)
    requires
        in_pool(cfg, i, j),
        forall|key: Seq<char>, slug: Seq<char>|
            never_priced(s0, key, slug) && free_of_charge(cfg, key, slug)
                ==> #[trigger] never_priced(s, key, slug),
        s.price_observed(
            Tables { price_history: next.price_history, ..s },
            model(cfg, i, j).canonical_key@,
            cfg.providers@[i].slug@,
            model(cfg, i, j).input_per_mtok,
            model(cfg, i, j).output_per_mtok,
            now,
        ),
    ensures
        forall|key: Seq<char>, slug: Seq<char>|
            never_priced(s0, key, slug) && free_of_charge(cfg, key, slug)
                ==> #[trigger] never_priced(next, key, slug),
{
    let m = model(cfg, i, j);
    let own = cfg.providers@[i].slug@;
    store::lemma_latest_at(s.price_history@, m.canonical_key@, own);
    assert forall|key: Seq<char>, slug: Seq<char>|
        never_priced(s0, key, slug) && free_of_charge(cfg, key, slug) implies #[trigger] never_priced(
        next,
        key,
        slug,
    ) by {
        assert(never_priced(s, key, slug));
        if m.canonical_key@ == key && own == slug {
            assert(m.input_per_mtok is None && m.output_per_mtok is None);
            assert(s.price_of(key, slug) == (None::<Double>, None::<Double>));
        }
        assert forall|k: int| 0 <= k < next.price_history@.len() implies (
        #[trigger] next.price_history@[k]).canonical_key@ != key
            || next.price_history@[k].provider_slug@ != slug by {
            if k < s.price_history@.len() {
                assert(next.price_history@[k] == s.price_history@[k]);
            }
        }
    }
}

/// What the registries hold once the next model of a pool without repetitions is reflected.
proof fn lemma_registries_step(
    s0: Tables,
    s: Tables,
    next: Tables,
    cfg: Config,
    i: int,
    j: int,
    now: i64,
)
    requires
        in_pool(cfg, i, j),
        distinct_pool(cfg),
        seeded_up_to(s0, s, cfg, i + 1, i, j, now),
        next.providers == s.providers,
        s.model_set(
            Tables { catalog: next.catalog, ..s },
            model(cfg, i, j).canonical_key@,
            cfg.providers@[i].slug@,
            model(cfg, i, j).real_slug@,
        ),
    ensures
        forall|pi: int| 0 <= pi < i + 1 ==> registered(next, #[trigger] cfg.providers@[pi]),
        forall|pi: int, mi: int|
            in_pool(cfg, pi, mi) && (pi < i || (pi == i && mi < j + 1)) ==> #[trigger] listed(
                next,
                cfg,
                pi,
                mi,
            ),
{
    let m = model(cfg, i, j);
    let key = m.canonical_key@;
    let slug = cfg.providers@[i].slug@;
    let with_price = Tables { price_history: next.price_history, ..s };
    let at = match s.model_at(key, slug) {
        Some(k) => k,
        None => s.catalog@.len() as int,
    };
    let row = next.catalog@[at];
    tables::lemma_first_where(s.catalog@, store::offering(key, slug));
    tables::lemma_set_row_is_found(s.catalog@, next.catalog@, row, store::offering(key, slug));
    assert forall|pi: int| 0 <= pi < i + 1 implies registered(
        next,
        #[trigger] cfg.providers@[pi],
    ) by {
        assert(registered(s, cfg.providers@[pi]));
    }
    assert forall|pi: int, mi: int|
        in_pool(cfg, pi, mi) && (pi < i || (pi == i && mi < j + 1)) implies #[trigger] listed(
        next,
        cfg,
        pi,
        mi,
    ) by {
        if pi < i || mi < j {
            lemma_pairs_differ(cfg, pi, mi, i, j);
            tables::lemma_set_row_keeps(
                s.catalog@,
                next.catalog@,
                row,
                store::offering(key, slug),
                store::offering(model(cfg, pi, mi).canonical_key@, cfg.providers@[pi].slug@),
            );
            assert(listed(s, cfg, pi, mi));
        }
    }
}

/// What the latest prices are once the next model of a pool with agreed prices is reflected.
proof fn lemma_prices_step(
    s0: Tables,
    s: Tables,
    next: Tables,
    cfg: Config,
    i: int,
    j: int,
    now: i64,
)
    requires
        in_pool(cfg, i, j),
        agreed_prices(cfg),
        observed_by(s0, now),
        seeded_up_to(s0, s, cfg, i + 1, i, j, now),
        s.price_observed(
            Tables { price_history: next.price_history, ..s },
            model(cfg, i, j).canonical_key@,
            cfg.providers@[i].slug@,
            model(cfg, i, j).input_per_mtok,
            model(cfg, i, j).output_per_mtok,
            now,
        ),
    ensures
        forall|pi: int, mi: int|
            in_pool(cfg, pi, mi) && (pi < i || (pi == i && mi < j + 1)) ==> #[trigger] priced(
                next,
                cfg,
                pi,
                mi,
            ),
{
    let m = model(cfg, i, j);
    let key = m.canonical_key@;
    let slug = cfg.providers@[i].slug@;
    let with_price = Tables { price_history: next.price_history, ..s };
    assert(same_prices(cfg, i, j, i, j));
    assert(settled(with_price, slug, m)) by {
        let latest = s.price_of(key, slug);
        if !(store::same_price(latest.0, m.input_per_mtok) && store::same_price(
            latest.1,
            m.output_per_mtok,
        )) {
            assert(next.price_history@.drop_last() =~= s.price_history@);
            store::lemma_latest_at(s.price_history@, key, slug);
        }
    }
    assert forall|pi: int, mi: int|
        in_pool(cfg, pi, mi) && (pi < i || (pi == i && mi < j + 1)) implies #[trigger] priced(
        next,
        cfg,
        pi,
        mi,
    ) by {
        let other = model(cfg, pi, mi);
        let other_slug = cfg.providers@[pi].slug@;
        if other.canonical_key@ == key && other_slug == slug {
            assert(same_prices(cfg, i, j, pi, mi));
            assert(settled(with_price, slug, other));
        } else {
            store::lemma_price_keeps_others(
                s,
                with_price,
                key,
                slug,
                m.input_per_mtok,
                m.output_per_mtok,
                now,
                other.canonical_key@,
                other_slug,
            );
            assert(priced(s, cfg, pi, mi));
            assert(priced(with_price, cfg, pi, mi));
        }
        assert(with_price.price_of(other.canonical_key@, other_slug) == next.price_of(
            other.canonical_key@,
            other_slug,
        ));
    }
}

/// In a pool without repetitions two positions name two pairs of a model and a provider.
proof fn lemma_pairs_differ(cfg: Config, pi: int, mi: int, i: int, j: int)
    requires
        distinct_pool(cfg),
        in_pool(cfg, pi, mi),
        in_pool(cfg, i, j),
        pi < i || (pi == i && mi < j),
    ensures
        model(cfg, pi, mi).canonical_key@ != model(cfg, i, j).canonical_key@
            || cfg.providers@[pi].slug@ != cfg.providers@[i].slug@,
{
    if pi < i {
        assert(cfg.providers@[pi].slug@ != cfg.providers@[i].slug@);
    } else {
        assert(cfg.providers@[pi].models@[mi].canonical_key@
            != cfg.providers@[pi].models@[j].canonical_key@);
    }
}

/// Reflecting one more model.
proof fn lemma_one_more_model(
    s0: Tables,
    mid: Tables,
    s: Tables,
    slug: Seq<char>,
    models: Seq<ModelConfig>,
    j: int,
    now: i64,
)
    requires
        0 <= j < models.len(),
        models_reflected(s0, mid, slug, models.take(j), now),
        model_reflected(mid, s, slug, models[j], now),
    ensures
        models_reflected(s0, s, slug, models.take(j + 1), now),
{
    let states = choose|states: Seq<Tables>| #[trigger]
        models_trail(states, s0, mid, slug, models.take(j), now);
    let longer = states.push(s);
    assert forall|k: int| 0 <= k < j + 1 implies model_reflected(
        #[trigger] longer[k],
        longer[k + 1],
        slug,
        models.take(j + 1)[k],
        now,
    ) by {
        if k < j {
            assert(longer[k] == states[k] && longer[k + 1] == states[k + 1]);
            assert(models.take(j)[k] == models.take(j + 1)[k]);
        }
    }
    assert(models_trail(longer, s0, s, slug, models.take(j + 1), now));
}

/// Reflecting one more provider.
proof fn lemma_one_more_provider(
    s0: Tables,
    before: Tables,
    entered: Tables,
    s: Tables,
    ps: Seq<ProviderConfig>,
    i: int,
    now: i64,
)
    requires
        0 <= i < ps.len(),
        pool_reflected(s0, before, ps.take(i), now),
        before.provider_set(entered, ps[i].slug@, ps[i].base_url@, ps[i].wire@),
        models_reflected(entered, s, ps[i].slug@, ps[i].models@, now),
    ensures
        pool_reflected(s0, s, ps.take(i + 1), now),
{
    let states = choose|states: Seq<Tables>| #[trigger]
        pool_trail(states, s0, before, ps.take(i), now);
    let longer = states.push(s);
    assert(provider_reflected(before, s, ps[i], now));
    assert forall|k: int| 0 <= k < i + 1 implies provider_reflected(
        #[trigger] longer[k],
        longer[k + 1],
        ps.take(i + 1)[k],
        now,
    ) by {
        if k < i {
            assert(longer[k] == states[k] && longer[k + 1] == states[k + 1]);
            assert(ps.take(i)[k] == ps.take(i + 1)[k]);
        }
    }
    assert(pool_trail(longer, s0, s, ps.take(i + 1), now));
}

/// Reflects the configured pool into the store: refreshes providers and models, appends changed
/// prices and mints missing aliases. It is safe to run every time: what is there already stays.
pub fn seed_pool(
    s: &mut Store,
    cfg: &Config,
    rng: &mut rand::rngs::StdRng,
    now: i64,
) -> (r: Result<(), StoreError>)
    ensures
        final(s)@.wf(),
        final(s)@.extends(old(s)@),
        same_events(final(s)@, old(s)@),
        match r {
            Ok(_) => pool_reflected(old(s)@, final(s)@, cfg.providers@, now) && seeded_up_to(
                old(s)@,
                final(s)@,
                *cfg,
                cfg.providers@.len() as int,
                cfg.providers@.len() as int,
                0,
                now,
            ),
            Err(e) => e == StoreError::AliasTaken && !all_masked(old(s)@, *cfg) && exists|
                i: int,
                j: int,
            | #[trigger]
                pool_refused_at(old(s)@, final(s)@, cfg.providers@, i, j, now),
        },
{
    let ghost s0 = s@;
    proof {
        use_type_invariant(&*s);
        store::lemma_logs_begin(s@);
        assert(pool_trail(seq![s0], s0, s0, cfg.providers@.take(0), now));
        assert(provider_entries(cfg.providers@.take(0)).len() == 0);
        assert(entries_up_to(cfg.providers@, 0, 0).len() == 0);
    }
    let mut i: usize = 0;
    while i < cfg.providers.len()
        invariant
            i <= cfg.providers@.len(),
            seeded_up_to(s0, s@, *cfg, i as int, i as int, 0, now),
            pool_reflected(s0, s@, cfg.providers@.take(i as int), now),
            s0 == old(s)@,
        decreases cfg.providers@.len() - i,
    {
        let p: &ProviderConfig = &cfg.providers[i];
        let ghost before = s@;
        s.upsert_provider(p.slug.as_str(), p.base_url.as_str(), p.wire.as_str());
        let ghost entered = s@;
        proof {
            lemma_provider_step(s0, before, s@, *cfg, i as int, now);
            assert(models_trail(
                seq![entered],
                entered,
                entered,
                p.slug@,
                p.models@.take(0),
                now,
            ));
        }
        let mut j: usize = 0;
        while j < p.models.len()
            invariant
                i < cfg.providers@.len(),
                *p == cfg.providers@[i as int],
                j <= p.models@.len(),
                seeded_up_to(s0, s@, *cfg, i + 1, i as int, j as int, now),
                pool_reflected(s0, before, cfg.providers@.take(i as int), now),
                before.provider_set(entered, p.slug@, p.base_url@, p.wire@),
                models_reflected(entered, s@, p.slug@, p.models@.take(j as int), now),
                s0 == old(s)@,
            decreases p.models@.len() - j,
        {
            let ghost mid = s@;
            let r = seed_model(s, p.slug.as_str(), &p.models[j], rng, now);
            if let Err(e) = r {
                proof {
                    store::lemma_history_is_kept(s0, mid, s@);
                    assert(pool_refused_at(s0, s@, cfg.providers@, i as int, j as int, now));
                    if all_masked(s0, *cfg) {
                        assert(in_pool(*cfg, i as int, j as int));
                        assert(masked(s0, *cfg, i as int, j as int));
                    }
                }
                return Err(e);
            }
            proof {
                lemma_model_step(s0, mid, s@, *cfg, i as int, j as int, now);
                lemma_one_more_model(entered, mid, s@, p.slug@, p.models@, j as int, now);
            }
            j = j + 1;
        }
        proof {
            lemma_provider_done(s0, s@, *cfg, i as int, j as int, now);
            assert(p.models@.take(j as int) =~= p.models@);
            lemma_one_more_provider(s0, before, entered, s@, cfg.providers@, i as int, now);
        }
        i = i + 1;
    }
    proof {
        assert(cfg.providers@.take(i as int) =~= cfg.providers@);
    }
    Ok(())
}

/// A provider whose models are all reflected is done.
proof fn lemma_provider_done(s0: Tables, s: Tables, cfg: Config, i: int, j: int, now: i64)
    requires
        0 <= i < cfg.providers@.len(),
        j == cfg.providers@[i].models@.len(),
        seeded_up_to(s0, s, cfg, i + 1, i, j, now),
    ensures
        seeded_up_to(s0, s, cfg, i + 1, i + 1, 0, now),
{
    let ps = cfg.providers@;
    assert(ps[i].models@.take(j) =~= ps[i].models@);
    assert(ps.take(i + 1).drop_last() =~= ps.take(i));
    assert(ps.take(i + 1).last() == ps[i]);
    assert(entries_up_to(ps, i + 1, 0) =~= entries_up_to(ps, i, j)) by {
        if i + 1 < ps.len() {
            assert(ps[i + 1].models@.take(0) =~= Seq::empty());
        }
    }
}

/// Seeding twice adds no event and no alias the second time, leaves the providers and the catalog as
/// they are, and adds no price either, where the prices agree and the clock does not run backwards.
pub proof fn lemma_seeding_is_idempotent(
    s0: Tables,
    s1: Tables,
    s2: Tables,
    cfg: Config,
    now: i64,
    later: i64,
)
    requires
        seeded_up_to(
            s0,
            s1,
            cfg,
            cfg.providers@.len() as int,
            cfg.providers@.len() as int,
            0,
            now,
        ),
        seeded_up_to(
            s1,
            s2,
            cfg,
            cfg.providers@.len() as int,
            cfg.providers@.len() as int,
            0,
            later,
        ),
    ensures
        same_events(s2, s1),
        s2.aliases == s1.aliases,
        provider_register(s2) == provider_register(s1),
        catalog_register(s2) == catalog_register(s1),
        agreed_prices(cfg) && observed_by(s0, now) ==> s2.price_history == s1.price_history,
{
    let n = cfg.providers@.len() as int;
    registers::lemma_entering_again(
        provider_register(s0),
        provider_entries(cfg.providers@.take(n)),
    );
    registers::lemma_entering_again(
        catalog_register(s0),
        entries_up_to(cfg.providers@, n, 0),
    );
    assert(all_masked(s1, cfg));
    if agreed_prices(cfg) && observed_by(s0, now) {
        assert(all_priced(s1, cfg));
    }
}

/// What seeding makes of an empty store: every configured model has one alias at its provider, a
/// model has one token under all its providers and a provider one token for all its models, and a
/// model without prices has no price.
pub proof fn lemma_fresh_pool(s0: Tables, s: Tables, cfg: Config, now: i64)
    requires
        s0.is_empty(),
        seeded_up_to(
            s0,
            s,
            cfg,
            cfg.providers@.len() as int,
            cfg.providers@.len() as int,
            0,
            now,
        ),
    ensures
        all_masked(s, cfg),
        pairs_once(s),
        tokens_shared(s),
        forall|key: Seq<char>, slug: Seq<char>|
            free_of_charge(cfg, key, slug) ==> #[trigger] never_priced(s, key, slug),
{
    assert(pairs_once(s0) && tokens_shared(s0));
    assert forall|key: Seq<char>, slug: Seq<char>|
        free_of_charge(cfg, key, slug) implies #[trigger] never_priced(s, key, slug) by {
        assert(never_priced(s0, key, slug));
    }
}

/// One routable entry of the pool: a model at a provider under its alias, with its shelf prices and
/// the evidence on the model. Evidence is shared by every entry of the same model; prices are not.
#[derive(Debug)]
pub struct PoolEntry {
    pub canonical_key: String,
    pub provider_slug: String,
    pub alias: Alias,
    pub input_per_mtok: Option<Double>,
    pub output_per_mtok: Option<Double>,
    pub ratings: Vec<Rating>,
    pub failures: Vec<Failure>,
}

/// Why there is no pool.
#[derive(Clone, Copy, Debug, PartialEq, Eq, Structural)]
pub enum PoolError {
    /// A configured model has no alias: the pool was not seeded.
    NotSeeded,
    /// No models are configured.
    Empty,
}

impl PoolError {
    /// The error as text.
    pub open spec fn text(self) -> Seq<char> {
        match self {
            PoolError::NotSeeded => "alias must exist after seeding"@,
            PoolError::Empty => "no candidates in the pool — no models are configured"@,
        }
    }

    /// The error as text.
    pub fn message(&self) -> (r: String)
        ensures
            r@ == self.text(),
    {
        match self {
            PoolError::NotSeeded => "alias must exist after seeding".to_owned(),
            PoolError::Empty => "no candidates in the pool — no models are configured".to_owned(),
        }
    }
}

/// The ratings of one model, in the order of the list.
pub open spec fn ratings_on(all: Seq<AgedRating>, key: Seq<char>) -> Seq<Rating>
    decreases all.len(),
{
    if all.len() == 0 {
        Seq::empty()
    } else {
        let before = ratings_on(all.drop_last(), key);
        let last = all.last();
        if last.canonical_key@ == key {
            before.push(
                Rating {
                    performance_points: last.performance_points,
                    difficulty_points: last.difficulty_points,
                    age_seconds: last.age_seconds,
                },
            )
        } else {
            before
        }
    }
}

/// The failures of one model, in the order of the list, each with the weight of its kind.
pub open spec fn failures_on(all: Seq<AgedFailure>, key: Seq<char>) -> Seq<Failure>
    decreases all.len(),
{
    if all.len() == 0 {
        Seq::empty()
    } else {
        let before = failures_on(all.drop_last(), key);
        let last = all.last();
        if last.canonical_key@ == key {
            before.push(
                Failure {
                    loss_weight: last.error_kind.weight() as u64,
                    age_seconds: last.age_seconds,
                },
            )
        } else {
            before
        }
    }
}

/// The ratings of one model.
pub fn ratings_for_key(all: &Vec<AgedRating>, key: &str) -> (r: Vec<Rating>)
    ensures
        r@ == ratings_on(all@, key@),
{
    let mut out: Vec<Rating> = Vec::new();
    let mut i: usize = 0;
    while i < all.len()
        invariant
            i <= all@.len(),
            out@ == ratings_on(all@.take(i as int), key@),
        decreases all@.len() - i,
    {
        proof {
            assert(all@.take(i + 1).drop_last() =~= all@.take(i as int));
        }
        let a: &AgedRating = &all[i];
        if same_text(a.canonical_key.as_str(), key) {
            out.push(
                Rating {
                    performance_points: a.performance_points,
                    difficulty_points: a.difficulty_points,
                    age_seconds: a.age_seconds,
                },
            );
        }
        i = i + 1;
    }
    proof {
        assert(all@.take(i as int) =~= all@);
    }
    out
}

/// The failures of one model. The weight of each kind is policy, so the selector never sees kinds.
pub fn failures_for_key(all: &Vec<AgedFailure>, key: &str) -> (r: Vec<Failure>)
    ensures
        r@ == failures_on(all@, key@),
{
    let mut out: Vec<Failure> = Vec::new();
    let mut i: usize = 0;
    while i < all.len()
        invariant
            i <= all@.len(),
            out@ == failures_on(all@.take(i as int), key@),
        decreases all@.len() - i,
    {
        proof {
            assert(all@.take(i + 1).drop_last() =~= all@.take(i as int));
        }
        let a: &AgedFailure = &all[i];
        if same_text(a.canonical_key.as_str(), key) {
            out.push(
                Failure { loss_weight: a.error_kind.loss_weight(), age_seconds: a.age_seconds },
            );
        }
        i = i + 1;
    }
    proof {
        assert(all@.take(i as int) =~= all@);
    }
    out
}

/// The positions of the configured models: provider by provider, model by model.
pub open spec fn pool_places(ps: Seq<ProviderConfig>) -> Seq<(int, int)>
    decreases ps.len(),
{
    if ps.len() == 0 {
        Seq::empty()
    } else {
        pool_places(ps.drop_last()) + Seq::new(
            ps.last().models@.len(),
            |m: int| (ps.len() - 1, m),
        )
    }
}

/// Whether an entry is the configured model at a place, with the evidence on it.
pub open spec fn is_entry(
    e: PoolEntry,
    s: Tables,
    ps: Seq<ProviderConfig>,
    place: (int, int),
    ratings: Seq<AgedRating>,
    failures: Seq<AgedFailure>,
) -> bool {
    let p = ps[place.0];
    let m = p.models@[place.1];
    &&& e.canonical_key@ == m.canonical_key@
    &&& e.provider_slug@ == p.slug@
    &&& s.pair_alias_at(m.canonical_key@, p.slug@) matches Some(a)
        && s.aliases@[a].alias.provider_token@ == e.alias.provider_token@
        && s.aliases@[a].alias.model_token@ == e.alias.model_token@
    &&& e.input_per_mtok == m.input_per_mtok
    &&& e.output_per_mtok == m.output_per_mtok
    &&& e.ratings@ == ratings_on(ratings, m.canonical_key@)
    &&& e.failures@ == failures_on(failures, m.canonical_key@)
}

/// Whether a list is the pool: one entry for each configured model, in the order of the config.
pub open spec fn is_pool(entries: Seq<PoolEntry>, s: Tables, cfg: Config, now: i64) -> bool {
    exists|ratings: Seq<AgedRating>, failures: Seq<AgedFailure>| #[trigger]
        s.ages_ratings(ratings, now) && #[trigger] s.ages_failures(failures, now) && entries.len()
            == pool_places(cfg.providers@).len() && forall|k: int|
            0 <= k < entries.len() ==> is_entry(
                #[trigger] entries[k],
                s,
                cfg.providers@,
                pool_places(cfg.providers@)[k],
                ratings,
                failures,
            )
}

/// The entry of one configured model, where it has an alias.
fn entry_of(
    s: &Store,
    p: &ProviderConfig,
    m: &ModelConfig,
    ratings: &Vec<AgedRating>,
    failures: &Vec<AgedFailure>,
) -> (r: Option<PoolEntry>)
    ensures
        match r {
            Some(e) => {
                &&& e.canonical_key@ == m.canonical_key@
                &&& e.provider_slug@ == p.slug@
                &&& s@.pair_alias_at(m.canonical_key@, p.slug@) matches Some(a)
                    && s@.aliases@[a].alias.provider_token@ == e.alias.provider_token@
                    && s@.aliases@[a].alias.model_token@ == e.alias.model_token@
                &&& e.input_per_mtok == m.input_per_mtok
                &&& e.output_per_mtok == m.output_per_mtok
                &&& e.ratings@ == ratings_on(ratings@, m.canonical_key@)
                &&& e.failures@ == failures_on(failures@, m.canonical_key@)
            },
            None => s@.pair_alias_at(m.canonical_key@, p.slug@) is None,
        },
{
    match s.alias_for(m.canonical_key.as_str(), p.slug.as_str()) {
        Some(alias) => Some(
            PoolEntry {
                canonical_key: m.canonical_key.clone(),
                provider_slug: p.slug.clone(),
                alias,
                input_per_mtok: m.input_per_mtok,
                output_per_mtok: m.output_per_mtok,
                ratings: ratings_for_key(ratings, m.canonical_key.as_str()),
                failures: failures_for_key(failures, m.canonical_key.as_str()),
            },
        ),
        None => None,
    }
}

/// Gathers the pool: every configured model at its provider, with its alias, its prices and the
/// ratings and failures of the model.
pub fn build_pool(s: &Store, cfg: &Config, now: i64) -> (r: Result<Vec<PoolEntry>, PoolError>)
    ensures
        match r {
            Ok(entries) => all_masked(s@, *cfg) && entries@.len() > 0 && is_pool(
                entries@,
                s@,
                *cfg,
                now,
            ),
            Err(PoolError::NotSeeded) => !all_masked(s@, *cfg),
            Err(PoolError::Empty) => all_masked(s@, *cfg) && pool_places(cfg.providers@).len() == 0,
        },
{
    let ratings: Vec<AgedRating> = s.effective_ratings_aged(now);
    let failures: Vec<AgedFailure> = s.effective_failures_aged(now);
    let ghost ps = cfg.providers@;
    let mut out: Vec<PoolEntry> = Vec::new();
    let mut i: usize = 0;
    while i < cfg.providers.len()
        invariant
            ps == cfg.providers@,
            i <= ps.len(),
            out@.len() == pool_places(ps.take(i as int)).len(),
            forall|k: int|
                0 <= k < out@.len() ==> is_entry(
                    #[trigger] out@[k],
                    s@,
                    ps,
                    pool_places(ps.take(i as int))[k],
                    ratings@,
                    failures@,
                ),
            forall|pi: int, mi: int|
                in_pool(*cfg, pi, mi) && pi < i ==> #[trigger] masked(s@, *cfg, pi, mi),
        decreases ps.len() - i,
    {
        let p: &ProviderConfig = &cfg.providers[i];
        let ghost done = pool_places(ps.take(i as int));
        let mut j: usize = 0;
        proof {
            lemma_places_below(ps.take(i as int));
        }
        while j < p.models.len()
            invariant
                ps == cfg.providers@,
                i < ps.len(),
                *p == ps[i as int],
                j <= p.models@.len(),
                done == pool_places(ps.take(i as int)),
                out@.len() == done.len() + j,
                forall|k: int|
                    0 <= k < done.len() ==> is_entry(
                        #[trigger] out@[k],
                        s@,
                        ps,
                        done[k],
                        ratings@,
                        failures@,
                    ),
                forall|m: int|
                    0 <= m < j ==> is_entry(
                        #[trigger] out@[done.len() + m],
                        s@,
                        ps,
                        (i as int, m),
                        ratings@,
                        failures@,
                    ),
                forall|pi: int, mi: int|
                    in_pool(*cfg, pi, mi) && (pi < i || (pi == i && mi < j)) ==> #[trigger] masked(
                        s@,
                        *cfg,
                        pi,
                        mi,
                    ),
            decreases p.models@.len() - j,
        {
            match entry_of(s, p, &p.models[j], &ratings, &failures) {
                Some(e) => {
                    let ghost before = out@;
                    out.push(e);
                    proof {
                        assert forall|k: int| 0 <= k < done.len() implies is_entry(
                            #[trigger] out@[k],
                            s@,
                            ps,
                            done[k],
                            ratings@,
                            failures@,
                        ) by {
                            assert(out@[k] == before[k]);
                        }
                        assert forall|m: int| 0 <= m < j + 1 implies is_entry(
                            #[trigger] out@[done.len() + m],
                            s@,
                            ps,
                            (i as int, m),
                            ratings@,
                            failures@,
                        ) by {
                            if m < j {
                                assert(out@[done.len() + m] == before[done.len() + m]);
                            }
                        }
                    }
                },
                None => {
                    proof {
                        assert(in_pool(*cfg, i as int, j as int));
                        assert(!masked(s@, *cfg, i as int, j as int));
                    }
                    return Err(PoolError::NotSeeded);
                },
            }
            j = j + 1;
        }
        proof {
            let now_done = pool_places(ps.take(i + 1));
            assert(ps.take(i + 1).drop_last() =~= ps.take(i as int));
            assert(now_done =~= done + Seq::new(p.models@.len(), |m: int| (i as int, m)));
            assert forall|k: int| 0 <= k < out@.len() implies is_entry(
                #[trigger] out@[k],
                s@,
                ps,
                now_done[k],
                ratings@,
                failures@,
            ) by {
                if k >= done.len() {
                    assert(out@[done.len() + (k - done.len())] == out@[k]);
                }
            }
        }
        i = i + 1;
    }
    proof {
        assert(ps.take(i as int) =~= ps);
    }
    if out.len() == 0 {
        return Err(PoolError::Empty);
    }
    Ok(out)
}

/// Every place of the pool is one of a configured model.
pub proof fn lemma_places_below(ps: Seq<ProviderConfig>)
    ensures
        forall|k: int|
            0 <= k < pool_places(ps).len() ==> 0 <= (#[trigger] pool_places(ps)[k]).0 < ps.len()
                && 0 <= pool_places(ps)[k].1 < ps[pool_places(ps)[k].0].models@.len(),
    decreases ps.len(),
{
    if ps.len() > 0 {
        lemma_places_below(ps.drop_last());
    }
}

/// Whether the alias of an entry leads to the model that is configured at a place, at its provider.
pub open spec fn leads_to(
    e: PoolEntry,
    s: Tables,
    ps: Seq<ProviderConfig>,
    place: (int, int),
) -> bool {
    let p = ps[place.0];
    let m = p.models@[place.1];
    &&& 0 <= place.0 < ps.len() && 0 <= place.1 < p.models@.len()
    &&& e.provider_slug@ == p.slug@
    &&& s.route_of(e.alias.name()) == Some(
        store::RouteView {
            canonical_key: m.canonical_key@,
            provider_slug: p.slug@,
            real_slug: m.real_slug@,
            base_url: p.base_url@,
            wire: p.wire@,
        },
    )
}

/// The pool of a seeded store leads where the config says: the alias of every entry resolves to the
/// entry's own model, at the address of its own provider. This holds where no two providers share a
/// slug and no two models of a provider a key.
pub proof fn lemma_pool_leads_to_the_config(
    s0: Tables,
    s: Tables,
    cfg: Config,
    now: i64,
    entries: Seq<PoolEntry>,
    at: i64,
    k: int,
)
    requires
        s.wf(),
        seeded_up_to(
            s0,
            s,
            cfg,
            cfg.providers@.len() as int,
            cfg.providers@.len() as int,
            0,
            now,
        ),
        distinct_pool(cfg),
        is_pool(entries, s, cfg, at),
        0 <= k < entries.len(),
    ensures
        leads_to(entries[k], s, cfg.providers@, pool_places(cfg.providers@)[k]),
{
    let ps = cfg.providers@;
    lemma_places_below(ps);
    let (pi, mi) = pool_places(ps)[k];
    let m = model(cfg, pi, mi);
    let slug = ps[pi].slug@;
    assert(in_pool(cfg, pi, mi));
    let a = s.pair_alias_at(m.canonical_key@, slug)->Some_0;
    tables::lemma_first_where(s.aliases@, store::masking(m.canonical_key@, slug));
    assert(s.aliases@[a].alias.name() =~= entries[k].alias.name());
    store::lemma_alias_is_found(s, a);
    assert(registered(s, ps[pi]));
    assert(listed(s, cfg, pi, mi));
}

/// The belief on a model is shared: entries of the same model, under whatever provider, have the
/// same ratings and the same failures.
pub proof fn lemma_evidence_is_shared(
    entries: Seq<PoolEntry>,
    s: Tables,
    cfg: Config,
    now: i64,
    a: int,
    b: int,
)
    requires
        is_pool(entries, s, cfg, now),
        0 <= a < entries.len(),
        0 <= b < entries.len(),
        entries[a].canonical_key@ == entries[b].canonical_key@,
    ensures
        entries[a].ratings@ == entries[b].ratings@,
        entries[a].failures@ == entries[b].failures@,
{
}

/// A provider whose key is configured and cannot be had.
#[derive(Debug)]
pub struct KeyError {
    pub message: String,
}

/// Whether a text holds more than white space.
pub open spec fn not_blank(t: Seq<char>) -> bool {
    text::trimmed(t).len() > 0
}

/// What is said where no key can be had.
pub open spec fn key_error_text(p: ProviderConfig) -> Seq<char> {
    "provider "@ + p.slug@ + ": no API key resolved — set the "@ + (match config::owned_text(
        p.key_env,
    ) {
        Some(var) => var,
        None => "(unnamed)"@,
    }) + " env var or inline api_key in config"@
}

/// What comes of resolving a key.
pub enum KeyView {
    /// This key, or none for a keyless provider.
    Key(Option<Seq<char>>),
    /// A key is configured and cannot be had.
    Missing,
}

/// The key of a provider, where `env_value` is what the variable that `key_env` names holds.
pub open spec fn key_of(p: ProviderConfig, env_value: Option<Seq<char>>) -> KeyView {
    if p.key_env is Some && (env_value matches Some(v) && not_blank(v)) {
        KeyView::Key(env_value)
    } else if config::owned_text(p.api_key) matches Some(k) && not_blank(k) {
        KeyView::Key(config::owned_text(p.api_key))
    } else if p.key_env is Some || p.api_key is Some {
        KeyView::Missing
    } else {
        KeyView::Key(None)
    }
}

/// Resolves a provider's API key. `env_value` is what the variable that `key_env` names holds. It
/// wins where it is not blank; else the inlined key is used. A provider with neither is keyless;
/// one with either that resolves to nothing is misconfigured.
pub fn resolve_api_key(p: &ProviderConfig, env_value: Option<&str>) -> (r: Result<
    Option<String>,
    KeyError,
>)
    ensures
        match r {
            Ok(key) => key_of(*p, config::text_of(env_value)) == KeyView::Key(
                config::owned_text(key),
            ),
            Err(e) => key_of(*p, config::text_of(env_value)) == KeyView::Missing && e.message@
                == key_error_text(*p),
        },
{
    if p.key_env.is_some() {
        if let Some(v) = env_value {
            if chars_of(trim(v).as_str()).len() > 0 {
                return Ok(Some(v.to_owned()));
            }
        }
    }
    if let Some(k) = &p.api_key {
        if chars_of(trim(k.as_str()).as_str()).len() > 0 {
            return Ok(Some(k.clone()));
        }
    }
    if p.key_env.is_some() || p.api_key.is_some() {
        let mut out: String = "provider ".to_owned();
        out.append(p.slug.as_str());
        out.append(": no API key resolved — set the ");
        match &p.key_env {
            Some(var) => out.append(var.as_str()),
            None => out.append("(unnamed)"),
        }
        out.append(" env var or inline api_key in config");
        return Err(KeyError { message: out });
    }
    Ok(None)
}

/// Whether a provider has this slug.
pub open spec fn of_slug(slug: Seq<char>) -> spec_fn(ProviderConfig) -> bool {
    |p: ProviderConfig| p.slug@ == slug
}

/// The position of the first provider of a slug.
pub open spec fn provider_named(ps: Seq<ProviderConfig>, slug: Seq<char>) -> Option<int> {
    tables::first_where(ps, of_slug(slug))
}

/// The position of the first provider of a slug.
pub fn find_provider(cfg: &Config, slug: &str) -> (r: Option<usize>)
    ensures
        match r {
            Some(i) => provider_named(cfg.providers@, slug@) == Some(i as int) && i
                < cfg.providers@.len() && cfg.providers@[i as int].slug@ == slug@,
            None => provider_named(cfg.providers@, slug@) is None,
        },
{
    let ghost fits = of_slug(slug@);
    let mut i: usize = 0;
    while i < cfg.providers.len()
        invariant
            i <= cfg.providers@.len(),
            fits == of_slug(slug@),
            forall|k: int| 0 <= k < i ==> !fits(#[trigger] cfg.providers@[k]),
        decreases cfg.providers@.len() - i,
    {
        if same_text(cfg.providers[i].slug.as_str(), slug) {
            proof {
                tables::lemma_first_is(cfg.providers@, fits, i as int);
            }
            return Some(i);
        }
        i = i + 1;
    }
    proof {
        tables::lemma_none_fits(cfg.providers@, fits);
    }
    None
}

/// The pool has a place for every configured model, one for each, in the order of the config.
pub proof fn lemma_places_are_the_config(ps: Seq<ProviderConfig>, pi: int, mi: int)
    requires
        0 <= pi < ps.len(),
        0 <= mi < ps[pi].models@.len(),
    ensures
        pool_places(ps).contains((pi, mi)),
        forall|a: int, b: int|
            0 <= a < b < pool_places(ps).len() ==> {
                let p = #[trigger] pool_places(ps)[a];
                let q = #[trigger] pool_places(ps)[b];
                p.0 < q.0 || (p.0 == q.0 && p.1 < q.1)
            },
    decreases ps.len(),
{
    lemma_places_in_order(ps);
    lemma_place_of(ps, pi, mi);
}

/// A configured model has a place.
proof fn lemma_place_of(ps: Seq<ProviderConfig>, pi: int, mi: int)
    requires
        0 <= pi < ps.len(),
        0 <= mi < ps[pi].models@.len(),
    ensures
        pool_places(ps).contains((pi, mi)),
    decreases ps.len(),
{
    let before = pool_places(ps.drop_last());
    if pi == ps.len() - 1 {
        assert(pool_places(ps)[before.len() + mi] == (pi, mi));
    } else {
        lemma_place_of(ps.drop_last(), pi, mi);
        let k = choose|k: int| 0 <= k < before.len() && before[k] == (pi, mi);
        assert(pool_places(ps)[k] == (pi, mi));
    }
}

/// The places are in the order of the config.
proof fn lemma_places_in_order(ps: Seq<ProviderConfig>)
    ensures
        forall|a: int, b: int|
            0 <= a < b < pool_places(ps).len() ==> {
                let p = #[trigger] pool_places(ps)[a];
                let q = #[trigger] pool_places(ps)[b];
                p.0 < q.0 || (p.0 == q.0 && p.1 < q.1)
            },
    decreases ps.len(),
{
    if ps.len() > 0 {
        lemma_places_in_order(ps.drop_last());
        lemma_places_below(ps.drop_last());
        let before = pool_places(ps.drop_last());
        assert forall|a: int, b: int| 0 <= a < b < pool_places(ps).len() implies {
            let p = #[trigger] pool_places(ps)[a];
            let q = #[trigger] pool_places(ps)[b];
            p.0 < q.0 || (p.0 == q.0 && p.1 < q.1)
        } by {
            if b < before.len() {
                assert(pool_places(ps)[a] == before[a]);
                assert(pool_places(ps)[b] == before[b]);
            } else if a < before.len() {
                assert(pool_places(ps)[a] == before[a]);
            }
        }
    }
}

/// The environment's key comes before the config's; a key of white space counts as none; and a
/// provider that names no key needs none.
pub proof fn lemma_keys_by_precedence(p: ProviderConfig, env_value: Option<Seq<char>>)
    ensures
        ({
            let of_env = p.key_env is Some && (env_value matches Some(v) && !text::blank(v));
            let of_config = p.api_key matches Some(k) && !text::blank(k@);
            &&& of_env ==> key_of(p, env_value) == KeyView::Key(env_value)
            &&& !of_env && of_config ==> key_of(p, env_value) == KeyView::Key(
                Some(p.api_key->Some_0@),
            )
            &&& !of_env && !of_config && (p.key_env is Some || p.api_key is Some) ==> key_of(
                p,
                env_value,
            ) == KeyView::Missing
            &&& p.key_env is None && p.api_key is None ==> key_of(p, env_value) == KeyView::Key(
                None,
            )
        }),
{
    if let Some(v) = env_value {
        lemma_blank_is_trimmed_away(v);
    }
    if let Some(k) = p.api_key {
        lemma_blank_is_trimmed_away(k@);
    }
}

/// Trimming leaves nothing of white space, and something of anything else.
proof fn lemma_blank_is_trimmed_away(t: Seq<char>)
    ensures
        not_blank(t) <==> !text::blank(t),
{
    text::lemma_trimmed_start_is_a_tail(t);
    let rest = text::trimmed_start(t);
    if text::blank(t) {
        assert(t + Seq::empty() + Seq::empty() =~= t);
        text::lemma_trimmed_is(t, Seq::empty(), Seq::empty());
    } else {
        let front = t.take(t.len() - rest.len());
        if rest.len() == 0 {
            assert(front =~= t);
        }
        lemma_end_keeps_the_front(rest);
    }
}

/// Trimming the end keeps a first character that is no white space.
proof fn lemma_end_keeps_the_front(t: Seq<char>)
    requires
        t.len() > 0,
        !text::white_space(t[0]),
    ensures
        text::trimmed_end(t).len() > 0,
    decreases t.len(),
{
    if text::white_space(t.last()) {
        lemma_end_keeps_the_front(t.drop_last());
    }
}

/// The pool is the config: every configured model has its entry, with its own key, provider and
/// prices, and the alias that the store has for it; and every entry is one of a configured model.
pub proof fn lemma_pool_is_the_config(
    entries: Seq<PoolEntry>,
    s: Tables,
    cfg: Config,
    now: i64,
    pi: int,
    mi: int,
)
    requires
        s.wf(),
        is_pool(entries, s, cfg, now),
        in_pool(cfg, pi, mi),
    ensures
        exists|k: int| 0 <= k < entries.len() && holds_model(#[trigger] entries[k], s, cfg, pi, mi),
        forall|k: int|
            0 <= k < entries.len() ==> is_configured(#[trigger] entries[k], s, cfg),
{
    let ps = cfg.providers@;
    let places = pool_places(ps);
    lemma_places_below(ps);
    lemma_places_are_the_config(ps, pi, mi);
    let (ratings, failures) = choose|ratings: Seq<AgedRating>, failures: Seq<AgedFailure>|
        #[trigger]
        s.ages_ratings(ratings, now) && #[trigger] s.ages_failures(failures, now) && entries.len()
            == places.len() && forall|k: int|
            0 <= k < entries.len() ==> is_entry(
                #[trigger] entries[k],
                s,
                ps,
                places[k],
                ratings,
                failures,
            );
    assert forall|k: int| 0 <= k < entries.len() implies holds_model(
        #[trigger] entries[k],
        s,
        cfg,
        places[k].0,
        places[k].1,
    ) by {
        let e = entries[k];
        assert(is_entry(e, s, ps, places[k], ratings, failures));
        let m = ps[places[k].0].models@[places[k].1];
        let slug = ps[places[k].0].slug@;
        crate::tables::lemma_first_where(s.aliases@, store::masking(m.canonical_key@, slug));
        let a = s.pair_alias_at(m.canonical_key@, slug)->Some_0;
        assert(masks(s.aliases@[a], e.alias, m.canonical_key@, slug));
    }
    let at = choose|k: int| 0 <= k < places.len() && places[k] == (pi, mi);
    assert(holds_model(entries[at], s, cfg, places[at].0, places[at].1));
    assert forall|k: int| 0 <= k < entries.len() implies is_configured(
        #[trigger] entries[k],
        s,
        cfg,
    ) by {
        assert(holds_model(entries[k], s, cfg, places[k].0, places[k].1));
    }
}

/// Whether a row of the store is an alias of a model at a provider, with these tokens.
pub open spec fn masks(
    row: store::AliasRow,
    alias: alias::Alias,
    canonical_key: Seq<char>,
    provider_slug: Seq<char>,
) -> bool {
    row.canonical_key@ == canonical_key && row.provider_slug@ == provider_slug
        && row.alias.provider_token@ == alias.provider_token@ && row.alias.model_token@
        == alias.model_token@
}

/// Whether an entry holds what is configured for the model at these positions, under an alias of it.
pub open spec fn holds_model(e: PoolEntry, s: Tables, cfg: Config, pi: int, mi: int) -> bool {
    &&& 0 <= pi < cfg.providers@.len()
    &&& 0 <= mi < cfg.providers@[pi].models@.len()
    &&& e.canonical_key@ == cfg.providers@[pi].models@[mi].canonical_key@
    &&& e.provider_slug@ == cfg.providers@[pi].slug@
    &&& e.input_per_mtok == cfg.providers@[pi].models@[mi].input_per_mtok
    &&& e.output_per_mtok == cfg.providers@[pi].models@[mi].output_per_mtok
    &&& exists|a: int|
        0 <= a < s.aliases@.len() && masks(
            #[trigger] s.aliases@[a],
            e.alias,
            e.canonical_key@,
            e.provider_slug@,
        )
}

/// Whether an entry is one of a configured model.
pub open spec fn is_configured(e: PoolEntry, s: Tables, cfg: Config) -> bool {
    exists|pi: int, mi: int| #[trigger] holds_model(e, s, cfg, pi, mi)
}

/// What is entered of a model is what is configured: its slug at its provider, and its prices, input
/// and output, where they are not the newest ones already.
pub proof fn lemma_entered_as_configured(
    s: Tables,
    next: Tables,
    slug: Seq<char>,
    m: ModelConfig,
    now: i64,
)
    requires
        model_entered(s, next, slug, m, now),
    ensures
        exists|c: int|
            0 <= c < next.catalog@.len() && (#[trigger] next.catalog@[c]).canonical_key@
                == m.canonical_key@ && next.catalog@[c].provider_slug@ == slug
                && next.catalog@[c].real_slug@ == m.real_slug@,
        next.price_history@.len() > s.price_history@.len() ==> {
            let row = next.price_history@[s.price_history@.len() as int];
            &&& row.canonical_key@ == m.canonical_key@
            &&& row.provider_slug@ == slug
            &&& row.input_per_mtok == m.input_per_mtok
            &&& row.output_per_mtok == m.output_per_mtok
            &&& row.observed_at == now
        },
        settled(s, slug, m) <==> store::same_price(
            s.price_of(m.canonical_key@, slug).0,
            m.input_per_mtok,
        ) && store::same_price(s.price_of(m.canonical_key@, slug).1, m.output_per_mtok),
        settled(s, slug, m) ==> next.price_history == s.price_history,
        !settled(s, slug, m) ==> next.price_history@.len() == s.price_history@.len() + 1,
{
    let set = Tables { catalog: next.catalog, ..s };
    let c = match s.model_at(m.canonical_key@, slug) {
        Some(i) => i,
        None => s.catalog@.len() as int,
    };
    tables::lemma_first_where(s.catalog@, store::offering(m.canonical_key@, slug));
    assert(set.catalog@[c].canonical_key@ == m.canonical_key@);
    assert(0 <= c < next.catalog@.len() && next.catalog@[c].canonical_key@ == m.canonical_key@);
}

/// A missing key is said with the provider, and with the variable that would hold the key.
pub proof fn lemma_missing_key_is_named(p: ProviderConfig)
    ensures
        text::begins_with(key_error_text(p), "provider "@ + p.slug@),
        p.key_env matches Some(var) ==> text::occurs(key_error_text(p), var@),
{
    let t = key_error_text(p);
    let lead = "provider "@ + p.slug@;
    assert(t.subrange(0, lead.len() as int) =~= lead);
    if let Some(var) = p.key_env {
        let at = (lead + ": no API key resolved — set the "@).len() as int;
        assert(t.subrange(at, at + var@.len()) =~= var@);
        assert(text::matches_at(t, at, var@));
    }
}

/// A seeded store holds the config row by row: each provider with its address and wire format, each
/// model with its slug there, and an alias for the two.
pub proof fn lemma_seeded_store_holds_the_config(
    s0: Tables,
    s: Tables,
    cfg: Config,
    now: i64,
    pi: int,
    mi: int,
)
    requires
        seeded_up_to(
            s0,
            s,
            cfg,
            cfg.providers@.len() as int,
            cfg.providers@.len() as int,
            0,
            now,
        ),
        distinct_pool(cfg),
        in_pool(cfg, pi, mi),
    ensures
        exists|p: int|
            0 <= p < s.providers@.len() && (#[trigger] s.providers@[p]).slug@
                == cfg.providers@[pi].slug@ && s.providers@[p].base_url@
                == cfg.providers@[pi].base_url@ && s.providers@[p].wire@
                == cfg.providers@[pi].wire@,
        exists|c: int|
            0 <= c < s.catalog@.len() && (#[trigger] s.catalog@[c]).canonical_key@
                == cfg.providers@[pi].models@[mi].canonical_key@ && s.catalog@[c].provider_slug@
                == cfg.providers@[pi].slug@ && s.catalog@[c].real_slug@
                == cfg.providers@[pi].models@[mi].real_slug@,
        exists|a: int|
            0 <= a < s.aliases@.len() && (#[trigger] s.aliases@[a]).canonical_key@
                == cfg.providers@[pi].models@[mi].canonical_key@ && s.aliases@[a].provider_slug@
                == cfg.providers@[pi].slug@,
{
    let ps = cfg.providers@;
    let m = model(cfg, pi, mi);
    let slug = ps[pi].slug@;
    assert(registered(s, ps[pi]));
    assert(listed(s, cfg, pi, mi));
    assert(masked(s, cfg, pi, mi));
    tables::lemma_first_where(s.providers@, store::with_slug(slug));
    tables::lemma_first_where(s.catalog@, store::offering(m.canonical_key@, slug));
    tables::lemma_first_where(s.aliases@, store::masking(m.canonical_key@, slug));
    let p = s.provider_at(slug)->Some_0;
    assert(s.providers@[p].slug@ == slug);
    let c = s.model_at(m.canonical_key@, slug)->Some_0;
    assert(s.catalog@[c].canonical_key@ == m.canonical_key@);
    let a = s.pair_alias_at(m.canonical_key@, slug)->Some_0;
    assert(s.aliases@[a].canonical_key@ == m.canonical_key@);
}

/// A new alias takes over the tokens that its model and its provider have, and has new ones of full
/// length for those that have none; so it tells nothing but what is shared.
pub proof fn lemma_new_alias_tokens(
    s: Tables,
    provider_token: Seq<char>,
    model_token: Seq<char>,
    canonical_key: Seq<char>,
    provider_slug: Seq<char>,
    i: int,
)
    requires
        tokens_shared(s),
        may_mask(s, provider_token, model_token, canonical_key, provider_slug),
    ensures
        0 <= i < s.aliases@.len() && s.aliases@[i].canonical_key@ == canonical_key ==> model_token
            == s.aliases@[i].alias.model_token@,
        0 <= i < s.aliases@.len() && s.aliases@[i].provider_slug@ == provider_slug
            ==> provider_token == s.aliases@[i].alias.provider_token@,
        (forall|k: int|
            0 <= k < s.aliases@.len() ==> (#[trigger] s.aliases@[k]).canonical_key@
                != canonical_key) ==> model_token.len() == TOKEN_LEN && forall|k: int|
            0 <= k < model_token.len() ==> 'a' <= #[trigger] model_token[k] <= 'z' || '0'
                <= model_token[k] <= '9',
        (forall|k: int|
            0 <= k < s.aliases@.len() ==> (#[trigger] s.aliases@[k]).provider_slug@
                != provider_slug) ==> provider_token.len() == TOKEN_LEN && forall|k: int|
            0 <= k < provider_token.len() ==> 'a' <= #[trigger] provider_token[k] <= 'z' || '0'
                <= provider_token[k] <= '9',
{
    tables::lemma_first_where(s.aliases@, store::masking_model(canonical_key));
    tables::lemma_first_where(s.aliases@, store::masking_provider(provider_slug));
    if 0 <= i < s.aliases@.len() {
        let row = s.aliases@[i];
        if row.canonical_key@ == canonical_key {
            assert(store::masking_model(canonical_key)(s.aliases@[i]));
        }
        if row.provider_slug@ == provider_slug {
            assert(store::masking_provider(provider_slug)(s.aliases@[i]));
        }
    }
}

} // verus!
