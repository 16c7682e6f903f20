use blindcoder::backend::{CostSource, ErrorKind};
use blindcoder::config::{CaptureLevel, Config, ModelConfig, Privacy, ProviderConfig};
use blindcoder::double::Double;
use blindcoder::json::parse;
use blindcoder::named::Named;
use blindcoder::pool::{
    build_pool, ensure_alias, find_provider, resolve_api_key, seed_pool, PoolEntry, PoolError,
};
use blindcoder::run::{admit_pool, gather_pool, open_session, AdmittedPool, RunError, Surroundings};
use blindcoder::selector::credited_difficulty;
use blindcoder::store::{SessionEnd, Store, Tables};
use rand::rngs::StdRng;
use rand::SeedableRng;

fn d(x: f64) -> Double {
    Double { bits: x.to_bits() }
}

fn f(x: Option<Double>) -> f64 {
    x.map_or(0.0, |x| f64::from_bits(x.bits))
}

fn mixed_pool_config() -> Config {
    let free = ProviderConfig {
        slug: "free-prov".into(),
        base_url: "http://free.test/v1".into(),
        wire: "openai".into(),
        key_env: Some("FREE_PROV_KEY".into()),
        models: vec![ModelConfig {
            canonical_key: "model-x".into(),
            real_slug: "free-prov/model-x".into(),
            input_per_mtok: None,
            output_per_mtok: None,
        }],
        ..Default::default()
    };
    let paid = ProviderConfig {
        slug: "paid-prov".into(),
        base_url: "http://paid.test/v1".into(),
        wire: "openai".into(),
        key_env: Some("PAID_PROV_KEY".into()),
        models: vec![ModelConfig {
            canonical_key: "model-x".into(),
            real_slug: "paid-prov/model-x".into(),
            input_per_mtok: Some(d(0.55)),
            output_per_mtok: Some(d(2.2)),
        }],
        ..Default::default()
    };
    Config {
        providers: vec![free, paid],
        ..Default::default()
    }
}

fn at(entries: &[PoolEntry], slug: &str) -> usize {
    entries.iter().position(|e| e.provider_slug == slug).unwrap()
}

fn raw_price(e: &PoolEntry, cfg: &Config) -> f64 {
    f(e.input_per_mtok) * f(Some(cfg.cost_basis.input_weight))
        + f(e.output_per_mtok) * f(Some(cfg.cost_basis.output_weight))
}

/// The blended price of an entry as a share of the highest in the pool.
fn normalized_price(entries: &[PoolEntry], i: usize, cfg: &Config) -> f64 {
    let max = entries.iter().map(|e| raw_price(e, cfg)).fold(0.0, f64::max);
    raw_price(&entries[i], cfg) / max
}

fn mean(e: &PoolEntry, cfg: &Config) -> f64 {
    let (mut wins, mut losses) = (1.0, 1.0);
    for r in &e.ratings {
        let points = r.performance_points as f64 + f(Some(cfg.difficulty_credit)) * credited_difficulty(r) as f64;
        let score = 1.0 / (1.0 + (-points / f(Some(cfg.score_spread))).exp());
        wins += score;
        losses += 1.0 - score;
    }
    for x in &e.failures {
        losses += f(Some(cfg.failure_sensitivity)) * x.loss_weight as f64 / 100.0;
    }
    wins / (wins + losses)
}

#[test]
fn non_zdr_model_is_priced_like_any_other() {
    let mut store = Store::open_in_memory();
    let mut cfg = mixed_pool_config();
    cfg.providers.push(ProviderConfig {
        slug: "pwd".into(),
        base_url: "https://api.example.test/v1".into(),
        privacy: Some(Privacy::NoZdr),
        non_zdr_attested_models: vec!["example/non-zdr-model".into()],
        expires: Some("2026-08-30".into()),
        models: vec![ModelConfig {
            canonical_key: "non-zdr-model".into(),
            real_slug: "example/non-zdr-model".into(),
            input_per_mtok: Some(d(0.1)),
            output_per_mtok: Some(d(0.4)),
        }],
        ..Default::default()
    });
    let mut rng = StdRng::seed_from_u64(5);
    seed_pool(&mut store, &cfg, &mut rng, 0).unwrap();
    let entries = build_pool(&store, &cfg, 0).unwrap();
    let nz = at(&entries, "pwd");
    // 0.1 * 0.7 + 0.4 * 0.3 = 0.19 blended — a real, nonzero shelf price in the pool.
    assert!((raw_price(&entries[nz], &cfg) - 0.19).abs() < 1e-12);
    assert!(normalized_price(&entries, nz, &cfg) > 0.0);
    assert_eq!(
        entries[nz].input_per_mtok,
        Some(d(0.1)),
        "cap estimation stays live"
    );
}

#[test]
fn api_key_env_wins_then_falls_back_to_inline() {
    let mut p = ProviderConfig {
        slug: "prov".into(),
        key_env: Some("BLINDCODER_TEST_KEY_PRECEDENCE".into()),
        api_key: Some("inline-key".into()),
        ..Default::default()
    };
    // Env unset → inline is used.
    assert_eq!(resolve_api_key(&p, None).unwrap().as_deref(), Some("inline-key"));
    // Env set and non-empty → env wins.
    assert_eq!(resolve_api_key(&p, Some("env-key")).unwrap().as_deref(), Some("env-key"));
    // Empty env is ignored → inline again.
    assert_eq!(resolve_api_key(&p, Some("   ")).unwrap().as_deref(), Some("inline-key"));
    // Auth configured but nothing resolves → error.
    p.api_key = None;
    let e = resolve_api_key(&p, None).unwrap_err();
    assert!(e.message.contains("prov"), "{}", e.message);
    assert!(e.message.contains("BLINDCODER_TEST_KEY_PRECEDENCE"), "{}", e.message);
    // Neither field → keyless (no auth header), not an error.
    p.key_env = None;
    assert!(resolve_api_key(&p, None).unwrap().is_none());
}

#[test]
fn seed_is_idempotent_and_shares_the_model_token() {
    let mut store = Store::open_in_memory();
    let cfg = mixed_pool_config();
    let mut rng = StdRng::seed_from_u64(1);
    seed_pool(&mut store, &cfg, &mut rng, 0).unwrap();
    let once = store.tables().clone();
    seed_pool(&mut store, &cfg, &mut rng, 1).unwrap(); // second run must not duplicate

    // The registries are as they were, too.
    let row = |t: &Tables| {
        let providers: Vec<_> = t
            .providers
            .iter()
            .map(|p| (p.slug.clone(), p.base_url.clone(), p.wire.clone()))
            .collect();
        let catalog: Vec<_> = t
            .catalog
            .iter()
            .map(|c| (c.canonical_key.clone(), c.provider_slug.clone(), c.real_slug.clone()))
            .collect();
        (providers, catalog)
    };
    assert_eq!(row(store.tables()), row(&once));
    assert_eq!(store.tables().providers.len(), 2);
    assert_eq!(store.tables().catalog.len(), 2);
    assert_eq!(store.tables().price_history.len(), 1);

    // Two aliases (one per provider) sharing one model-token.
    assert_eq!(store.tables().aliases.len(), 2);
    let free_alias = store.alias_for("model-x", "free-prov").unwrap();
    let paid_alias = store.alias_for("model-x", "paid-prov").unwrap();
    assert_eq!(
        free_alias.model_token, paid_alias.model_token,
        "same model → same model-token"
    );
    assert_ne!(
        free_alias.provider_token, paid_alias.provider_token,
        "different providers"
    );
    // The free model records no price row; only the priced provider does.
    assert_eq!(store.latest_prices().len(), 1);
}

#[test]
fn build_pool_folds_ratings_and_prices_the_free_model_at_zero() {
    let mut store = Store::open_in_memory();
    let cfg = mixed_pool_config();
    let mut rng = StdRng::seed_from_u64(2);
    seed_pool(&mut store, &cfg, &mut rng, 0).unwrap();

    let entries = build_pool(&store, &cfg, 0).unwrap();
    assert_eq!(entries.len(), 2);
    // The free entry normalizes to price 0; the priced entry to 1 (pool max).
    let (free_i, paid_i) = (at(&entries, "free-prov"), at(&entries, "paid-prov"));
    assert_eq!(normalized_price(&entries, free_i, &cfg), 0.0);
    assert_eq!(normalized_price(&entries, paid_i, &cfg), 1.0);
    // No ratings yet → both candidates fold to the blank prior.
    assert!((mean(&entries[free_i], &cfg) - 0.5).abs() < 1e-12);
}

#[test]
fn a_rating_moves_the_shared_track_record() {
    let mut store = Store::open_in_memory();
    let cfg = mixed_pool_config();
    let mut rng = StdRng::seed_from_u64(3);
    seed_pool(&mut store, &cfg, &mut rng, 0).unwrap();

    let free_alias = store.alias_for("model-x", "free-prov").unwrap().display();
    let sid = store
        .record_session_start(&free_alias, None, None, CaptureLevel::Metadata, 0)
        .unwrap();
    store.record_rating(sid, 2, 0, None, 0).unwrap();

    let entries = build_pool(&store, &cfg, 0).unwrap();
    let (free_i, paid_i) = (at(&entries, "free-prov"), at(&entries, "paid-prov"));
    assert!(
        mean(&entries[free_i], &cfg) > 0.5,
        "a positive rating lifts the track record"
    );
    assert_eq!(
        mean(&entries[free_i], &cfg),
        mean(&entries[paid_i], &cfg),
        "the track record is shared across providers for one canonical_key"
    );
    assert_eq!(entries[free_i].ratings, entries[paid_i].ratings);
}

#[test]
fn a_failed_session_drags_the_shared_track_record_down() {
    let mut store = Store::open_in_memory();
    let mut cfg = mixed_pool_config();
    let mut rng = StdRng::seed_from_u64(4);
    seed_pool(&mut store, &cfg, &mut rng, 0).unwrap();

    let free_alias = store.alias_for("model-x", "free-prov").unwrap().display();
    let sid = store
        .record_session_start(&free_alias, None, None, CaptureLevel::Metadata, 0)
        .unwrap();
    store
        .record_session_end(
            sid,
            &SessionEnd {
                realized_cost: Some(d(0.0)),
                cost_source: Some(CostSource::Estimate),
                prompt_tokens: Some(0),
                completion_tokens: Some(0),
                cached_prompt_tokens: None,
                error_kind: Some(ErrorKind::TooLarge),
                error_status: Some(413),
                terminated_by: None,
            },
            0,
        )
        .unwrap();

    let entries = build_pool(&store, &cfg, 0).unwrap();
    let (free_i, paid_i) = (at(&entries, "free-prov"), at(&entries, "paid-prov"));
    assert!(
        mean(&entries[free_i], &cfg) < 0.5,
        "a failure drags the track record below the prior"
    );
    assert_eq!(
        mean(&entries[free_i], &cfg),
        mean(&entries[paid_i], &cfg),
        "the failure is shared across providers for one canonical_key"
    );

    // failure_sensitivity = 0 makes it inert: the candidate is back at the blank prior.
    cfg.failure_sensitivity = d(0.0);
    let entries0 = build_pool(&store, &cfg, 0).unwrap();
    assert!(
        (mean(&entries0[free_i], &cfg) - 0.5).abs() < 1e-12,
        "sensitivity 0 ignores failures"
    );
}

#[test]
fn pools_that_cannot_be_built() {
    let cfg = mixed_pool_config();
    let store = Store::open_in_memory();
    assert_eq!(build_pool(&store, &cfg, 0).unwrap_err(), PoolError::NotSeeded);
    let empty = Config::default();
    assert_eq!(build_pool(&store, &empty, 0).unwrap_err(), PoolError::Empty);
    assert!(PoolError::Empty.message() != PoolError::NotSeeded.message());
}

#[test]
fn aliases_are_kept_and_tokens_shared() {
    let mut store = Store::open_in_memory();
    let mut rng = StdRng::seed_from_u64(9);
    let a = ensure_alias(&mut store, "m1", "p1", &mut rng).unwrap();
    let b = ensure_alias(&mut store, "m2", "p1", &mut rng).unwrap();
    let c = ensure_alias(&mut store, "m1", "p2", &mut rng).unwrap();
    assert_eq!(a.provider_token, b.provider_token);
    assert_eq!(a.model_token, c.model_token);
    assert_eq!(ensure_alias(&mut store, "m1", "p1", &mut rng).unwrap().display(), a.display());
    assert_eq!(store.tables().aliases.len(), 3);
}

#[test]
fn providers_are_found_by_slug() {
    let cfg = mixed_pool_config();
    assert_eq!(find_provider(&cfg, "paid-prov"), Some(1));
    assert_eq!(find_provider(&cfg, "none"), None);
}

const AROUND: Surroundings<'static> = Surroundings {
    key_value: Some("sk-1"),
    state_dir: Some("/state"),
    now: 40,
};

fn no_zdr_config() -> Config {
    let mut cfg = mixed_pool_config();
    cfg.providers[0].privacy = Some(Privacy::NoZdr);
    cfg.providers[0].non_zdr_attested_models = vec!["free-prov/model-x".into()];
    cfg.providers[0].expires = Some("1970-01-03".into());
    cfg.providers[1].privacy = Some(Privacy::OpenRouter);
    cfg.providers[1].base_url = "https://openrouter.ai/api/v1".into();
    cfg.providers[1].extra_body = Named::from_pairs(vec![("x".into(), parse(b"1").unwrap())]);
    cfg
}

/// Passes a config through the gates on the first day, with every consent given.
fn past_the_gates(cfg: &Config) -> AdmittedPool<'_> {
    admit_pool(cfg, true, true, true, 0).unwrap()
}

#[test]
fn a_session_is_opened_for_the_picked_entry() {
    let mut store = Store::open_in_memory();
    let cfg = no_zdr_config();
    let pool = past_the_gates(&cfg);
    assert!(pool.armed());
    let mut rng = StdRng::seed_from_u64(6);
    let entries = gather_pool(&mut store, &pool, &mut rng, 0).unwrap();
    // Every entry leads to its own model at its own provider.
    for (e, p) in entries.iter().zip(&cfg.providers) {
        let route = store.resolve_route(&e.alias.display()).unwrap();
        assert_eq!(route.base_url, p.base_url);
        assert_eq!(route.real_slug, p.models[0].real_slug);
        assert_eq!(find_provider(&cfg, &e.provider_slug).map(|i| &cfg.providers[i].slug), Some(&p.slug));
    }
    let command = vec!["opencode".to_string(), "-p".to_string()];

    let open = open_session(&mut store, &pool, &entries[at(&entries, "paid-prov")], &command, &AROUND).unwrap();
    assert_eq!(open.pick.real_slug, "paid-prov/model-x");
    assert_eq!(open.pick.endpoint.url(), "https://openrouter.ai/api/v1");
    assert_eq!(open.backend.api_key.as_deref(), Some("sk-1"));
    assert_eq!(open.backend.extra_body.len(), 1);
    assert!(open.backend.non_zdr_audit.is_none());
    assert_eq!(open.alias_display, entries[at(&entries, "paid-prov")].alias.display());
    assert_eq!(store.tables().sessions.len(), 1);
    assert_eq!(store.tables().sessions[0].id, open.session_id);
    assert_eq!(store.tables().sessions[0].cli.as_deref(), Some("opencode"));
    assert_eq!(store.tables().sessions[0].started_at, 40);

    let open = open_session(&mut store, &pool, &entries[at(&entries, "free-prov")], &vec![], &AROUND).unwrap();
    let audit = open.backend.non_zdr_audit.unwrap();
    assert_eq!(audit.expires_epoch_days, Some(2));
    assert!(audit.path.starts_with("/state/"), "{}", audit.path);
    assert_eq!(store.tables().sessions[1].cli.as_deref(), Some("proxy"));
    assert_eq!(store.tables().reveals.len(), 2, "each crossing is journaled");
}

#[test]
fn sessions_that_cannot_be_opened() {
    let mut rng = StdRng::seed_from_u64(7);
    let mut store = Store::open_in_memory();
    let cfg = no_zdr_config();
    let pool = past_the_gates(&cfg);
    let entries = gather_pool(&mut store, &pool, &mut rng, 0).unwrap();
    let paid = &entries[at(&entries, "paid-prov")];
    let free = &entries[at(&entries, "free-prov")];

    let no_key = Surroundings { key_value: None, ..AROUND };
    let e = open_session(&mut store, &pool, paid, &vec![], &no_key).unwrap_err();
    assert!(matches!(e, RunError::Key(_)), "{e:?}");
    let no_dir = Surroundings { state_dir: None, ..AROUND };
    let e = open_session(&mut store, &pool, free, &vec![], &no_dir).unwrap_err();
    assert!(matches!(e, RunError::NoStateDir), "{e:?}");
    assert!(!e.message().is_empty());

    let none = Config::default();
    let nobody = past_the_gates(&none);
    let e = open_session(&mut store, &nobody, paid, &vec![], &AROUND).unwrap_err();
    assert!(matches!(e, RunError::ProviderMissing), "{e:?}");
    let mut bare = Store::open_in_memory();
    let e = open_session(&mut bare, &pool, paid, &vec![], &AROUND).unwrap_err();
    assert!(matches!(e, RunError::NoRoute), "{e:?}");

    let mut s = Store::open_in_memory();
    let e = gather_pool(&mut s, &nobody, &mut rng, 0).unwrap_err();
    assert!(matches!(e, RunError::Pool(PoolError::Empty)), "{e:?}");
}

#[test]
fn what_seeding_makes_of_an_empty_store() {
    let mut cfg = mixed_pool_config();
    cfg.providers[1].models.push(ModelConfig {
        canonical_key: "model-y".into(),
        real_slug: "paid-prov/model-y".into(),
        input_per_mtok: None,
        output_per_mtok: None,
    });
    let mut store = Store::open_in_memory();
    let mut rng = StdRng::seed_from_u64(8);
    seed_pool(&mut store, &cfg, &mut rng, 0).unwrap();
    let t = store.tables();
    let pairs: Vec<(&str, &str)> = t
        .aliases
        .iter()
        .map(|a| (a.canonical_key.as_str(), a.provider_slug.as_str()))
        .collect();
    assert_eq!(pairs, [("model-x", "free-prov"), ("model-x", "paid-prov"), ("model-y", "paid-prov")]);
    assert_eq!(t.aliases[0].alias.model_token, t.aliases[1].alias.model_token);
    assert_eq!(t.aliases[1].alias.provider_token, t.aliases[2].alias.provider_token);
    assert_eq!(t.price_history.len(), 1, "models without prices have no price");
    assert_eq!(t.price_history[0].provider_slug, "paid-prov");
    assert_eq!(t.price_history[0].canonical_key, "model-x");
}
