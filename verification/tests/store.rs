use blindcoder::alias::{Alias, RevealReason};
use blindcoder::backend::{AbortReason, CostSource, ErrorKind};
use blindcoder::config::CaptureLevel;
use blindcoder::double::Double;
use blindcoder::store::{age_of, SessionEnd, Store, StoreError, Tables};

fn d(x: f64) -> Double {
    Double { bits: x.to_bits() }
}

fn alias(provider_token: &str, model_token: &str) -> Alias {
    Alias {
        provider_token: provider_token.into(),
        model_token: model_token.into(),
    }
}

const NO_END: SessionEnd = SessionEnd {
    realized_cost: None,
    cost_source: None,
    prompt_tokens: None,
    completion_tokens: None,
    cached_prompt_tokens: None,
    error_kind: None,
    error_status: None,
    terminated_by: None,
};

/// Seeds one session whose alias resolves to `canonical_key`, and gives back its id.
fn seed_session(s: &mut Store, alias_display: &str, canonical_key: &str) -> i64 {
    let sid = s
        .record_session_start(alias_display, None, None, CaptureLevel::Metadata, 0)
        .unwrap();
    let (p, m) = alias_display.split_once(':').unwrap();
    s.insert_alias(&alias(p, m), canonical_key, "prov").unwrap();
    sid
}

#[test]
fn ratings_are_append_only() {
    let mut s = Store::open_in_memory();
    let sid = s
        .record_session_start("x7k2:q4m9", None, None, CaptureLevel::Metadata, 0)
        .unwrap();
    let first = s.record_rating(sid, 1, 2, None, 10).unwrap();
    // A correction supersedes and does not edit.
    let second = s.record_rating(sid, 2, 2, Some(first), 20).unwrap();
    assert_ne!(first, second);
    assert_eq!(s.tables().ratings.len(), 2);
    assert_eq!(s.tables().ratings[0].id, first);
    assert_eq!(s.tables().ratings[0].performance_points, 1);
    assert_eq!(s.tables().ratings[0].rated_at, 10);
    assert_eq!(s.tables().ratings[1].supersedes, Some(first));
    // The rows can be read and copied; an edited copy is not the store's.
    let mut copy = s.tables().clone();
    copy.ratings[0].performance_points = -2;
    copy.ratings.truncate(1);
    assert_eq!(s.tables().ratings.len(), 2);
    assert_eq!(s.tables().ratings[0].performance_points, 1);
    // What is refused leaves the log as it was.
    assert_eq!(s.record_rating(sid, 9, 2, Some(first), 30), Err(StoreError::PerformanceRange));
    assert_eq!(s.tables().ratings.len(), 2);
}

#[test]
fn supersede_does_not_double_count() {
    let mut s = Store::open_in_memory();
    let sid = seed_session(&mut s, "x7k2:q4m9", "acme/model-x");
    let original = s.record_rating(sid, -1, 2, None, 0).unwrap();
    // A correction supersedes the original — the fold must see only the correction.
    s.record_rating(sid, 2, 2, Some(original), 0).unwrap();

    let eff = s.effective_ratings();
    assert_eq!(eff.len(), 1, "superseded original must be excluded");
    assert_eq!(eff[0].performance_points, 2);
    assert_eq!(eff[0].canonical_key, "acme/model-x");
}

#[test]
fn supersede_chain_collapses_to_the_tip() {
    let mut s = Store::open_in_memory();
    let sid = seed_session(&mut s, "x7k2:q4m9", "acme/model-x");
    let a = s.record_rating(sid, -2, 1, None, 0).unwrap();
    let b = s.record_rating(sid, 0, 1, Some(a), 0).unwrap();
    let _c = s.record_rating(sid, 2, 1, Some(b), 0).unwrap();

    let eff = s.effective_ratings();
    assert_eq!(eff.len(), 1, "A <- B <- C must collapse to only C");
    assert_eq!(eff[0].performance_points, 2);
}

#[test]
fn effective_ratings_span_sessions_and_models() {
    let mut s = Store::open_in_memory();
    let s1 = seed_session(&mut s, "aaaa:q4m9", "acme/model-x");
    let s2 = seed_session(&mut s, "bbbb:z9z9", "acme/model-y");
    s.record_rating(s1, 1, 0, None, 0).unwrap();
    s.record_rating(s2, 2, 0, None, 0).unwrap();

    let eff = s.effective_ratings();
    assert_eq!(eff.len(), 2);
    let keys: Vec<&str> = eff.iter().map(|r| r.canonical_key.as_str()).collect();
    assert!(keys.contains(&"acme/model-x") && keys.contains(&"acme/model-y"));
}

#[test]
fn seed_resolve_route_round_trips() {
    let mut s = Store::open_in_memory();
    s.upsert_provider("prov-a", "http://prov-a.test/v1", "openai");
    s.upsert_model("model-x", "prov-a", "prov-a/model-x");
    let a = alias("pt01", "mt01");
    s.insert_alias(&a, "model-x", "prov-a").unwrap();

    let route = s.resolve_route(&a.display()).expect("route resolves");
    assert_eq!(route.real_slug, "prov-a/model-x");
    assert_eq!(route.base_url, "http://prov-a.test/v1");
    assert_eq!(route.canonical_key, "model-x");
    assert!(s.resolve_route("nope:nope").is_none());
}

#[test]
fn model_token_is_shared_across_providers() {
    let mut s = Store::open_in_memory();
    assert!(s.model_token_for("model-x").is_none());
    let a = alias("pt01", "mt01");
    s.insert_alias(&a, "model-x", "prov-a").unwrap();
    assert_eq!(s.model_token_for("model-x").as_deref(), Some("mt01"));
    assert_eq!(s.provider_token_for("prov-a").as_deref(), Some("pt01"));
}

#[test]
fn prices_append_on_change_only() {
    let mut s = Store::open_in_memory();
    s.record_price_if_changed("model-x", "prov-a", Some(d(0.55)), Some(d(2.2)), 0);
    s.record_price_if_changed("model-x", "prov-a", Some(d(0.55)), Some(d(2.2)), 1);
    assert_eq!(s.tables().price_history.len(), 1, "unchanged re-seed must not append");

    let latest = s.latest_prices();
    assert_eq!(latest.len(), 1);
    assert_eq!(latest[0].input_per_mtok, Some(d(0.55)));

    s.record_price_if_changed("model-x", "prov-a", Some(d(0.6)), Some(d(2.2)), 2);
    assert_eq!(s.tables().price_history.len(), 2);
    assert_eq!(s.latest_prices()[0].input_per_mtok, Some(d(0.6)));
    s.record_price_if_changed("model-x", "prov-b", None, None, 3);
    assert_eq!(s.latest_prices()[0].input_per_mtok, Some(d(0.6)));
}

#[test]
fn session_lifecycle_records_start_and_terminated_end() {
    let mut s = Store::open_in_memory();
    let sid = s
        .record_session_start("x7k2:q4m9", Some("opencode"), None, CaptureLevel::Metadata, 5)
        .unwrap();
    s.record_session_end(
        sid,
        &SessionEnd {
            realized_cost: Some(d(0.0)),
            prompt_tokens: Some(1200),
            completion_tokens: Some(340),
            terminated_by: Some(AbortReason::CostCap),
            ..NO_END
        },
        9,
    )
    .unwrap();
    assert_eq!(s.tables().session_end.len(), 1);
    let row = &s.tables().session_end[0];
    assert_eq!(row.session_id, sid);
    assert_eq!(row.end.realized_cost, Some(d(0.0)));
    assert_eq!(row.end.terminated_by.map(|t| t.as_str()), Some("cost_cap"));
    assert_eq!(row.ended_at, 9);
    assert_eq!(s.tables().sessions[0].cli.as_deref(), Some("opencode"));
}

#[test]
fn reveals_are_append_only() {
    let mut s = Store::open_in_memory();
    let sid = seed_session(&mut s, "x7k2:q4m9", "acme/model-x");
    let id = s
        .record_reveal("x7k2:q4m9", Some(sid), RevealReason::UserRequested, 0)
        .unwrap();
    // A session-less reveal is allowed.
    let other = s
        .record_reveal("x7k2:q4m9", None, RevealReason::Routing, 0)
        .unwrap();
    assert_ne!(id, other);
    assert_eq!(s.tables().reveals.len(), 2);
    assert_eq!(s.tables().reveals[0].id, id);
    assert_eq!(s.tables().reveals[0].reason, RevealReason::UserRequested);
}

#[test]
fn what_the_tables_refuse() {
    let mut s = Store::open_in_memory();
    let sid = seed_session(&mut s, "x7k2:q4m9", "m");
    assert_eq!(s.record_rating(sid, 3, 0, None, 0), Err(StoreError::PerformanceRange));
    assert_eq!(s.record_rating(sid, -3, 0, None, 0), Err(StoreError::PerformanceRange));
    assert_eq!(s.record_rating(sid, 2, 5, None, 0), Err(StoreError::DifficultyRange));
    assert_eq!(s.record_rating(sid, 2, -1, None, 0), Err(StoreError::DifficultyRange));
    assert_eq!(s.record_rating(sid + 1, 2, 4, None, 0), Err(StoreError::NoSuchSession));
    assert_eq!(s.record_rating(sid, 2, 4, Some(1), 0), Err(StoreError::NoSuchRating));
    assert_eq!(s.record_reveal("a", Some(99), RevealReason::Stats, 0), Err(StoreError::NoSuchSession));
    assert_eq!(s.insert_alias(&alias("x7k2", "q4m9"), "n", "p"), Err(StoreError::AliasTaken));
    assert_eq!(s.record_session_end(99, &NO_END, 0), Err(StoreError::NoSuchSession));
    s.record_session_end(sid, &NO_END, 0).unwrap();
    assert_eq!(s.record_session_end(sid, &NO_END, 0), Err(StoreError::AlreadyEnded));
    assert!(s.tables().ratings.is_empty() && s.tables().reveals.is_empty() && s.tables().session_end.len() == 1);
    for e in [
        StoreError::PerformanceRange,
        StoreError::DifficultyRange,
        StoreError::NoSuchSession,
        StoreError::NoSuchRating,
        StoreError::AliasTaken,
        StoreError::AlreadyEnded,
        StoreError::OutOfIds,
    ] {
        assert!(!e.message().is_empty());
    }
}

#[test]
fn ids_run_out() {
    let mut s = Store::open_in_memory();
    s.record_session_start("a:b", None, None, CaptureLevel::Metadata, 0).unwrap();
    let mut tables = s.tables().clone();
    tables.sessions[0].id = i64::MAX;
    let mut s = Store::open(tables).unwrap();
    assert_eq!(
        s.record_session_start("a:b", None, None, CaptureLevel::Metadata, 0),
        Err(StoreError::OutOfIds)
    );
    assert_eq!(s.tables().sessions.len(), 1);
}

#[test]
fn ill_formed_tables_are_not_opened() {
    let mut s = Store::open_in_memory();
    let sid = s.record_session_start("a:b", None, None, CaptureLevel::Metadata, 0).unwrap();
    s.record_rating(sid, 1, 1, None, 0).unwrap();
    let mut tables = Store::open(s.tables().clone()).unwrap().tables().clone();
    tables.ratings[0].supersedes = Some(tables.ratings[0].id);
    assert!(Store::open(tables).is_none(), "a rating corrects an earlier one");

    let mut s = Store::open_in_memory();
    s.record_session_start("a:b", None, None, CaptureLevel::Metadata, 0).unwrap();
    s.record_session_start("a:b", None, None, CaptureLevel::Metadata, 0).unwrap();
    let mut tables = s.tables().clone();
    tables.sessions[1].id = tables.sessions[0].id;
    assert!(Store::open(tables).is_none(), "ids name one row each");
}

#[test]
fn what_is_there_once_is_not_opened_twice() {
    let mut s = Store::open_in_memory();
    s.upsert_provider("p", "u", "openai");
    s.upsert_model("m", "p", "s");
    s.insert_alias(&alias("a", "b"), "m", "p").unwrap();
    let sid = s.record_session_start("a:b", None, None, CaptureLevel::Metadata, 0).unwrap();
    s.record_session_end(sid, &NO_END, 1).unwrap();
    let first = s.record_rating(sid, 1, 1, None, 2).unwrap();
    s.record_rating(sid, 2, 1, Some(first), 3).unwrap();
    s.record_reveal("a:b", Some(sid), RevealReason::Routing, 4).unwrap();
    assert!(Store::open(s.tables().clone()).is_some());

    let refused = |edit: fn(&mut Tables)| {
        let mut tables = s.tables().clone();
        edit(&mut tables);
        Store::open(tables).is_none()
    };
    assert!(refused(|t| t.aliases.push(t.aliases[0].clone())), "an alias");
    assert!(refused(|t| t.providers.push(t.providers[0].clone())), "a provider");
    assert!(refused(|t| t.catalog.push(t.catalog[0].clone())), "a model at a provider");
    assert!(refused(|t| t.session_end.push(t.session_end[0])), "the end of a session");
    assert!(refused(|t| t.session_end[0].session_id = 9), "the end of no session");
    assert!(refused(|t| t.ratings[0].session_id = 9), "a rating of no session");
    assert!(refused(|t| t.reveals[0].session_id = Some(9)), "a reveal for no session");
    assert!(refused(|t| t.ratings[1].supersedes = Some(-1)), "a correction of no rating");
    assert!(refused(|t| t.ratings[1].performance_points = 3), "points off their scale");
    assert!(refused(|t| t.ratings[1].difficulty_points = -1), "points off their scale");
    assert!(!refused(|t| t.reveals[0].session_id = None), "a reveal may be for no session at all");
    assert!(!refused(|t| t.price_history.clear()));
}

#[test]
fn ages_are_whole_seconds_and_never_negative() {
    assert_eq!(age_of(100, 40), 60);
    assert_eq!(age_of(40, 100), 0);
    assert_eq!(age_of(i64::MAX, i64::MIN), u64::MAX);
    let mut s = Store::open_in_memory();
    let sid = seed_session(&mut s, "a:b", "m");
    s.record_rating(sid, 1, 1, None, 40).unwrap();
    let aged = s.effective_ratings_aged(100);
    assert_eq!((aged[0].age_seconds, aged[0].performance_points), (60, 1));
    s.record_session_end(
        sid,
        &SessionEnd {
            error_kind: Some(ErrorKind::TooLarge),
            cost_source: Some(CostSource::Estimate),
            ..NO_END
        },
        70,
    )
    .unwrap();
    let failed = s.effective_failures_aged(100);
    assert_eq!(failed.len(), 1);
    assert_eq!((failed[0].age_seconds, failed[0].error_kind), (30, ErrorKind::TooLarge));
    assert_eq!(failed[0].canonical_key, "m");
    assert_eq!(s.tables().model_of_session(sid).map(String::as_str), Some("m"));
    assert_eq!(s.tables().model_of_session(99), None);
}

#[test]
fn sessions_under_no_known_alias_have_no_model() {
    let mut s = Store::open_in_memory();
    let sid = s.record_session_start("zz:zz", None, None, CaptureLevel::Replay, 0).unwrap();
    s.record_rating(sid, 1, 1, None, 0).unwrap();
    assert!(s.effective_ratings().is_empty());
}

#[test]
fn upserts_replace_in_place() {
    let mut s = Store::open_in_memory();
    s.upsert_provider("p", "u1", "openai");
    s.upsert_provider("p", "u2", "openai");
    s.upsert_model("m", "p", "s1");
    s.upsert_model("m", "p", "s2");
    assert_eq!((s.tables().providers.len(), s.tables().catalog.len()), (1, 1));
    assert_eq!(s.tables().providers[0].base_url, "u2");
    assert_eq!(s.tables().catalog[0].real_slug, "s2");
    assert_eq!(s.tables().find_model("m", "p"), Some(0));
    assert_eq!(s.tables().find_model("m", "q"), None);
}
