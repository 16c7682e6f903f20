use blindcoder::config::{Config, ModelConfig, Privacy, ProviderConfig};
use blindcoder::dates::date_to_epoch_days;
use blindcoder::double::Double;
use blindcoder::gates::{
    env_factor, non_zdr_env_var, provider_fault, validate_non_zdr_gates, validate_pool_privacy, ConsentFault,
    PoolFault,
};
use blindcoder::named::Named;
use blindcoder::run::{admit_pool, GateRefusal};

fn d(x: f64) -> Double {
    Double { bits: x.to_bits() }
}

fn mixed_pool_config() -> Config {
    let free = ProviderConfig {
        slug: "free-prov".into(),
        base_url: "http://free.test/v1".into(),
        wire: "openai".into(),
        key_env: Some("FREE_PROV_KEY".into()),
        models: vec![ModelConfig {
            canonical_key: "model-x".into(),
            real_slug: "free-prov/model-x".into(),
            input_per_mtok: None,
            output_per_mtok: None,
        }],
        ..Default::default()
    };
    let paid = ProviderConfig {
        slug: "paid-prov".into(),
        base_url: "http://paid.test/v1".into(),
        wire: "openai".into(),
        key_env: Some("PAID_PROV_KEY".into()),
        models: vec![ModelConfig {
            canonical_key: "model-x".into(),
            real_slug: "paid-prov/model-x".into(),
            input_per_mtok: Some(d(0.55)),
            output_per_mtok: Some(d(2.2)),
        }],
        ..Default::default()
    };
    Config {
        providers: vec![free, paid],
        ..Default::default()
    }
}

fn provider_with(
    slug: &str,
    base_url: &str,
    privacy: Option<Privacy>,
    attest: &[(&str, bool)],
) -> ProviderConfig {
    ProviderConfig {
        slug: slug.into(),
        base_url: base_url.into(),
        privacy,
        attestations: Named::from_pairs(attest.iter().map(|(k, v)| (k.to_string(), *v)).collect()),
        ..Default::default()
    }
}

fn cfg_of(p: ProviderConfig) -> Config {
    Config {
        providers: vec![p],
        ..Default::default()
    }
}

#[test]
fn privacy_gate_openrouter_self_enforcing_ok() {
    let c = cfg_of(provider_with(
        "or",
        "https://openrouter.ai/api/v1",
        Some(Privacy::OpenRouter),
        &[],
    ));
    assert!(validate_pool_privacy(&c).is_ok());
}

#[test]
fn privacy_gate_groq_requires_attestation_and_error_reveals_the_key() {
    let c = cfg_of(provider_with(
        "groq",
        "https://api.groq.com/openai/v1",
        Some(Privacy::Groq),
        &[],
    ));
    let err = validate_pool_privacy(&c).unwrap_err();
    assert_eq!(err.fault, PoolFault::NotAttested);
    let err = err.message;
    assert!(
        err.contains("groq_manual_steps_done"),
        "error must reveal the key: {err}"
    );
    let c = cfg_of(provider_with(
        "groq",
        "https://api.groq.com/openai/v1",
        Some(Privacy::Groq),
        &[("groq_manual_steps_done", true)],
    ));
    assert!(validate_pool_privacy(&c).is_ok());
}

#[test]
fn privacy_gate_rejects_missing_declaration() {
    let c = cfg_of(provider_with(
        "x",
        "https://api.groq.com/openai/v1",
        None,
        &[],
    ));
    assert!(validate_pool_privacy(&c).is_err());
}

#[test]
fn privacy_gate_rejects_host_mismatch() {
    let c = cfg_of(provider_with(
        "groq",
        "https://not-groq.example/v1",
        Some(Privacy::Groq),
        &[("groq_manual_steps_done", true)],
    ));
    assert!(validate_pool_privacy(&c).is_err());
}

#[test]
fn privacy_gate_rejects_foreign_attestation_key() {
    let c = cfg_of(provider_with(
        "or",
        "https://openrouter.ai/api/v1",
        Some(Privacy::OpenRouter),
        &[("groq_manual_steps_done", true)],
    ));
    let err = validate_pool_privacy(&c).unwrap_err().message;
    assert!(err.contains("belongs to"), "{err}");
}

#[test]
fn privacy_gate_rejects_unknown_attestation_key() {
    let c = cfg_of(provider_with(
        "groq",
        "https://api.groq.com/openai/v1",
        Some(Privacy::Groq),
        &[("groq_manual_steps_done", true), ("bogus", true)],
    ));
    assert!(validate_pool_privacy(&c).is_err());
}

fn no_zdr_cfg(attested: &[&str], expires: Option<&str>) -> Config {
    let p = ProviderConfig {
        slug: "pwd".into(),
        base_url: "https://api.example.test/v1".into(),
        privacy: Some(Privacy::NoZdr),
        non_zdr_attested_models: attested.iter().map(ToString::to_string).collect(),
        expires: expires.map(String::from),
        models: vec![ModelConfig {
            canonical_key: "non-zdr-model".into(),
            real_slug: "example/non-zdr-model".into(),
            input_per_mtok: Some(d(0.1)),
            output_per_mtok: Some(d(0.4)),
        }],
        ..Default::default()
    };
    cfg_of(p)
}

#[test]
fn non_zdr_chain_is_dormant_without_a_no_zdr_provider() {
    let c = mixed_pool_config();
    assert!(!validate_non_zdr_gates(&c, false, true, true, 0).unwrap());
    assert!(!validate_non_zdr_gates(&c, true, true, true, 0).unwrap());
}

#[test]
fn pool_privacy_gate_accepts_a_no_zdr_declaration() {
    assert!(validate_pool_privacy(&no_zdr_cfg(&[], None)).is_ok());
}

#[test]
fn pool_privacy_gate_rejects_non_zdr_fields_on_other_protocols() {
    let mut p = provider_with(
        "groq",
        "https://api.groq.com/openai/v1",
        Some(Privacy::Groq),
        &[("groq_manual_steps_done", true)],
    );
    p.expires = Some("2026-09-01".into());
    let err = validate_pool_privacy(&cfg_of(p)).unwrap_err().message;
    assert!(err.contains("no-zdr"), "{err}");
}

#[test]
fn default_build_reveals_only_the_feature_requirement() {
    let c = no_zdr_cfg(&["example/non-zdr-model"], Some("2026-09-01"));
    let err = validate_non_zdr_gates(&c, false, true, true, 0)
        .unwrap_err()
        .message;
    assert!(err.contains("allow-non-zdr"), "{err}");
    for later in [
        "no_zdr_models_i_accept_training_on",
        "expires",
        "BLINDCODER",
        "--route",
    ] {
        assert!(!err.contains(later), "must not leak {later:?}: {err}");
    }
}

#[test]
fn non_zdr_chain_reveals_one_gate_per_run_in_order() {
    let today = date_to_epoch_days("2026-08-23").unwrap();
    let gates = |c: &Config, flag: bool, env: bool| validate_non_zdr_gates(c, true, flag, env, today);
    let later_than_attestation = [
        "expires",
        "30",
        "BLINDCODER_NON_ZDR_SESSION_OK",
        "route-non-zdr-this-run",
    ];

    // 1: attestation absent → the key is revealed, nothing later.
    let err = gates(&no_zdr_cfg(&[], None), true, true).unwrap_err().message;
    assert!(err.contains("no_zdr_models_i_accept_training_on"), "{err}");
    assert!(
        err.contains("real_slug"),
        "the shape (exact slugs) is stated: {err}"
    );
    for later in later_than_attestation {
        assert!(!err.contains(later), "must not leak {later:?}: {err}");
    }

    // 1b: attestation present but not the exact slug set → the specific mismatch, no new token.
    let err = gates(&no_zdr_cfg(&["example/other"], None), true, true)
        .unwrap_err()
        .message;
    assert!(
        err.contains("example/non-zdr-model"),
        "names the unattested model: {err}"
    );
    assert!(
        err.contains("example/other"),
        "names the stray attestation: {err}"
    );
    for later in ["expires", "BLINDCODER", "route-non-zdr"] {
        assert!(!err.contains(later), "must not leak {later:?}: {err}");
    }

    // 2: attested, no expiry → `expires` is required; the 30-day bound stays invisible.
    let ok_models = &["example/non-zdr-model"];
    let err = gates(&no_zdr_cfg(ok_models, None), true, true).unwrap_err().message;
    assert!(err.contains("expires"), "{err}");
    for later in ["30", "BLINDCODER", "route-non-zdr"] {
        assert!(!err.contains(later), "must not leak {later:?}: {err}");
    }

    // 2 (malformed): a non-date reveals the format, nothing later.
    let err = gates(&no_zdr_cfg(ok_models, Some("soon")), true, true)
        .unwrap_err()
        .message;
    assert!(err.contains("YYYY-MM-DD"), "{err}");
    assert!(!err.contains("30"), "{err}");

    // 2b: expired → hard stop.
    let err = gates(&no_zdr_cfg(ok_models, Some("2026-08-01")), true, true)
        .unwrap_err()
        .message;
    assert!(err.contains("expired"), "{err}");
    assert!(!err.contains("BLINDCODER"), "{err}");

    // 2c: dated too far ahead → ONLY NOW the 30-day cap surfaces.
    let err = gates(&no_zdr_cfg(ok_models, Some("2026-12-01")), true, true)
        .unwrap_err()
        .message;
    assert!(err.contains("30 days"), "{err}");
    assert!(!err.contains("BLINDCODER"), "{err}");
    // Exactly 30 days out is compliant (a hard maximum, boundary included).
    let exactly_30 = gates(&no_zdr_cfg(ok_models, Some("2026-09-22")), true, true);
    assert!(exactly_30.is_ok(), "{exactly_30:?}");

    // 3: config gates all pass, env unset → the env var is revealed; the flag is not.
    let ok_cfg = no_zdr_cfg(ok_models, Some("2026-08-30"));
    let err = gates(&ok_cfg, true, false).unwrap_err().message;
    assert!(err.contains("BLINDCODER_NON_ZDR_SESSION_OK"), "{err}");
    assert!(!err.contains("route-non-zdr"), "{err}");

    // 4: env set, flag missing → the flag is revealed.
    let err = gates(&ok_cfg, false, true).unwrap_err().message;
    assert!(err.contains("--route-non-zdr-this-run"), "{err}");

    // ✓: all four satisfied → armed.
    assert!(gates(&ok_cfg, true, true).unwrap());
}

#[test]
fn every_consent_step_has_its_fault() {
    let today = date_to_epoch_days("2026-08-23").unwrap();
    let m = "example/non-zdr-model";
    let fault = |c: &Config, built: bool, flag: bool, env: bool| {
        let e = validate_non_zdr_gates(c, built, flag, env, today).unwrap_err();
        (e.provider, e.fault)
    };
    let ok = no_zdr_cfg(&[m], Some("2026-08-23"));
    assert_eq!(fault(&ok, false, true, true), (Some(0), ConsentFault::NotBuilt));
    assert_eq!(fault(&no_zdr_cfg(&[], None), true, true, true), (Some(0), ConsentFault::Unattested));
    assert_eq!(fault(&no_zdr_cfg(&[m, "b"], None), true, true, true), (Some(0), ConsentFault::Mismatch));
    assert_eq!(fault(&no_zdr_cfg(&[m], None), true, true, true), (Some(0), ConsentFault::NoExpiry));
    assert_eq!(fault(&no_zdr_cfg(&[m], Some("x")), true, true, true), (Some(0), ConsentFault::BadExpiry));
    assert_eq!(
        fault(&no_zdr_cfg(&[m], Some("2026-08-22")), true, true, true),
        (Some(0), ConsentFault::Expired)
    );
    assert_eq!(
        fault(&no_zdr_cfg(&[m], Some("2026-09-23")), true, true, true),
        (Some(0), ConsentFault::TooFarAhead)
    );
    assert_eq!(fault(&ok, true, true, false), (None, ConsentFault::NoEnv));
    assert_eq!(fault(&ok, true, false, true), (None, ConsentFault::NoFlag));
    assert_eq!(fault(&ok, true, false, false), (None, ConsentFault::NoEnv));
    assert_eq!(non_zdr_env_var(), "BLINDCODER_NON_ZDR_SESSION_OK");
}

#[test]
fn mismatched_attestations_are_listed_in_order_and_quoted() {
    let today = date_to_epoch_days("2026-08-23").unwrap();
    let mut c = no_zdr_cfg(&["z", "a", "z"], Some("2026-08-30"));
    c.providers[0].slug = "p\"q".into();
    let e = validate_non_zdr_gates(&c, true, true, true, today).unwrap_err();
    assert_eq!(
        e.message,
        "provider \"p\\\"q\": the non-ZDR model attestation must match this provider's models exactly, by `real_slug`. Unattested models: [\"example/non-zdr-model\"]; attested but not among the provider's models: [\"a\", \"z\"]."
    );
}

#[test]
fn every_pool_fault_is_said_in_full() {
    let say = |p: ProviderConfig| {
        let e = validate_pool_privacy(&cfg_of(p)).unwrap_err();
        (e.fault, e.message)
    };
    assert_eq!(
        say(provider_with("x", "u", None, &[])),
        (
            PoolFault::Undeclared,
            "provider \"x\" has no `privacy` declaration — refusing to route to an unknown-data-policy endpoint (fail-closed). Declare its ZDR protocol.".to_string()
        )
    );
    assert_eq!(
        say(provider_with("g", "https://h/v1", Some(Privacy::Groq), &[])),
        (
            PoolFault::WrongEndpoint,
            "provider \"g\": base_url \"https://h/v1\" is not the api.groq.com endpoint that privacy = Groq attests — an attestation is only valid for that provider's real endpoint.".to_string()
        )
    );
    assert_eq!(
        say(provider_with("o", "https://openrouter.ai", Some(Privacy::OpenRouter), &[("groq_manual_steps_done", false)])),
        (
            PoolFault::ForeignFlag(0, Privacy::Groq),
            "provider \"o\": attestation key `groq_manual_steps_done` belongs to the Groq privacy protocol, not this provider's OpenRouter — remove it.".to_string()
        )
    );
    assert_eq!(
        say(provider_with("o", "https://openrouter.ai", Some(Privacy::OpenRouter), &[("typo", true)])),
        (
            PoolFault::UnknownFlag(0),
            "provider \"o\": unknown attestation key `typo`.".to_string()
        )
    );
    let g = provider_with("g", "https://api.groq.com", Some(Privacy::Groq), &[("groq_manual_steps_done", false)]);
    assert_eq!(provider_fault(&g), Some(PoolFault::NotAttested));
    assert_eq!(
        say(g).1,
        "provider \"g\" uses privacy = Groq, whose Zero-Data-Retention blindcoder cannot verify on the wire — it depends on a manual account setup you must perform:\n\n    In the Groq console (console.groq.com), open Settings → Data Controls and enable Zero-Data-Retention for the account/API key you use here.\n\nOnce done, confirm by adding `groq_manual_steps_done = true` to this provider in your config. (This key is intentionally not in the example config: it must be a deliberate act, not a copied default.)"
    );
}

#[test]
fn the_first_faulty_provider_is_named() {
    let mut c = cfg_of(provider_with("or", "https://openrouter.ai", Some(Privacy::OpenRouter), &[]));
    c.providers.push(provider_with("x", "u", None, &[]));
    c.providers.push(provider_with("y", "u", None, &[]));
    assert_eq!(validate_pool_privacy(&c).unwrap_err().provider, 1);
}

#[test]
fn the_first_flag_by_name_is_the_one_at_fault() {
    let flags = [("zeta", true), ("groq_manual_steps_done", true), ("alpha", false)];
    let p = provider_with("o", "https://openrouter.ai", Some(Privacy::OpenRouter), &flags);
    assert_eq!(p.attestations.pairs()[0].0, "alpha");
    assert_eq!(provider_fault(&p), Some(PoolFault::UnknownFlag(0)));
    let twice = [("groq_manual_steps_done", false), ("groq_manual_steps_done", true)];
    let g = provider_with("g", "https://api.groq.com", Some(Privacy::Groq), &twice);
    assert_eq!(g.attestations.pairs().len(), 1, "a name stands once");
    assert_eq!(provider_fault(&g), None, "the last value of a name counts");
}

#[test]
fn the_second_factor_is_set_and_not_blank() {
    assert!(env_factor(Some("1")));
    assert!(env_factor(Some("  yes ")));
    assert!(!env_factor(Some("")));
    assert!(!env_factor(Some(" \t\n\u{3000}")));
    assert!(!env_factor(None));
}

#[test]
fn the_gates_run_in_order() {
    let undeclared = cfg_of(provider_with("x", "u", None, &[]));
    assert!(matches!(admit_pool(&undeclared, false, false, false, 0), Err(GateRefusal::Pool(_))));
    let no_zdr = no_zdr_cfg(&[], None);
    assert!(matches!(admit_pool(&no_zdr, true, true, true, 0), Err(GateRefusal::Consent(_))));
    let fine = cfg_of(provider_with("or", "https://openrouter.ai", Some(Privacy::OpenRouter), &[]));
    let admitted = admit_pool(&fine, true, true, true, 0).unwrap();
    assert!(!admitted.armed(), "without a no-ZDR provider the chain is dormant");
    assert_eq!(admitted.config().providers.len(), 1);
    let armed = no_zdr_cfg(&["example/non-zdr-model"], Some("1970-01-03"));
    assert!(admit_pool(&armed, true, true, true, 0).unwrap().armed());
    assert!(matches!(admit_pool(&armed, true, false, true, 0), Err(GateRefusal::Consent(_))));
}
