use blindcoder::config::{
    default_config_path, default_data_dir, default_state_dir, default_wire, host_of, join_path,
    CaptureLevel, Config, CostBasis, EnvOverlay, ModelConfig, Privacy, ProviderConfig,
};
use blindcoder::double::Double;

fn d(x: f64) -> Double {
    Double { bits: x.to_bits() }
}

const NOTHING: EnvOverlay = EnvOverlay {
    cost_sensitivity: None,
    exploration: None,
    max_session_cost_usd: None,
    rating_half_life_days: None,
};

#[test]
fn defaults_match_pinned_tuneables() {
    let c = Config::default();
    assert_eq!(c.cost_sensitivity, d(0.5));
    assert_eq!(c.difficulty_credit, d(0.75));
    assert_eq!(c.rating_half_life_days, d(60.0));
    assert_eq!(c.max_session_cost_usd, d(5.0));
    assert_eq!(c.curated_policy_max_age_days, d(90.0));
}

#[test]
fn the_other_defaults_are_pinned_too() {
    let c = Config::default();
    assert_eq!(c.cost_basis.input_weight, d(0.70));
    assert_eq!(c.cost_basis.output_weight, d(0.30));
    assert_eq!(CostBasis::default(), c.cost_basis);
    assert_eq!(c.provider_pooling, d(0.3));
    assert_eq!(c.exploration, d(0.4));
    assert_eq!(c.score_spread, d(2.0));
    assert_eq!(c.prune_confidence, d(2.0));
    assert_eq!(c.failure_sensitivity, d(1.0));
    assert_eq!(c.price_refresh_interval_hours, d(24.0));
    assert!(!c.track_market);
    assert_eq!(c.proxy_addr, "127.0.0.1:8787");
    assert_eq!(c.capture_level, CaptureLevel::Metadata);
    assert!(c.providers.is_empty());
    assert_eq!(default_wire(), "openai");
    assert_eq!(ProviderConfig::default().wire, "");
    assert_eq!(ModelConfig::default().real_slug, "");
}

#[test]
fn matches_endpoint_rejects_lookalike_hosts() {
    assert!(Privacy::Groq.matches_endpoint("https://api.groq.com/openai/v1"));
    assert!(Privacy::OpenRouter.matches_endpoint("https://openrouter.ai/api/v1"));
    // a real subdomain is fine
    assert!(Privacy::OpenRouter.matches_endpoint("https://gateway.openrouter.ai/v1"));
    // suffix / look-alike / infix attacks are rejected
    assert!(!Privacy::OpenRouter.matches_endpoint("https://openrouter.ai.evil.com/v1"));
    assert!(!Privacy::OpenRouter.matches_endpoint("https://evilopenrouter.ai/v1"));
    assert!(!Privacy::Groq.matches_endpoint("https://api.groq.com.attacker.net/v1"));
}

#[test]
fn user_info_is_not_the_host() {
    assert!(!Privacy::OpenRouter.matches_endpoint("https://openrouter.ai:x@evil.com/v1"));
    assert!(!Privacy::OpenRouter.matches_endpoint("https://openrouter.ai@evil.com/v1"));
    assert!(!Privacy::OpenRouter.matches_endpoint("https://a@openrouter.ai@evil.com/v1"));
    assert!(Privacy::OpenRouter.matches_endpoint("https://user:pw@openrouter.ai:443/v1"));
    // an `@` behind the authority is no user info
    assert!(!Privacy::OpenRouter.matches_endpoint("https://evil.com/@openrouter.ai"));
    assert!(!Privacy::OpenRouter.matches_endpoint("https://evil.com?@openrouter.ai"));
    assert!(!Privacy::OpenRouter.matches_endpoint("https://evil.com#@openrouter.ai"));
    assert!(!Privacy::OpenRouter.matches_endpoint("https://evil.com\\@openrouter.ai"));
    // a `://` further on is no scheme
    assert!(!Privacy::OpenRouter.matches_endpoint("https:/evil.com/://openrouter.ai"));
    assert!(!Privacy::OpenRouter.matches_endpoint("https:evil.com://openrouter.ai"));
}

#[test]
fn attestation_key_ownership() {
    assert_eq!(
        Privacy::Groq.attestation_key(),
        Some("groq_manual_steps_done")
    );
    assert_eq!(Privacy::OpenRouter.attestation_key(), None);
    assert_eq!(
        Privacy::for_attestation_key("groq_manual_steps_done"),
        Some(Privacy::Groq)
    );
    assert_eq!(Privacy::for_attestation_key("nope"), None);
}

#[test]
fn protocols_name_their_hosts_and_steps() {
    assert_eq!(Privacy::OpenRouter.endpoint_host(), Some("openrouter.ai"));
    assert_eq!(Privacy::Groq.endpoint_host(), Some("api.groq.com"));
    assert_eq!(Privacy::NoZdr.endpoint_host(), None);
    assert!(Privacy::NoZdr.matches_endpoint("anything"));
    assert!(Privacy::Groq.manual_steps().unwrap().contains("console.groq.com"));
    assert_eq!(Privacy::OpenRouter.manual_steps(), None);
    assert_eq!(
        Privacy::NoZdr.non_zdr_attestation_key(),
        Some("no_zdr_models_i_accept_training_on")
    );
    assert_eq!(Privacy::Groq.non_zdr_attestation_key(), None);
}

#[test]
fn hosts_are_cut_out_of_urls() {
    assert_eq!(host_of("https://a.b:8443/p?q#f"), "a.b");
    assert_eq!(host_of("a.b/p"), "a.b");
    assert_eq!(host_of("http://h?x=://y"), "h");
    assert_eq!(host_of("https://openrouter.ai:x@evil.com/v1"), "evil.com");
    assert_eq!(host_of("https://a:b@c@d:1/p"), "d");
    assert_eq!(host_of("http://h#f"), "h");
    assert_eq!(host_of(""), "");
}

#[test]
fn capture_levels_are_ordered_supersets() {
    assert_eq!(CaptureLevel::Metadata.as_str(), "metadata");
    assert_eq!(CaptureLevel::Contents.as_str(), "contents");
    assert_eq!(CaptureLevel::Replay.as_str(), "replay");
    for level in [CaptureLevel::Metadata, CaptureLevel::Contents, CaptureLevel::Replay] {
        assert_eq!(CaptureLevel::from_name(level.as_str()), Some(level));
    }
    assert_eq!(CaptureLevel::from_name("Replay"), None);
    assert!(CaptureLevel::Replay.at_least(CaptureLevel::Contents));
    assert!(CaptureLevel::Contents.at_least(CaptureLevel::Contents));
    assert!(!CaptureLevel::Metadata.at_least(CaptureLevel::Contents));
    assert!(!CaptureLevel::Contents.at_least(CaptureLevel::Replay));
    assert!(CaptureLevel::Metadata.at_least(CaptureLevel::Metadata));
}

#[test]
fn environment_overlays_the_file_and_the_file_the_defaults() {
    let env = EnvOverlay {
        cost_sensitivity: Some(d(1.5)),
        max_session_cost_usd: Some(d(0.0)),
        ..NOTHING
    };
    let mut file = Config::default();
    file.exploration = d(0.9);
    file.cost_sensitivity = d(0.1);
    let c = Config::load(Some(file), &env);
    assert_eq!(c.cost_sensitivity, d(1.5));
    assert_eq!(c.exploration, d(0.9));
    assert_eq!(c.max_session_cost_usd, d(0.0));
    assert_eq!(c.score_spread, d(2.0));

    let mut c = Config::load(None, &NOTHING);
    assert_eq!(c.cost_sensitivity, d(0.5));
    c.apply_env(&EnvOverlay { rating_half_life_days: Some(d(7.0)), exploration: Some(d(0.2)), ..NOTHING });
    let t = c.tuneables();
    assert_eq!(t.rating_half_life_days, d(7.0));
    assert_eq!(t.exploration, d(0.2));
    assert_eq!(t.failure_sensitivity, d(1.0));
}

#[test]
fn base_directories_follow_the_environment() {
    assert_eq!(
        default_config_path(Some("/x"), Some("/h")).as_deref(),
        Some("/x/blindcoder/config.toml")
    );
    assert_eq!(
        default_config_path(Some(""), Some("/h")).as_deref(),
        Some("/h/.config/blindcoder/config.toml")
    );
    assert_eq!(
        default_data_dir(None, Some("/h/")).as_deref(),
        Some("/h/.local/share/blindcoder")
    );
    assert_eq!(
        default_state_dir(None, Some("/h")).as_deref(),
        Some("/h/.local/state/blindcoder")
    );
    assert_eq!(default_data_dir(Some("rel"), None).as_deref(), Some("rel/blindcoder"));
    assert_eq!(default_state_dir(None, None), None);
    assert_eq!(join_path("", "a"), "a");
}
