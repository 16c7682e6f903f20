use blindcoder::backend::{AbortReason, CostSource, ErrorKind, SessionOutcome};
use blindcoder::cli::{CliAdapter, RunArgs};
use blindcoder::double::Double;
use blindcoder::session::{
    asks_for_rating, launch_banner, plan_launch, rate_hint, rating_recorded, session_end_of,
    standing_banner, summary, DriveAction, DriveEvent, Driver, Mode,
};

fn d(x: f64) -> Double {
    Double { bits: x.to_bits() }
}

fn words(ws: &[&str]) -> Vec<String> {
    ws.iter().map(|w| w.to_string()).collect()
}

fn env(plan: &blindcoder::session::LaunchPlan, name: &str) -> Option<String> {
    plan.env.iter().find(|v| v.name == name).map(|v| v.value.clone())
}

const BASE: &str = "http://127.0.0.1:9/v1";

#[test]
fn launches_pass_the_alias_and_respect_the_users_model() {
    let p = plan_launch(&words(&["/bin/opencode", "run"]), BASE, "p:m", None);
    assert_eq!(p.adapter, CliAdapter::OpenCode);
    assert_eq!(env(&p, "OPENAI_BASE_URL").as_deref(), Some(BASE));
    assert!(env(&p, "OPENCODE_CONFIG_CONTENT").unwrap().contains("p:m"));

    let p = plan_launch(&words(&["pi", "-p", "hi"]), BASE, "p:m", Some("/tmp/pi"));
    assert_eq!(p.adapter, CliAdapter::Pi);
    assert_eq!(p.args, words(&["-p", "hi", "--model", "blindcoder/p:m"]));
    assert_eq!(env(&p, "PI_CODING_AGENT_DIR").as_deref(), Some("/tmp/pi"));

    let p = plan_launch(&words(&["pi"]), BASE, "p:m", None);
    assert!(p.args.is_empty());
    assert_eq!(env(&p, "PI_CODING_AGENT_DIR"), None);

    let p = plan_launch(&words(&["pi", "--model", "theirs"]), BASE, "p:m", Some("/tmp/pi"));
    assert_eq!(p.args, words(&["--model", "theirs"]));

    let p = plan_launch(&words(&["aider", "x"]), BASE, "p:m", None);
    assert_eq!(p.adapter, CliAdapter::Generic);
    assert_eq!(p.args, words(&["x"]));
    assert_eq!(env(&p, "OPENAI_BASE_URL").as_deref(), Some(BASE));
}

#[test]
fn banners_show_the_alias_and_never_more() {
    assert_eq!(
        standing_banner(3, BASE, "p:m", Some("5.00")),
        [
            "blindcoder: routing a blinded session (picked from a pool of 3).",
            "  point your OpenAI-compatible CLI at:  http://127.0.0.1:9/v1",
            "  model to request:  p:m   (any value works; the proxy rewrites it)",
            "  cost cap:  $5.00 (session is halted if the estimate reaches it)",
            "  press Ctrl-C to end the session and record it.",
        ]
    );
    assert_eq!(standing_banner(3, BASE, "p:m", None).len(), 4);
    assert_eq!(
        launch_banner("aider", CliAdapter::Generic, 2, "p:m", None),
        [
            "blindcoder: launched `aider` on a blinded session (pool of 2); ends when it exits.",
            "  model to request:  p:m   (any value works; the proxy rewrites it)",
        ]
    );
    assert_eq!(
        launch_banner("pi", CliAdapter::Pi, 2, "p:m", Some("1.50"))[1..],
        ["  model shown in the CLI:  blindcoder/p:m", "  cost cap:  $1.50"]
    );
}

const OUTCOME: SessionOutcome = SessionOutcome {
    realized_cost_nano: None,
    prompt_tokens: Some(1200),
    completion_tokens: Some(340),
    cached_prompt_tokens: Some(7),
    error_kind: None,
    error_status: None,
    terminated_by: None,
};

#[test]
fn the_reported_cost_wins_over_the_estimate() {
    let e = session_end_of(&OUTCOME, Some(d(0.5)), d(0.25));
    assert_eq!((e.realized_cost, e.cost_source), (Some(d(0.5)), Some(CostSource::Provider)));
    let e = session_end_of(&OUTCOME, None, d(0.25));
    assert_eq!((e.realized_cost, e.cost_source), (Some(d(0.25)), Some(CostSource::Estimate)));
    assert_eq!((e.prompt_tokens, e.completion_tokens, e.cached_prompt_tokens), (Some(1200), Some(340), Some(7)));
    let failed = SessionOutcome {
        error_kind: Some(ErrorKind::TooLarge),
        error_status: Some(413),
        terminated_by: Some(AbortReason::User),
        ..OUTCOME
    };
    let e = session_end_of(&failed, None, d(0.0));
    assert_eq!((e.error_kind, e.error_status), (Some(ErrorKind::TooLarge), Some(413)));
    assert_eq!(e.terminated_by, Some(AbortReason::User));
}

#[test]
fn the_summary_says_what_happened() {
    assert_eq!(
        summary(4, &OUTCOME, "0.2500", CostSource::Estimate),
        "\nsession #4 ended: 1200 in + 340 out tokens, $0.2500 (estimate)."
    );
    let stopped = SessionOutcome {
        terminated_by: Some(AbortReason::CostCap),
        error_kind: Some(ErrorKind::RateLimit),
        error_status: Some(429),
        prompt_tokens: None,
        ..OUTCOME
    };
    assert_eq!(
        summary(4, &stopped, "0.2500", CostSource::Provider),
        "\nsession #4 stopped at the cost cap [error: rate_limit (429)]: 0 in + 340 out tokens, $0.2500 (provider)."
    );
    let failed = SessionOutcome {
        terminated_by: Some(AbortReason::User),
        error_kind: Some(ErrorKind::Network),
        ..OUTCOME
    };
    assert!(summary(4, &failed, "0", CostSource::Provider).starts_with("\nsession #4 stopped by you [error: network]: "));
}

#[test]
fn a_launched_session_finishes_when_its_child_does() {
    let mut driver = Driver {
        mode: Mode::Launched,
        cap: d(0.0),
        aborting: false,
    };
    assert_eq!(driver.step(DriveEvent::Spent(d(9.0))), DriveAction::Wait);
    assert_eq!(driver.step(DriveEvent::Exited), DriveAction::Finish);
    let mut driver = Driver {
        mode: Mode::Standing,
        cap: d(0.0),
        aborting: false,
    };
    assert_eq!(driver.step(DriveEvent::Interrupted), DriveAction::Abort(AbortReason::User));
}

#[test]
fn ratings_are_asked_for_unless_told_not_to() {
    let args = |command: &[&str], no_rate: bool| RunArgs {
        command: words(command),
        no_rate,
        route_non_zdr_this_run: false,
    };
    assert!(asks_for_rating(&args(&["pi"], false)));
    assert!(!asks_for_rating(&args(&["pi"], true)));
    assert!(!asks_for_rating(&args(&[], false)));
    assert_eq!(
        rate_hint("rate it", 12),
        "  rate it:  blindcoder rate --session 12 --performance <-2..2> --difficulty <0..4>"
    );
    assert_eq!(rating_recorded(3, 12, None), "recorded rating #3 for session #12");
    assert_eq!(rating_recorded(3, 12, Some(2)), "recorded rating #3 for session #12 (supersedes #2)");
}
