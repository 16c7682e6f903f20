use blindcoder::backend::{AbortReason, CostSource, ErrorKind};
use blindcoder::double::Double;
use blindcoder::session::{cap_reached, DriveAction, DriveEvent, Driver, Mode};

fn d(x: f64) -> Double {
    Double { bits: x.to_bits() }
}

/// Feeds `(completion tokens, dollars so far)` to a driver until it stops the session, and gives
/// back the last tokens that were read and who stopped it.
fn drive_with_cap(
    script: &[(u64, Option<f64>)],
    cap: f64,
    unit_price_per_token: f64,
) -> (u64, Option<AbortReason>) {
    let mut driver = Driver {
        mode: Mode::Standing,
        cap: d(cap),
        aborting: false,
    };
    let mut seen = 0;
    let mut stopped = None;
    for (tokens, cost) in script {
        seen = *tokens;
        let spent = cost.unwrap_or((100 + tokens) as f64 * unit_price_per_token);
        if let DriveAction::Abort(reason) = driver.step(DriveEvent::Spent(d(spent))) {
            stopped = Some(reason);
            break;
        }
    }
    assert_eq!(driver.step(DriveEvent::Ended), DriveAction::Finish);
    (seen, stopped)
}

#[test]
fn cost_cap_aborts_mid_session() {
    let (tokens, stopped) = drive_with_cap(
        &[(10, Some(1.0)), (20, Some(4.0)), (30, Some(9.0)), (40, Some(16.0))],
        5.0,
        0.0,
    );
    assert_eq!(stopped, Some(AbortReason::CostCap));
    assert_eq!(tokens, 30);
}

#[test]
fn cost_cap_fires_on_unpriced_transport() {
    let (tokens, stopped) =
        drive_with_cap(&[(1_000, None), (10_000, None), (100_000, None)], 5.0, 0.001);
    assert_eq!(stopped, Some(AbortReason::CostCap));
    assert_eq!(tokens, 10_000);
}

#[test]
fn cap_zero_disables_and_natural_end_is_unterminated() {
    let (tokens, stopped) = drive_with_cap(&[(10, Some(100.0)), (20, Some(200.0))], 0.0, 0.0);
    assert_eq!(stopped, None);
    assert_eq!(tokens, 20);
}

#[test]
fn a_session_is_aborted_once() {
    let mut driver = Driver {
        mode: Mode::Launched,
        cap: d(1.0),
        aborting: false,
    };
    assert_eq!(driver.step(DriveEvent::Spent(d(0.5))), DriveAction::Wait);
    assert_eq!(
        driver.step(DriveEvent::Spent(d(1.0))),
        DriveAction::Abort(AbortReason::CostCap)
    );
    assert_eq!(driver.step(DriveEvent::Spent(d(2.0))), DriveAction::Wait);
}

#[test]
fn caps_compare_as_numbers() {
    assert!(cap_reached(&d(5.0), &d(5.0)));
    assert!(!cap_reached(&d(5.0), &d(4.999)));
    assert!(!cap_reached(&d(0.0), &d(1e9)));
    assert!(!cap_reached(&d(-1.0), &d(1e9)));
    assert!(!cap_reached(&d(f64::NAN), &d(1e9)));
    assert!(!cap_reached(&d(1.0), &d(f64::NAN)));
    assert!(!cap_reached(&d(-0.0), &d(1.0)));
}

#[test]
fn kinds_have_stored_names_that_read_back() {
    let kinds = [
        ErrorKind::RateLimit,
        ErrorKind::Http5xx,
        ErrorKind::Auth,
        ErrorKind::BadRequest,
        ErrorKind::Network,
        ErrorKind::Truncated,
        ErrorKind::Refused,
        ErrorKind::TooLarge,
        ErrorKind::Unavailable,
        ErrorKind::Unknown,
    ];
    for k in kinds {
        assert_eq!(ErrorKind::from_wire(k.as_str()), Some(k));
        assert_eq!(ErrorKind::of_tag(k.as_str()), k);
    }
    assert_eq!(ErrorKind::from_wire("other"), None);
    assert_eq!(ErrorKind::of_tag("other"), ErrorKind::Unknown);
    assert_eq!(ErrorKind::Http5xx.as_str(), "http_5xx");
    assert_eq!(ErrorKind::RateLimit.as_str(), "rate_limit");
    assert_eq!(ErrorKind::TooLarge.loss_weight(), 100);
    assert_eq!(ErrorKind::RateLimit.loss_weight(), 15);
    assert_eq!(ErrorKind::Auth.loss_weight(), 0);
    assert_eq!(AbortReason::CostCap.as_str(), "cost_cap");
    assert_eq!(AbortReason::User.as_str(), "user");
    assert_eq!(CostSource::Provider.as_str(), "provider");
    assert_eq!(CostSource::Estimate.as_str(), "estimate");
    for r in [AbortReason::CostCap, AbortReason::User] {
        assert_eq!(AbortReason::from_name(r.as_str()), Some(r));
    }
    for c in [CostSource::Provider, CostSource::Estimate] {
        assert_eq!(CostSource::from_name(c.as_str()), Some(c));
    }
    assert_eq!(AbortReason::from_name("provider"), None);
    assert_eq!(CostSource::from_name("user"), None);
}

#[test]
fn the_users_word_is_listened_for_only_while_it_would_stop_the_session() {
    for mode in [Mode::Standing, Mode::Launched] {
        let mut driver = Driver { mode, cap: d(0.0), aborting: false };
        assert_eq!(driver.listens(), mode == Mode::Standing);
        let stops = matches!(driver.step(DriveEvent::Interrupted), DriveAction::Abort(_));
        assert_eq!(stops, mode == Mode::Standing);
        assert!(!driver.listens(), "once stopped, a session listens no more");
    }
}
