use blindcoder::backend::{
    AbortReason, ErrorKind, Pick, SessionEvent, SessionOutcome, Totals, UsageSnapshot, VettedEndpoint,
};
use blindcoder::config::Privacy;
use blindcoder::dates::date_to_epoch_days;
use blindcoder::json::{parse, Json};
use blindcoder::proxy::{
    account_response, classify_http, is_event_stream, mask_frame, models_list, outgoing_headers,
    read_stream, refuse, response_signals, target_url, AuditRefusal, Call, Cumulative, Failure,
    Handling, Leg, NonZdrAudit, ProxyBackend, ProxySession, ProxyState, SessionError, SseMasker,
};
use serde_json::Value;

fn backend(privacy: Privacy) -> ProxyBackend {
    ProxyBackend::new(
        "127.0.0.1:0".to_string(),
        Some("test-key".into()),
        vec![],
        vec![],
        privacy,
        None,
    )
}

fn pick(slug: &str, base: &str) -> Pick {
    Pick {
        canonical_key: "model-x".into(),
        real_slug: slug.into(),
        endpoint: VettedEndpoint::new(base),
    }
}

fn call(method: &str, path: &str, body: &str) -> Call {
    Call {
        is_get: method == "GET",
        path: path.into(),
        query: None,
        content_type: Some(b"application/json".to_vec()),
        accept: None,
        body: body.as_bytes().to_vec(),
    }
}

/// What one upstream answer does to the session: the status decides first, then the body.
fn answer(c: &mut Cumulative, status: u16, body: &str, cost_nano: Option<u64>) -> Option<Totals> {
    let ok = (200..300).contains(&status);
    if !ok {
        c.note_http_error(status);
    }
    account_response(c, ok, &response_signals(body.as_bytes()), cost_nano)
}

const OK_BODY: &str = r#"{"choices": [{"message": {"content": "ok"}, "finish_reason": "stop"}],
    "usage": {"prompt_tokens": 10, "completion_tokens": 5}}"#;

#[test]
fn proxies_rewrites_model_and_reports_usage() {
    let state = backend(Privacy::OpenRouter).start(&pick("prov/model-x", "http://up.test/v1"), "al:al");
    let out = match state.handle(
        &call("POST", "/v1/chat/completions", r#"{"model": "al:al", "messages": []}"#),
        0,
    ) {
        Handling::Forward(out) => out,
        other => panic!("expected a forwarded request, got {other:?}"),
    };
    assert_eq!(out.url, "http://up.test/v1/chat/completions");
    let sent: Value = serde_json::from_slice(out.request.body()).unwrap();
    assert_eq!(sent["model"], "prov/model-x");
    assert_eq!(sent["provider"]["zdr"], true);
    assert!(out.audit_line.is_none());
    assert!(out.headers.iter().any(|h| h.name == "authorization" && h.value == b"Bearer test-key"));

    let upstream = r#"{"model": "prov/model-x", "provider": "AcmeProv",
        "choices": [{"message": {"content": "ok"}}],
        "usage": {"prompt_tokens": 10, "completion_tokens": 5, "cost": 0.0012}}"#;
    let mut masker = SseMasker::new();
    let mut text = masker.feed(upstream.as_bytes(), "prov/model-x", "al:al");
    text.extend(masker.finish("prov/model-x", "al:al"));
    let text = String::from_utf8(text).unwrap();
    assert!(text.contains("ok"), "response body streamed back: {text}");
    let whole = blindcoder::rewrite::mask_json_body(upstream.as_bytes(), "prov/model-x", "al:al");
    let text = String::from_utf8(whole).unwrap();
    let body: Value = serde_json::from_str(&text).unwrap();
    assert_eq!(body["model"], "al:al", "response model masked to the alias");
    assert!(body.get("provider").is_none(), "provider fingerprint stripped");
    assert!(!text.contains("prov/model-x"), "real slug must not appear in the response");

    let sig = response_signals(upstream.as_bytes());
    let cost = f64::from_bits(sig.usage.unwrap().cost_so_far.unwrap().bits);
    assert_eq!(cost, 0.0012);
    let mut c = Cumulative::default();
    let totals = account_response(&mut c, true, &sig, Some((cost * 1e9) as u64)).unwrap();
    let mut sess = ProxySession::new();
    match sess.next_event(Some(totals)).unwrap() {
        SessionEvent::Usage(u) => {
            assert_eq!(u.prompt_tokens, 10);
            assert_eq!(u.completion_tokens, 5);
            assert_eq!(u.cost_nano, Some(1_200_000));
        }
        other => panic!("expected a Usage event, got {other:?}"),
    }
    let outcome = sess.finish(&c);
    assert_eq!(outcome.prompt_tokens, Some(10));
    assert_eq!(outcome.completion_tokens, Some(5));
    assert_eq!(outcome.realized_cost_nano, Some(1_200_000));
    assert_eq!(outcome.terminated_by, None);
}

fn two_answers(first: (u16, &str), second: (u16, &str)) -> SessionOutcome {
    let mut c = Cumulative::default();
    answer(&mut c, first.0, first.1, None);
    answer(&mut c, second.0, second.1, None);
    ProxySession::new().finish(&c)
}

#[test]
fn terminal_413_after_a_success_tags_too_large_end_to_end() {
    let outcome = two_answers((200, OK_BODY), (413, r#"{"error": {"message": "request too large"}}"#));
    assert_eq!(outcome.error_kind, Some(ErrorKind::TooLarge));
    assert_eq!(outcome.error_status, Some(413));
}

#[test]
fn a_recovered_429_does_not_tag_the_session_end_to_end() {
    let outcome = two_answers((429, r#"{"error": {"message": "slow down"}}"#), (200, OK_BODY));
    assert_eq!(outcome.error_kind, None);
    assert_eq!(outcome.error_status, None);
}

#[test]
fn classify_http_separates_too_large_from_bad_request_and_rate_limit() {
    assert_eq!(classify_http(413), ErrorKind::TooLarge);
    assert_eq!(classify_http(429), ErrorKind::RateLimit);
    assert_eq!(classify_http(404), ErrorKind::Unavailable);
    assert_eq!(classify_http(400), ErrorKind::BadRequest);
    assert_eq!(classify_http(422), ErrorKind::BadRequest);
    assert_eq!(classify_http(401), ErrorKind::Auth);
    assert_eq!(classify_http(503), ErrorKind::Http5xx);
    assert_eq!(ErrorKind::Unavailable.loss_weight() as f64 / 100.0, 1.0);
    assert_eq!(
        ErrorKind::from_wire("unavailable"),
        Some(ErrorKind::Unavailable)
    );
    assert_eq!(ErrorKind::Unavailable.as_str(), "unavailable");
}

#[test]
fn statuses_outside_the_error_classes_are_unknown() {
    assert_eq!(classify_http(403), ErrorKind::Auth);
    assert_eq!(classify_http(302), ErrorKind::Unknown);
    assert_eq!(classify_http(600), ErrorKind::Unknown);
    assert_eq!(classify_http(599), ErrorKind::Http5xx);
    assert_eq!(classify_http(499), ErrorKind::BadRequest);
}

#[test]
fn failure_encoding_round_trips_and_never_collides_with_a_status() {
    for f in [
        Failure::Network,
        Failure::BodyError,
        Failure::Http(413),
        Failure::Http(429),
    ] {
        assert_eq!(Failure::decode(f.encode()), Some(f));
    }
    assert_eq!(Failure::decode(0), None);
    assert!(Failure::Http(100).encode() >= 100);
}

#[test]
fn only_encodings_decode() {
    assert_eq!(Failure::decode(1), Some(Failure::Network));
    assert_eq!(Failure::decode(2), Some(Failure::BodyError));
    assert_eq!(Failure::decode(3), None);
    assert_eq!(Failure::decode(99), None);
    assert_eq!(Failure::decode(1000), None);
    assert_eq!(Failure::Network.kind(), ErrorKind::Network);
    assert_eq!(Failure::BodyError.kind(), ErrorKind::BadRequest);
    assert_eq!(Failure::BodyError.status(), None);
    assert_eq!(Failure::Http(418).status(), Some(418));
}

#[test]
fn terminal_failure_outranks_an_earlier_success() {
    let mut cum = Cumulative::default();
    cum.note_success();
    cum.note_http_error(413);
    assert_eq!(cum.error_kind(), Some(ErrorKind::TooLarge));
    assert_eq!(cum.error_status(), Some(413));

    let mut cum = Cumulative::default();
    cum.note_success();
    cum.note_http_error(429);
    assert_eq!(cum.error_kind(), Some(ErrorKind::RateLimit));
    assert_eq!(cum.error_status(), Some(429));
}

#[test]
fn a_recovered_failure_does_not_tag_the_session() {
    let mut cum = Cumulative::default();
    cum.note_http_error(429);
    cum.note_success();
    assert_eq!(cum.error_kind(), None);
    assert_eq!(cum.error_status(), None);
}

#[test]
fn terminal_truncation_tags_when_no_later_failure() {
    let mut cum = Cumulative::default();
    cum.note_success();
    cum.note_finish_reason("length");
    assert_eq!(cum.error_kind(), Some(ErrorKind::Truncated));
    assert_eq!(cum.error_status(), None);

    cum.note_http_error(503);
    assert_eq!(cum.error_kind(), Some(ErrorKind::Http5xx));
    assert_eq!(cum.error_status(), Some(503));
}

#[test]
fn failures_without_a_status_tag_only_the_kind() {
    let mut cum = Cumulative::default();
    cum.note_network();
    assert_eq!(cum.error_kind(), Some(ErrorKind::Network));
    assert_eq!(cum.error_status(), None);
    cum.note_body_error();
    assert_eq!(cum.error_kind(), Some(ErrorKind::BadRequest));
    cum.note_success();
    cum.note_finish_reason("content_filter");
    assert_eq!(cum.error_kind(), Some(ErrorKind::Refused));
    cum.note_finish_reason("stop");
    assert_eq!(cum.error_kind(), Some(ErrorKind::Refused));
}

#[test]
fn failed_session_tags_error_kind_and_status() {
    let mut c = Cumulative::default();
    answer(&mut c, 429, r#"{"error": {"message": "rate limited"}}"#, None);
    let outcome = ProxySession::new().finish(&c);
    assert_eq!(outcome.error_kind, Some(ErrorKind::RateLimit));
    assert_eq!(outcome.error_status, Some(429));
}

#[test]
fn a_success_that_carries_an_error_is_a_failure() {
    let mut c = Cumulative::default();
    answer(&mut c, 200, r#"{"error": {"message": "boom"}}"#, None);
    let outcome = ProxySession::new().finish(&c);
    assert_eq!(outcome.error_kind, Some(ErrorKind::BadRequest));
    assert_eq!(outcome.error_status, None);
    assert_eq!(outcome.prompt_tokens, Some(0));
    assert_eq!(outcome.realized_cost_nano, None);
}

#[test]
fn usage_adds_up_over_responses() {
    let mut c = Cumulative::default();
    let u = |p: u64, q: u64, k: u64| UsageSnapshot {
        prompt_tokens: p,
        completion_tokens: q,
        cached_prompt_tokens: k,
        cost_so_far: None,
    };
    let t = c.add(&u(10, 5, 2), None);
    assert_eq!((t.prompt_tokens, t.completion_tokens, t.cached_prompt_tokens), (10, 5, 2));
    assert_eq!(t.cost_nano, None);
    let t = c.add(&u(1, 1, 1), Some(7));
    assert_eq!(t.cost_nano, Some(7));
    assert_eq!(c.totals(), (11, 6, 3));
    assert_eq!(c.cost(), Some(7));
}

#[test]
fn totals_are_the_sums_of_a_history() {
    let history = [(10u64, 5u64, 2u64, Some(7u64)), (3, 0, 0, None), (100, 50, 25, Some(1_000))];
    let mut c = Cumulative::default();
    let mut last = None;
    for (p, q, k, cost) in history {
        let u = UsageSnapshot {
            prompt_tokens: p,
            completion_tokens: q,
            cached_prompt_tokens: k,
            cost_so_far: None,
        };
        last = Some(c.add(&u, cost));
    }
    assert_eq!(c.totals(), (113, 55, 27));
    assert_eq!(c.cost(), Some(1_007));
    assert_eq!(last.unwrap().cost_nano, Some(1_007));
}

#[test]
fn streams_are_read_to_their_last_signals() {
    let stream = "data: {\"usage\":{\"prompt_tokens\":1,\"completion_tokens\":2}}\r\n\n: note\ndata: {\"choices\":[{\"finish_reason\":\"length\"}]}\ndata: [DONE]\n";
    let s = read_stream(stream);
    assert_eq!(s.usage.unwrap().completion_tokens, 2);
    assert_eq!(s.finish_reason.as_deref(), Some("length"));
    assert!(!s.has_error);
    let s = response_signals(b"data: {\"error\":{}}\n");
    assert!(s.has_error);
    let s = response_signals(b"<html>\xff</html>");
    assert!(s.usage.is_none() && s.finish_reason.is_none() && !s.has_error);
    let s = response_signals(b"\xff\ndata: {\"choices\":[{\"finish_reason\":\"stop\"}]}");
    assert!(s.finish_reason.is_none(), "a body that is not text carries no signals");
}

#[test]
fn chunks_do_not_show_in_the_masked_stream() {
    let stream = "data: {\"model\":\"prov/model-x\",\"provider\":\"P\",\"id\":\"caf\u{e9}\"}\n\ndata: [DONE]\nevent: prov/model-x";
    let mut whole = SseMasker::new();
    let mut want = whole.feed(stream.as_bytes(), "prov/model-x", "al:al");
    want.extend(whole.finish("prov/model-x", "al:al"));
    for size in 1..9 {
        let mut m = SseMasker::new();
        let mut got = Vec::new();
        for chunk in stream.as_bytes().chunks(size) {
            got.extend(m.feed(chunk, "prov/model-x", "al:al"));
        }
        got.extend(m.finish("prov/model-x", "al:al"));
        assert_eq!(got, want, "chunks of {size}");
    }
    let text = String::from_utf8(want).unwrap();
    assert!(!text.contains("prov/model-x") && !text.contains("provider"), "{text}");
    assert!(text.ends_with("event: al:al"), "{text}");
    assert_eq!(mask_frame(b"data: [DONE]\r\n", "m", "a"), b"data: [DONE]\n");
    assert_eq!(mask_frame(b"\xffm\n", "m", "a"), "\u{fffd}a\n".as_bytes());
}

#[test]
fn models_list_returns_only_the_alias() {
    let state = backend(Privacy::OpenRouter).start(&pick("prov/model-x", "http://127.0.0.1:1/v1"), "al:al");
    let text = match state.handle(&call("GET", "/v1/models", ""), 0) {
        Handling::Catalog(text) => text,
        other => panic!("expected a catalog, got {other:?}"),
    };
    let v: Value = serde_json::from_str(&text).unwrap();
    assert_eq!(v["data"].as_array().unwrap().len(), 1);
    assert_eq!(v["data"][0]["id"], "al:al");
    assert!(
        !text.contains("prov/model-x"),
        "real slug must not leak in the model list"
    );
    assert_eq!(models_list("al:al").to_text(), text);
}

#[test]
fn only_a_get_of_the_catalog_is_answered_here() {
    let state = backend(Privacy::Groq).start(&pick("m", "http://h/v1/"), "al:al");
    assert!(matches!(state.handle(&call("POST", "/v1/models", "{}"), 0), Handling::Forward(_)));
    match state.handle(&call("GET", "/v1/other", "not json"), 0) {
        Handling::Forward(out) => {
            assert_eq!(out.url, "http://h/v1/other");
            assert_eq!(out.request.body(), b"not json");
        }
        other => panic!("{other:?}"),
    }
}

const HOUR: i64 = 3_600;
const DAY: i64 = 24 * HOUR;

fn audited(state_expires: Option<i64>) -> ProxyState {
    backend(Privacy::NoZdr)
        .with_non_zdr_audit("/audit.log".into(), state_expires)
        .start(&pick("example/non-zdr-model", "http://up.test/v1"), "al:al")
}

#[test]
fn non_zdr_audit_appends_one_line_per_forwarded_request() {
    let state = audited(Some(11));
    // Day 10, seven o'clock and some minutes: the record keeps the hour alone.
    for now in [10 * DAY + 7 * HOUR, 10 * DAY + 7 * HOUR + 59 * 60 + 59] {
        match state.handle(
            &call("POST", "/v1/chat/completions", r#"{"model": "al:al", "messages": []}"#),
            now,
        ) {
            Handling::Forward(out) => {
                let line = out.audit_line.unwrap();
                assert_eq!(line, "1970-01-11T07\texample/non-zdr-model\n");
                assert!(
                    !line.contains("al:al"),
                    "the alias must never enter the audit file"
                );
            }
            other => panic!("{other:?}"),
        }
    }
}

#[test]
fn non_zdr_expiry_refuses_a_standing_proxies_requests() {
    let state = audited(Some(9));
    match state.handle(
        &call("POST", "/v1/chat/completions", r#"{"model": "al:al", "messages": []}"#),
        10 * DAY + 7 * HOUR,
    ) {
        Handling::Refused(text) => {
            assert!(text.contains("expired"), "refusal names the cause: {text}");
        }
        other => panic!("refused once expired, got {other:?}"),
    }
    // The last day itself still counts, to its last second.
    assert!(matches!(
        state.handle(&call("POST", "/v1/x", "{}"), 10 * DAY - 1),
        Handling::Forward(_)
    ));
    assert!(matches!(audited(None).handle(&call("POST", "/v1/x", "{}"), 10 * DAY), Handling::Refused(_)));
}

#[test]
fn non_zdr_audit_refuses_expired_or_unbounded_attestations() {
    let today = date_to_epoch_days("2026-08-23").unwrap();
    let now = today * DAY + 12 * HOUR + 34 * 60 + 56;
    let live = NonZdrAudit {
        path: "/audit.log".into(),
        expires_epoch_days: Some(today + 1),
    };
    assert_eq!(
        live.witness(now, "example/non-zdr-model").unwrap(),
        "2026-08-23T12\texample/non-zdr-model\n"
    );
    let last_day = NonZdrAudit {
        path: "/audit.log".into(),
        expires_epoch_days: Some(today),
    };
    assert!(last_day.witness(now, "s").is_ok());
    let dead = NonZdrAudit {
        path: "/audit.log".into(),
        expires_epoch_days: Some(today - 1),
    };
    let err = dead.witness(now, "example/non-zdr-model").unwrap_err();
    assert!(matches!(err, AuditRefusal::Expired(_)), "{err:?}");
    assert!(err.message().contains("2026-08-22"), "{}", err.message());
    let unbounded = NonZdrAudit {
        path: "/audit.log".into(),
        expires_epoch_days: None,
    };
    let err = unbounded.witness(now, "example/non-zdr-model").unwrap_err();
    assert!(matches!(err, AuditRefusal::Unbounded), "{err:?}");
}

#[test]
fn audit_records_tell_the_hour_alone() {
    let audit = NonZdrAudit {
        path: "/audit.log".into(),
        expires_epoch_days: Some(20_000),
    };
    let line = |now: i64| audit.witness(now, "s").unwrap();
    assert_eq!(line(0), "1970-01-01T00\ts\n");
    assert_eq!(line(HOUR - 1), line(0));
    assert_eq!(line(HOUR), "1970-01-01T01\ts\n");
    assert_eq!(line(-1), "1969-12-31T23\ts\n");
    assert_eq!(line(DAY - 1), "1970-01-01T23\ts\n");
}

#[test]
fn refusals_say_why() {
    for why in [
        AuditRefusal::Unbounded,
        AuditRefusal::Expired("2026-08-22".into()),
        AuditRefusal::Io("disk full".into()),
        AuditRefusal::Join,
    ] {
        assert!(refuse(&why).contains(&why.message()), "{why:?}");
    }
    assert!(AuditRefusal::Io("disk full".into()).message().contains("disk full"));
}

#[test]
fn targets_keep_the_base_and_the_query() {
    assert_eq!(target_url("http://h/v1", "/v1/chat", None), "http://h/v1/chat");
    assert_eq!(target_url("http://h/v1", "/v1/chat", Some("a=b")), "http://h/v1/chat?a=b");
    assert_eq!(target_url("http://h", "/other", None), "http://h/other");
}

#[test]
fn headers_carry_the_key_and_the_configured_extras() {
    let hs = outgoing_headers(
        None,
        Some(&b"text/event-stream".to_vec()),
        &None,
        &vec![("x-title".to_string(), "t".to_string())],
    );
    let find = |n: &str| hs.iter().filter(|h| h.name == n).map(|h| h.value.clone()).collect::<Vec<_>>();
    assert_eq!(find("accept"), vec![b"text/event-stream".to_vec()]);
    assert_eq!(find("x-title"), vec![b"t".to_vec()]);
    assert!(find("authorization").is_empty());
}

#[test]
fn event_streams_are_told_by_their_content_type() {
    assert!(is_event_stream(Some("text/event-stream; charset=utf-8")));
    assert!(!is_event_stream(Some("application/json")));
    assert!(!is_event_stream(None));
}

#[test]
fn the_four_legs_have_names() {
    let names: Vec<&str> = [Leg::CliRequest, Leg::ProviderRequest, Leg::ProviderResponse, Leg::CliResponse]
        .iter()
        .map(|l| l.as_str())
        .collect();
    assert_eq!(names, ["cli_request", "provider_request", "provider_response", "cli_response"]);
    assert!(Leg::CliRequest.is_request() && Leg::ProviderRequest.is_request());
    assert!(!Leg::ProviderResponse.is_request() && !Leg::CliResponse.is_request());
}

#[test]
fn nothing_leaves_a_zero_retention_endpoint_without_its_injection() {
    let e = VettedEndpoint::new("https://openrouter.ai/api/v1");
    assert_eq!(e.url(), "https://openrouter.ai/api/v1");
    let extra = vec![("provider".to_string(), parse(br#"{"zdr":false,"only":["x"]}"#).unwrap())];
    let r = e.prepare(br#"{"model":"a","provider":3}"#, "m", &extra, Privacy::OpenRouter);
    let v: Value = serde_json::from_slice(&r.into_body()).unwrap();
    assert_eq!(v["model"], "m");
    assert_eq!(v["provider"]["zdr"], true);
    assert_eq!(v["provider"]["data_collection"], "deny");
    let none: Vec<(String, Json)> = vec![];
    let r = e.prepare(b"[1]", "m", &none, Privacy::OpenRouter);
    assert_eq!(r.body(), b"[1]");
}

#[test]
fn abort_idempotent_and_usage_readable() {
    let tick = |completion_tokens: u64| UsageSnapshot {
        prompt_tokens: 100,
        completion_tokens,
        cached_prompt_tokens: 0,
        cost_so_far: None,
    };
    let mut c = Cumulative::default();
    let mut sess = ProxySession::new();
    assert_eq!(sess.usage(&c).completion_tokens, 0);
    let t = c.add(&tick(10), None);
    assert_eq!(sess.next_event(Some(t)).unwrap(), SessionEvent::Usage(t));
    assert_eq!(sess.usage(&c).completion_tokens, 10);
    assert!(sess.abort(AbortReason::User));
    assert!(!sess.abort(AbortReason::CostCap));
    assert_eq!(sess.next_event(None).unwrap(), SessionEvent::Ended);
    assert_eq!(sess.next_event(None).unwrap_err(), SessionError::AlreadyEnded);
    assert_eq!(sess.finish(&c).terminated_by, Some(AbortReason::User));
}
