use blindcoder::cli::{
    diff_shortcuts, disclosure_reassertion, has_model_arg, merge_pi_models, name_of_file,
    non_zdr_disclosure, opencode_config_content, parse_rating, perf_shortcuts, pi_models_json,
    read_answer, Answer, CliAdapter,
};
use blindcoder::json::parse;

#[test]
fn pi_models_json_merges_and_preserves_user_providers() {
    let ours: serde_json::Value =
        serde_json::from_str(&pi_models_json(None, "http://127.0.0.1:1/v1", "x7k2:q4m9")).unwrap();
    assert_eq!(
        ours["providers"]["blindcoder"]["baseUrl"],
        "http://127.0.0.1:1/v1"
    );
    assert_eq!(
        ours["providers"]["blindcoder"]["models"][0]["id"],
        "x7k2:q4m9"
    );

    let user = r#"{
            "providers": {
                "their-provider": { "baseUrl": "http://their.test/v1", "api": "openai-completions" },
                "blindcoder": { "baseUrl": "http://stale.test/v1" }
            }
        }"#;
    let merged: serde_json::Value = serde_json::from_str(&pi_models_json(
        Some(user),
        "http://127.0.0.1:2/v1",
        "x7k2:q4m9",
    ))
    .unwrap();
    assert_eq!(
        merged["providers"]["their-provider"]["baseUrl"],
        "http://their.test/v1"
    );
    assert_eq!(
        merged["providers"]["blindcoder"]["baseUrl"],
        "http://127.0.0.1:2/v1"
    );

    let recovered: serde_json::Value = serde_json::from_str(&pi_models_json(
        Some("not json"),
        "http://127.0.0.1:3/v1",
        "x7k2:q4m9",
    ))
    .unwrap();
    assert_eq!(
        recovered["providers"]["blindcoder"]["baseUrl"],
        "http://127.0.0.1:3/v1"
    );
}

#[test]
fn pi_models_are_written_in_full() {
    assert_eq!(
        merge_pi_models(parse(br#"{"x":1,"providers":7}"#), "u", "a").to_text(),
        r#"{"providers":{"blindcoder":{"api":"openai-completions","apiKey":"blindcoder","baseUrl":"u","models":[{"contextWindow":128000,"id":"a","maxTokens":4096}]}},"x":1}"#
    );
    assert!(merge_pi_models(parse(b"[1]"), "u", "a").is_object());
    assert!(pi_models_json(Some("[]"), "u", "a").starts_with("{\n  \"providers\""));
}

#[test]
fn opencode_config_names_the_alias_only() {
    let v: serde_json::Value =
        serde_json::from_str(&opencode_config_content("http://127.0.0.1:9/v1", "x7k2:q4m9")).unwrap();
    let ours = &v["provider"]["blindcoder"];
    assert_eq!(ours["npm"], "@ai-sdk/openai-compatible");
    assert_eq!(ours["name"], "blindcoder (blind router)");
    assert_eq!(ours["options"]["baseURL"], "http://127.0.0.1:9/v1");
    assert_eq!(ours["options"]["apiKey"], "blindcoder");
    assert_eq!(ours["models"]["x7k2:q4m9"]["name"], "x7k2:q4m9");
    assert_eq!(v["model"], "blindcoder/x7k2:q4m9");
}

#[test]
fn cli_adapter_detects_by_file_name_and_model_arg_is_respected() {
    assert_eq!(CliAdapter::detect("opencode"), CliAdapter::OpenCode);
    assert_eq!(CliAdapter::detect("pi"), CliAdapter::Pi);
    assert_eq!(CliAdapter::detect("/nix/store/abc/bin/pi"), CliAdapter::Pi);
    assert_eq!(CliAdapter::detect("./aider"), CliAdapter::Generic);
    // "pi" as a path *component* is not a match
    assert_eq!(CliAdapter::detect("/opt/pi/aider"), CliAdapter::Generic);

    let none: Vec<String> = vec!["-p".into(), "hi".into()];
    assert!(!has_model_arg(&none));
    let flagged: Vec<String> = vec!["--model".into(), "their/model".into()];
    assert!(has_model_arg(&flagged));
    let joined: Vec<String> = vec!["--model=their/model".into()];
    assert!(has_model_arg(&joined));
}

#[test]
fn file_names_are_those_of_the_standard_library() {
    for path in [
        "pi", "./pi", "/a/pi", "/a/pi/", "/a/pi//", "/a/pi/.", "/a/pi/./", ".", "..", "/", "", "a/..",
        "./.", "/.", "a//b", ".pi", "...", "a/...", "//", "a/./.",
    ] {
        let want = std::path::Path::new(path)
            .file_name()
            .and_then(|n| n.to_str())
            .map(String::from);
        assert_eq!(name_of_file(path), want, "{path:?}");
    }
    assert_eq!(CliAdapter::detect(""), CliAdapter::Generic);
}

#[test]
fn parse_rating_accepts_numbers_and_letter_shortcuts() {
    let perf = perf_shortcuts();
    let diff = diff_shortcuts();
    // numbers within range
    assert_eq!(parse_rating("1", -2, 2, &perf), Some(1));
    assert_eq!(parse_rating("-2", -2, 2, &perf), Some(-2));
    // out-of-range numbers re-prompt (None)
    assert_eq!(parse_rating("5", -2, 2, &perf), None);
    assert_eq!(parse_rating("10", 0, 4, &diff), None);
    // letter shortcuts, case-insensitive
    assert_eq!(parse_rating("t", -2, 2, &perf), Some(-2));
    assert_eq!(parse_rating("E", -2, 2, &perf), Some(2));
    // the same letter maps differently per scale (terrible vs trivial, excellent vs easy)
    assert_eq!(parse_rating("t", 0, 4, &diff), Some(0));
    assert_eq!(parse_rating("e", 0, 4, &diff), Some(1));
    // unknown letter / multi-char / no shortcuts → None
    assert_eq!(parse_rating("z", -2, 2, &perf), None);
    assert_eq!(parse_rating("ab", -2, 2, &perf), None);
    assert_eq!(parse_rating("t", -2, 2, &[]), None);
}

#[test]
fn numbers_are_read_as_the_standard_library_reads_them() {
    for text in [
        "+1", "-0", "--1", "1 ", "9223372036854775807", "9223372036854775808", "-9223372036854775808",
        "-9223372036854775809", "", "+", "-", "1_0", "٣", "00001",
    ] {
        let want = text.parse::<i64>().ok();
        assert_eq!(parse_rating(text, i64::MIN, i64::MAX, &[]), want, "{text:?}");
    }
}

#[test]
fn answers_skip_count_or_ask_again() {
    let perf = perf_shortcuts();
    assert_eq!(read_answer("\n", -2, 2, &perf), Answer::Skip);
    assert_eq!(read_answer("  g \r\n", -2, 2, &perf), Answer::Points(1));
    assert_eq!(read_answer("\u{3000}2\u{a0}", -2, 2, &perf), Answer::Points(2));
    assert_eq!(read_answer("7", -2, 2, &perf), Answer::Again);
}

#[test]
fn disclosure_is_re_asserted_only_for_a_launched_armed_session() {
    let launched = vec!["opencode".to_string()];
    let text =
        disclosure_reassertion(true, &launched).expect("armed launcher session must re-assert");
    assert!(text.contains("NON-ZDR SESSION"), "{text:?}");
    assert!(
        text.contains("treat EVERYTHING"),
        "the wording must keep the treat-everything instruction: {text:?}"
    );
    assert_eq!(disclosure_reassertion(true, &vec![]), None);
    assert_eq!(disclosure_reassertion(false, &launched), None);
    assert_eq!(text, non_zdr_disclosure());
}
