use blindcoder::config::Privacy;
use blindcoder::double::Double;
use blindcoder::json::{parse, Json, Number};
use blindcoder::rewrite::{
    apply_request_privacy, mask_json_body, mask_response_obj, mask_sse_line, parse_usage,
    replace_bytes, replace_text, rewrite_request, sse_payload, RewriteError,
};
use serde_json::Value;

fn doc(text: &str) -> Json {
    parse(text.as_bytes()).expect("valid JSON")
}

fn members(text: &str) -> Vec<(String, Json)> {
    match doc(text) {
        Json::Object(m) => m,
        _ => panic!("not an object"),
    }
}

fn back(j: &Json) -> Value {
    serde_json::from_str(&j.to_text()).expect("valid JSON")
}

#[test]
fn rewrites_model_and_leaves_the_rest_untouched() {
    let mut body = doc(
        r#"{"model":"x7k2:q4m9","messages":[{"role":"user","content":"hi"}],"temperature":0.2}"#,
    );
    rewrite_request(&mut body, "moonshotai/kimi-k2-instruct", &Vec::new()).unwrap();
    let v = back(&body);
    assert_eq!(v["model"], "moonshotai/kimi-k2-instruct");
    assert_eq!(v["temperature"], 0.2);
    assert_eq!(v["messages"][0]["content"], "hi");
}

#[test]
fn merges_extra_body_but_never_clobbers_the_resolved_model() {
    let mut body = doc(r#"{"model":"alias","messages":[]}"#);
    let extra =
        members(r#"{"provider":{"require_parameters":true},"model":"attacker/override"}"#);
    rewrite_request(&mut body, "real/slug", &extra).unwrap();
    let v = back(&body);
    assert_eq!(v["model"], "real/slug", "resolved model must always win");
    assert_eq!(v["provider"]["require_parameters"], true);
}

#[test]
fn non_object_body_is_refused() {
    let mut body = doc(r#""not an object""#);
    let r = rewrite_request(&mut body, "real/slug", &Vec::new());
    assert!(r.is_err());
    assert_eq!(r, Err(RewriteError::NotAnObject));
    assert_eq!(RewriteError::NotAnObject.message(), "request body is not a JSON object");
}

#[test]
fn parse_usage_reads_tokens_and_cost() {
    let resp = doc(
        r#"{"choices":[],"usage":{"prompt_tokens":1200,"completion_tokens":340,"cost":0.00025938}}"#,
    );
    let u = parse_usage(&resp).unwrap();
    assert_eq!(u.prompt_tokens, 1200);
    assert_eq!(u.completion_tokens, 340);
    assert_eq!(u.cost_so_far, Some(Double { bits: 0.00025938_f64.to_bits() }));

    let no_cost =
        parse_usage(&doc(r#"{"usage":{"prompt_tokens":1,"completion_tokens":2}}"#)).unwrap();
    assert_eq!(no_cost.cost_so_far, None);
    assert!(parse_usage(&doc(r#"{"choices":[]}"#)).is_none());
}

#[test]
fn usage_reads_cached_tokens_and_whole_number_costs() {
    let u = parse_usage(&doc(
        r#"{"usage":{"prompt_tokens":10,"prompt_tokens_details":{"cached_tokens":4},"cost":3}}"#,
    ))
    .unwrap();
    assert_eq!(u.cached_prompt_tokens, 4);
    assert_eq!(u.completion_tokens, 0);
    assert_eq!(u.cost_so_far, Some(Double { bits: 3.0_f64.to_bits() }));
    let odd = parse_usage(&doc(
        r#"{"usage":{"prompt_tokens":-1,"completion_tokens":"7","cost":"1"}}"#,
    ))
    .unwrap();
    assert_eq!(odd.prompt_tokens, 0);
    assert_eq!(odd.completion_tokens, 0);
    assert_eq!(odd.cost_so_far, None);
}

#[test]
fn mask_json_body_replaces_model_and_strips_fingerprints() {
    let body = br#"{"id":"gen-123","model":"openai/gpt-oss-120b","provider":"AkashML","system_fingerprint":"fp_x","choices":[{"message":{"content":"hi"}}],"usage":{"prompt_tokens":5,"completion_tokens":3}}"#;
    let out: Value =
        serde_json::from_slice(&mask_json_body(body, "openai/gpt-oss-120b", "x7k2:q4m9")).unwrap();
    assert_eq!(out["model"], "x7k2:q4m9");
    assert!(out.get("provider").is_none());
    assert!(out.get("system_fingerprint").is_none());
    assert_eq!(out["id"], "gen-123");
    assert_eq!(out["choices"][0]["message"]["content"], "hi");
}

#[test]
fn mask_json_body_scrubs_the_slug_from_an_error_message() {
    let body = br#"{"error":{"message":"Request too large for model `openai/gpt-oss-120b` in organization `org_abc`","code":"rate_limit_exceeded"}}"#;
    let out = mask_json_body(body, "openai/gpt-oss-120b", "x7k2:q4m9");
    let text = String::from_utf8(out).unwrap();
    assert!(
        !text.contains("openai/gpt-oss-120b"),
        "real slug must not survive in the error text"
    );
    assert!(text.contains("x7k2:q4m9"), "the alias replaces it");
    assert!(text.contains("rate_limit_exceeded"), "the rest of the error is intact");
}

#[test]
fn mask_json_body_leaves_non_json_without_the_slug_untouched() {
    assert_eq!(mask_json_body(b"not json", "real/slug", "a"), b"not json");
    assert_eq!(
        mask_json_body(b"failed on real/slug", "real/slug", "al"),
        b"failed on al"
    );
}

#[test]
fn mask_sse_line_masks_data_frames_only() {
    let masked = mask_sse_line(
        r#"data: {"model":"qwen/qwen3.6-35b-a3b","provider":"AkashML"}"#,
        "qwen/qwen3.6-35b-a3b",
        "al:al",
    );
    let v: Value = serde_json::from_str(masked.strip_prefix("data: ").unwrap()).unwrap();
    assert_eq!(v["model"], "al:al");
    assert!(v.get("provider").is_none());
    assert_eq!(mask_sse_line("data: [DONE]", "real/slug", "al:al"), "data: [DONE]");
    assert_eq!(mask_sse_line(": keep-alive", "real/slug", "al:al"), ": keep-alive");
    assert_eq!(
        mask_sse_line("event: error real/slug", "real/slug", "al"),
        "event: error al"
    );
}

#[test]
fn replacing_goes_from_the_left_without_overlap() {
    assert_eq!(replace_bytes(b"aaaa", b"aa", b"b"), b"bb");
    assert_eq!(replace_bytes(b"aaa", b"aa", b"b"), b"ba");
    assert_eq!(replace_bytes(b"abc", b"", b"x"), b"abc");
    assert_eq!(replace_bytes(b"", b"x", b"y"), b"");
    assert_eq!(replace_bytes(&[0xff, b'x', 0xfe], b"x", b"yy"), [0xff, b'y', b'y', 0xfe]);
    assert_eq!(replace_text("übergröße", "größe", "g"), "überg");
    assert_eq!(replace_text("abc", "", "x"), "abc");
}

#[test]
fn an_overlay_of_slug_and_alias_can_leave_a_slug() {
    // "9a/b" laid over the end of "x:9" agrees with it, so the replacement itself can complete a
    // new slug: such aliases are outside the scrub law.
    assert_eq!(replace_bytes(b"9a/ba/b", b"9a/b", b"x:9"), b"x:9a/b");
    // A second pass over an alias without an overlay changes nothing.
    let once = replace_bytes(b"see real/slug, real/slug", b"real/slug", b"x7k2:q4m9");
    assert_eq!(replace_bytes(&once, b"real/slug", b"x7k2:q4m9"), once);
}

#[test]
fn sse_payloads_are_found_behind_white_space() {
    assert_eq!(sse_payload("  data:  {\"a\":1} \r"), Some("{\"a\":1}".to_string()));
    assert_eq!(sse_payload("data:"), Some(String::new()));
    assert_eq!(sse_payload("event: data:"), None);
}

#[test]
fn request_privacy_is_injected_per_protocol() {
    let mut body = doc(r#"{"provider":{"order":["a"],"zdr":false}}"#);
    apply_request_privacy(&mut body, Privacy::OpenRouter);
    let v = back(&body);
    assert_eq!(v["provider"]["zdr"], true);
    assert_eq!(v["provider"]["data_collection"], "deny");
    assert_eq!(v["provider"]["order"][0], "a");

    let mut odd = doc(r#"{"provider":"text"}"#);
    apply_request_privacy(&mut odd, Privacy::OpenRouter);
    assert_eq!(back(&odd)["provider"]["zdr"], true);

    let mut same = doc(r#"{"provider":{"zdr":false}}"#);
    apply_request_privacy(&mut same, Privacy::Groq);
    apply_request_privacy(&mut same, Privacy::NoZdr);
    assert_eq!(same.to_text(), r#"{"provider":{"zdr":false}}"#);

    let mut list = doc("[1]");
    apply_request_privacy(&mut list, Privacy::OpenRouter);
    assert_eq!(list.to_text(), "[1]");
}

#[test]
fn masking_leaves_what_is_not_an_object_alone() {
    let mut v = doc(r#"["model"]"#);
    mask_response_obj(&mut v, "al");
    assert_eq!(v.to_text(), r#"["model"]"#);
    let mut no_model = doc(r#"{"x_groq":1,"id":"i"}"#);
    mask_response_obj(&mut no_model, "al");
    assert_eq!(no_model.to_text(), r#"{"id":"i"}"#);
}

#[test]
fn json_values_survive_reading_and_writing() {
    let text = r#"{"a":[1,-2,0.5,null,true,"x"],"b":{"c":18446744073709551615}}"#;
    let j = doc(text);
    assert_eq!(j.to_text(), text);
    assert_eq!(j.duplicate().to_text(), text);
    assert_eq!(j.get("a").unwrap().item(0).unwrap().natural(), Some(1));
    assert_eq!(j.get("a").unwrap().item(1).unwrap().natural(), None);
    assert_eq!(j.get("a").unwrap().item(2).unwrap().double(), Some(0.5_f64.to_bits()));
    assert!(j.get("a").unwrap().item(6).is_none());
    assert_eq!(j.get("b").unwrap().get("c").unwrap().natural(), Some(u64::MAX));
    assert!(parse(b"{").is_none());
    assert_eq!(Json::Number(Number::Negative(5)).to_text(), "5");
    assert_eq!(Json::Number(Number::Float(f64::NAN.to_bits())).to_text(), "null");
    assert_eq!(doc(r#"{"a":1}"#).to_pretty_text(), "{\n  \"a\": 1\n}");
    let mut twice = Json::Object(vec![
        ("k".to_string(), Json::Bool(false)),
        ("k".to_string(), Json::Bool(true)),
    ]);
    assert_eq!(twice.to_text(), r#"{"k":true}"#);
    assert!(twice.get("k").is_some());
    twice.remove("k");
    assert_eq!(twice.to_text(), "{}");
    twice.insert("n", Json::Null);
    assert_eq!(twice.to_bytes(), br#"{"n":null}"#);
    assert!(twice.is_object());
    assert!(doc("\"t\"").is_text());
    assert_eq!(doc("\"t\"").text(), Some("t"));
}
