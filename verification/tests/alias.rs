use blindcoder::alias::{
    alias_from_display, mint_token, token_of, Alias, RevealGate, RevealReason, TOKEN_LEN,
};
use rand::rngs::StdRng;
use rand::SeedableRng;

const TOKEN_ALPHABET: &[u8] = b"abcdefghijklmnopqrstuvwxyz0123456789";

#[test]
fn tokens_are_lowercase_alnum_of_requested_length() {
    let mut rng = StdRng::seed_from_u64(7);
    let tok = mint_token(&mut rng, TOKEN_LEN);
    assert_eq!(tok.len(), TOKEN_LEN);
    assert!(tok.bytes().all(|b| TOKEN_ALPHABET.contains(&b)));
}

#[test]
fn tokens_vary_and_reach_the_whole_alphabet() {
    let mut rng = StdRng::seed_from_u64(1);
    let long = mint_token(&mut rng, 2000);
    assert!(TOKEN_ALPHABET.iter().all(|b| long.as_bytes().contains(b)));
    assert_ne!(mint_token(&mut rng, 16), mint_token(&mut rng, 16));
}

#[test]
fn places_spell_a_token() {
    assert_eq!(token_of(&vec![0, 25, 26, 35]), "az09");
    assert_eq!(token_of(&vec![]), "");
}

#[test]
fn reveal_goes_through_the_gate() {
    let a = Alias {
        provider_token: "x7k2".into(),
        model_token: "q4m9".into(),
    };
    let got = RevealGate.reveal_alias(&a, RevealReason::UserRequested, |al| {
        (al.model_token == "q4m9").then(|| "acme/model-x".to_string())
    });
    assert_eq!(got.as_deref(), Some("acme/model-x"));
    assert_eq!(a.display(), "x7k2:q4m9");
}

#[test]
fn a_gate_without_an_answer_reveals_nothing() {
    let a = Alias {
        provider_token: "x7k2".into(),
        model_token: "q4m9".into(),
    };
    let got: Option<String> = RevealGate.reveal_alias(&a, RevealReason::Stats, |_| None);
    assert!(got.is_none());
}

#[test]
fn shown_aliases_read_back() {
    let a = alias_from_display("x7k2:q4m9").unwrap();
    assert_eq!(a.provider_token, "x7k2");
    assert_eq!(a.model_token, "q4m9");
    assert_eq!(a.display(), "x7k2:q4m9");
    assert_eq!(alias_from_display("a:b:c").unwrap().model_token, "b:c");
    for (provider, model) in [("", ""), ("p", "a:b:"), ("pt", ":"), ("x7k2", "")] {
        let a = Alias { provider_token: provider.into(), model_token: model.into() };
        let back = alias_from_display(&a.display()).unwrap();
        assert_eq!((back.provider_token.as_str(), back.model_token.as_str()), (provider, model));
    }
    let e = alias_from_display("nocolon").unwrap_err();
    assert_eq!(e.message(), "stored alias nocolon is missing ':' separator");
}

#[test]
fn reveal_reasons_have_stored_names() {
    assert_eq!(RevealReason::UserRequested.as_str(), "user_requested");
    assert_eq!(RevealReason::Routing.as_str(), "routing");
    assert_eq!(RevealReason::Stats.as_str(), "stats");
    for reason in [RevealReason::UserRequested, RevealReason::Routing, RevealReason::Stats] {
        assert_eq!(RevealReason::from_name(reason.as_str()), Some(reason));
    }
    assert_eq!(RevealReason::from_name("Stats"), None);
    assert_eq!(RevealReason::from_name(""), None);
}
