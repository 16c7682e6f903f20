//! The fail-closed gates that a configured pool passes before any pick: the privacy gate over
//! every provider, and the consent chain of the no-ZDR protocol.

use vstd::prelude::*;

use crate::config;
use crate::config::{Config, Privacy, ProviderConfig};
use crate::dates;
use crate::dates::date_to_epoch_days;
use crate::named;
use crate::text;
use crate::text::{chars_of, insert_in_order, join, same_text, trim};

verus! {

/// The environment variable that is the second factor of the consent chain.
pub fn non_zdr_env_var() -> (r: &'static str)
    ensures
        r@ == "BLINDCODER_NON_ZDR_SESSION_OK"@,
{
    "BLINDCODER_NON_ZDR_SESSION_OK"
}

/// Whether the second factor is given: the variable is set, and not blank.
pub fn env_factor(value: Option<&str>) -> (r: bool)
    ensures
        r == (config::text_of(value) matches Some(t) && text::trimmed(t).len() > 0),
{
    match value {
        Some(t) => chars_of(trim(t).as_str()).len() > 0,
        None => false,
    }
}

/// How many days ahead a no-ZDR attestation may be dated at most.
pub const NON_ZDR_MAX_ARM_DAYS: i64 = 30;

/// A text in quotes, with what is not plain in it escaped, as Rust's debug format writes it.
pub uninterp spec fn quoted_text(t: Seq<char>) -> Seq<char>;

/// `format!` of a `str` with `{:?}`: the text depends on the string alone.
#[verifier::external_body]
pub(crate) fn quoted(s: &str) -> (r: String)
    ensures
        r@ == quoted_text(s@),
{
    format!("{s:?}")
}

/// What keeps a provider from being eligible.
#[derive(Clone, Copy, Debug, PartialEq, Eq, Structural)]
pub enum PoolFault {
    /// No privacy protocol is declared.
    Undeclared,
    /// The endpoint is not the protocol's.
    WrongEndpoint,
    /// The no-ZDR consent fields are set under another protocol.
    MisplacedConsent,
    /// The attestation flag at this position belongs to another protocol.
    ForeignFlag(usize, Privacy),
    /// The attestation flag at this position belongs to no protocol.
    UnknownFlag(usize),
    /// The protocol's manual setup is not attested.
    NotAttested,
}

/// A pool that the privacy gate refused: the first provider at fault, the fault, and what to say.
#[derive(Debug)]
pub struct PoolRefusal {
    pub provider: usize,
    pub fault: PoolFault,
    pub message: String,
}

/// The first flag from position `i` on that does not belong to the protocol.
pub open spec fn flag_fault(flags: Seq<(String, bool)>, privacy: Privacy, i: int) -> Option<
    PoolFault,
>
    decreases flags.len() - i,
{
    if i < 0 || i >= flags.len() {
        None
    } else {
        match Privacy::owner(flags[i].0@) {
            Some(owner) => if owner == privacy {
                flag_fault(flags, privacy, i + 1)
            } else {
                Some(PoolFault::ForeignFlag(i as usize, owner))
            },
            None => Some(PoolFault::UnknownFlag(i as usize)),
        }
    }
}

/// What keeps a provider from being eligible, if anything does.
pub open spec fn pool_fault(p: ProviderConfig) -> Option<PoolFault> {
    match p.privacy {
        None => Some(PoolFault::Undeclared),
        Some(privacy) => if !privacy.admits(p.base_url@) {
            Some(PoolFault::WrongEndpoint)
        } else if privacy != Privacy::NoZdr && (p.expires is Some
            || p.non_zdr_attested_models@.len() > 0) {
            Some(PoolFault::MisplacedConsent)
        } else {
            match flag_fault(p.attestations@, privacy, 0) {
                Some(fault) => Some(fault),
                None => match privacy.flag() {
                    Some(key) => if named::value_of(p.attestations@, key) == Some(true) {
                        None
                    } else {
                        Some(PoolFault::NotAttested)
                    },
                    None => None,
                },
            }
        },
    }
}

/// The name of a protocol in messages.
pub open spec fn protocol_name(p: Privacy) -> Seq<char> {
    match p {
        Privacy::OpenRouter => "OpenRouter"@,
        Privacy::Groq => "Groq"@,
        Privacy::NoZdr => "NoZdr"@,
    }
}

/// The name of a protocol in messages.
fn name_of(p: Privacy) -> (r: &'static str)
    ensures
        r@ == protocol_name(p),
{
    match p {
        Privacy::OpenRouter => "OpenRouter",
        Privacy::Groq => "Groq",
        Privacy::NoZdr => "NoZdr",
    }
}

/// What is said of a provider's fault.
pub open spec fn pool_fault_text(p: ProviderConfig, fault: PoolFault) -> Seq<char> {
    let slug = quoted_text(p.slug@);
    match fault {
        PoolFault::Undeclared => "provider "@ + slug
            + " has no `privacy` declaration — refusing to route to an unknown-data-policy endpoint (fail-closed). Declare its ZDR protocol."@,
        PoolFault::WrongEndpoint => "provider "@ + slug + ": base_url "@ + quoted_text(p.base_url@)
            + " is not the "@ + (match p.privacy->Some_0.host() {
            Some(h) => h,
            None => "(unbound)"@,
        }) + " endpoint that privacy = "@ + protocol_name(p.privacy->Some_0)
            + " attests — an attestation is only valid for that provider's real endpoint."@,
        PoolFault::MisplacedConsent => "provider "@ + slug
            + ": `expires` / the per-model non-ZDR attestation are only meaningful with privacy = \"no-zdr\" — remove them from this provider."@,
        PoolFault::ForeignFlag(i, owner) => "provider "@ + slug + ": attestation key `"@
            + p.attestations@[i as int].0@ + "` belongs to the "@ + protocol_name(owner)
            + " privacy protocol, not this provider's "@ + protocol_name(p.privacy->Some_0)
            + " — remove it."@,
        PoolFault::UnknownFlag(i) => "provider "@ + slug + ": unknown attestation key `"@
            + p.attestations@[i as int].0@ + "`."@,
        PoolFault::NotAttested => "provider "@ + slug + " uses privacy = "@ + protocol_name(
            p.privacy->Some_0,
        )
            + ", whose Zero-Data-Retention blindcoder cannot verify on the wire — it depends on a manual account setup you must perform:\n\n    "@
            + manual_steps_text(p.privacy->Some_0)
            + "\n\nOnce done, confirm by adding `"@ + p.privacy->Some_0.flag()->Some_0
            + " = true` to this provider in your config. (This key is intentionally not in the example config: it must be a deliberate act, not a copied default.)"@,
    }
}

/// The manual steps of a protocol, as a message names them.
pub open spec fn manual_steps_text(p: Privacy) -> Seq<char> {
    match p {
        Privacy::Groq =>
            "In the Groq console (console.groq.com), open Settings → Data Controls and enable Zero-Data-Retention for the account/API key you use here."@,
        _ => "(see the provider's data-controls docs)"@,
    }
}

/// The first flag that does not belong to the protocol.
fn find_flag_fault(flags: &Vec<(String, bool)>, privacy: Privacy) -> (r: Option<PoolFault>)
    ensures
        r == flag_fault(flags@, privacy, 0),
{
    let mut i: usize = 0;
    while i < flags.len()
        invariant
            i <= flags@.len(),
            flag_fault(flags@, privacy, i as int) == flag_fault(flags@, privacy, 0),
        decreases flags@.len() - i,
    {
        match Privacy::for_attestation_key(flags[i].0.as_str()) {
            Some(owner) => {
                if owner != privacy {
                    return Some(PoolFault::ForeignFlag(i, owner));
                }
            },
            None => {
                return Some(PoolFault::UnknownFlag(i));
            },
        }
        i = i + 1;
    }
    None
}

/// What keeps a provider from being eligible, if anything does.
pub fn provider_fault(p: &ProviderConfig) -> (r: Option<PoolFault>)
    ensures
        r == pool_fault(*p),
        named::in_order(p.attestations@),
{
    let flags: &Vec<(String, bool)> = p.attestations.pairs();
    let privacy: Privacy = match p.privacy {
        None => {
            return Some(PoolFault::Undeclared);
        },
        Some(v) => v,
    };
    if !privacy.matches_endpoint(p.base_url.as_str()) {
        return Some(PoolFault::WrongEndpoint);
    }
    if privacy != Privacy::NoZdr && (p.expires.is_some() || p.non_zdr_attested_models.len() > 0) {
        return Some(PoolFault::MisplacedConsent);
    }
    if let Some(fault) = find_flag_fault(flags, privacy) {
        return Some(fault);
    }
    match privacy.attestation_key() {
        Some(key) => match p.attestations.get(key) {
            Some(true) => None,
            _ => Some(PoolFault::NotAttested),
        },
        None => None,
    }
}

/// A flag at fault stands in the list.
proof fn lemma_flag_fault_index(flags: Seq<(String, bool)>, privacy: Privacy, i: int)
    requires
        0 <= i,
        flags.len() <= usize::MAX,
    ensures
        match flag_fault(flags, privacy, i) {
            Some(PoolFault::ForeignFlag(k, _)) => k < flags.len(),
            Some(PoolFault::UnknownFlag(k)) => k < flags.len(),
            Some(_) => false,
            None => true,
        },
    decreases flags.len() - i,
{
    if i < flags.len() {
        lemma_flag_fault_index(flags, privacy, i + 1);
    }
}

/// Of all flags that do not belong to a provider's protocol, a fault names the first by name.
pub proof fn lemma_fault_names_the_first_flag(p: ProviderConfig, privacy: Privacy, at: int, k: int)
    requires
        named::in_order(p.attestations@),
        p.attestations@.len() <= usize::MAX,
        p.privacy == Some(privacy),
        match pool_fault(p) {
            Some(PoolFault::ForeignFlag(i, _)) => at == i,
            Some(PoolFault::UnknownFlag(i)) => at == i,
            _ => false,
        },
        0 <= k < p.attestations@.len(),
        k != at,
        Privacy::owner(p.attestations@[k].0@) != Some(privacy),
    ensures
        0 <= at < p.attestations@.len(),
        text::comes_before(p.attestations@[at].0@, p.attestations@[k].0@),
{
    let flags = p.attestations@;
    lemma_flag_fault_index(flags, privacy, 0);
    lemma_flag_fault_first(flags, privacy, 0, k);
    let ns = named::names(flags);
    assert(text::comes_before(ns[at], ns[k]));
}

/// No flag that does not belong to the protocol stands in front of the one at fault.
proof fn lemma_flag_fault_first(flags: Seq<(String, bool)>, privacy: Privacy, i: int, k: int)
    requires
        0 <= i <= k < flags.len() <= usize::MAX,
        Privacy::owner(flags[k].0@) != Some(privacy),
    ensures
        match flag_fault(flags, privacy, i) {
            Some(PoolFault::ForeignFlag(j, _)) => j <= k,
            Some(PoolFault::UnknownFlag(j)) => j <= k,
            _ => false,
        },
    decreases k - i,
{
    if i < k && Privacy::owner(flags[i].0@) == Some(privacy) {
        lemma_flag_fault_first(flags, privacy, i + 1, k);
    }
}

/// What is said of a provider's fault.
fn describe_pool_fault(p: &ProviderConfig, fault: PoolFault) -> (r: String)
    requires
        pool_fault(*p) == Some(fault),
    ensures
        r@ == pool_fault_text(*p, fault),
{
    let flags: &Vec<(String, bool)> = p.attestations.pairs();
    proof {
        assert(p.attestations@.len() == flags.len());
        lemma_flag_fault_index(p.attestations@, p.privacy->Some_0, 0);
    }
    let mut out: String = "provider ".to_owned();
    out.append(quoted(p.slug.as_str()).as_str());
    let privacy: Privacy = match p.privacy {
        None => {
            out.append(
                " has no `privacy` declaration — refusing to route to an unknown-data-policy endpoint (fail-closed). Declare its ZDR protocol.",
            );
            return out;
        },
        Some(v) => v,
    };
    match fault {
        PoolFault::Undeclared => {},
        PoolFault::WrongEndpoint => {
            out.append(": base_url ");
            out.append(quoted(p.base_url.as_str()).as_str());
            out.append(" is not the ");
            match privacy.endpoint_host() {
                Some(h) => out.append(h),
                None => out.append("(unbound)"),
            }
            out.append(" endpoint that privacy = ");
            out.append(name_of(privacy));
            out.append(
                " attests — an attestation is only valid for that provider's real endpoint.",
            );
        },
        PoolFault::MisplacedConsent => {
            out.append(
                ": `expires` / the per-model non-ZDR attestation are only meaningful with privacy = \"no-zdr\" — remove them from this provider.",
            );
        },
        PoolFault::ForeignFlag(i, owner) => {
            out.append(": attestation key `");
            out.append(flags[i].0.as_str());
            out.append("` belongs to the ");
            out.append(name_of(owner));
            out.append(" privacy protocol, not this provider's ");
            out.append(name_of(privacy));
            out.append(" — remove it.");
        },
        PoolFault::UnknownFlag(i) => {
            out.append(": unknown attestation key `");
            out.append(flags[i].0.as_str());
            out.append("`.");
        },
        PoolFault::NotAttested => {
            out.append(" uses privacy = ");
            out.append(name_of(privacy));
            out.append(
                ", whose Zero-Data-Retention blindcoder cannot verify on the wire — it depends on a manual account setup you must perform:\n\n    ",
            );
            match privacy.manual_steps() {
                Some(steps) => out.append(steps),
                None => out.append("(see the provider's data-controls docs)"),
            }
            out.append("\n\nOnce done, confirm by adding `");
            match privacy.attestation_key() {
                Some(key) => out.append(key),
                None => {},
            }
            out.append(
                " = true` to this provider in your config. (This key is intentionally not in the example config: it must be a deliberate act, not a copied default.)",
            );
        },
    }
    out
}

/// The fail-closed privacy gate over the whole configured pool, run before any pick. Every provider
/// must declare a protocol, point at that protocol's endpoint, carry only its own attestation
/// flags, and attest the manual setup that its protocol depends on.
pub fn validate_pool_privacy(cfg: &Config) -> (r: Result<(), PoolRefusal>)
    ensures
        match r {
            Ok(_) => forall|i: int|
                0 <= i < cfg.providers@.len() ==> pool_fault(#[trigger] cfg.providers@[i]) is None,
            Err(e) => {
                &&& e.provider < cfg.providers@.len()
                &&& forall|i: int|
                    0 <= i < e.provider ==> pool_fault(#[trigger] cfg.providers@[i]) is None
                &&& pool_fault(cfg.providers@[e.provider as int]) == Some(e.fault)
                &&& e.message@ == pool_fault_text(cfg.providers@[e.provider as int], e.fault)
            },
        },
{
    let mut i: usize = 0;
    while i < cfg.providers.len()
        invariant
            i <= cfg.providers@.len(),
            forall|k: int| 0 <= k < i ==> pool_fault(#[trigger] cfg.providers@[k]) is None,
        decreases cfg.providers@.len() - i,
    {
        let p: &ProviderConfig = &cfg.providers[i];
        if let Some(fault) = provider_fault(p) {
            return Err(PoolRefusal { provider: i, fault, message: describe_pool_fault(p, fault) });
        }
        i = i + 1;
    }
    Ok(())
}

/// What an eligible provider has shown: a declared protocol, an endpoint within that protocol's
/// domain, and the attestation of its manual setup where it depends on one.
pub proof fn lemma_eligible_provider(p: ProviderConfig)
    requires
        pool_fault(p) is None,
    ensures
        p.privacy is Some,
        p.privacy->Some_0.admits(p.base_url@),
        p.privacy->Some_0.flag() matches Some(key) ==> named::value_of(p.attestations@, key)
            == Some(true),
        p.privacy->Some_0 != Privacy::NoZdr ==> p.expires is None
            && p.non_zdr_attested_models@.len() == 0,
{
}

/// Which step of the no-ZDR consent chain is not passed.
#[derive(Clone, Copy, Debug, PartialEq, Eq, Structural)]
pub enum ConsentFault {
    /// The routing path is not built in.
    NotBuilt,
    /// No model is attested.
    Unattested,
    /// The attested models are not the provider's models.
    Mismatch,
    /// The attestation has no last day.
    NoExpiry,
    /// The last day is no date.
    BadExpiry,
    /// The last day is over.
    Expired,
    /// The last day is too far ahead.
    TooFarAhead,
    /// The environment's second factor is missing.
    NoEnv,
    /// The flag of this run is missing.
    NoFlag,
}

/// A pool that the consent chain refused: the provider that the unmet step speaks of, where it
/// speaks of one, the step, and what to say.
#[derive(Debug)]
pub struct ConsentRefusal {
    pub provider: Option<usize>,
    pub fault: ConsentFault,
    pub message: String,
}

/// The slugs of a provider's models.
pub open spec fn model_slugs(p: ProviderConfig) -> Set<Seq<char>> {
    p.models@.map_values(|m: config::ModelConfig| m.real_slug@).to_set()
}

/// The slugs that a provider attests.
pub open spec fn attested_slugs(p: ProviderConfig) -> Set<Seq<char>> {
    text::texts(p.non_zdr_attested_models@).to_set()
}

/// The config gate that a no-ZDR provider does not pass on the day `today`, if there is one.
pub open spec fn consent_fault(p: ProviderConfig, today: i64) -> Option<ConsentFault> {
    if p.non_zdr_attested_models@.len() == 0 {
        Some(ConsentFault::Unattested)
    } else if attested_slugs(p) != model_slugs(p) {
        Some(ConsentFault::Mismatch)
    } else {
        match config::owned_text(p.expires) {
            None => Some(ConsentFault::NoExpiry),
            Some(t) => match dates::day_named(t) {
                None => Some(ConsentFault::BadExpiry),
                Some(last) => if last < today {
                    Some(ConsentFault::Expired)
                } else if last > today + NON_ZDR_MAX_ARM_DAYS {
                    Some(ConsentFault::TooFarAhead)
                } else {
                    None
                },
            },
        }
    }
}

/// The first no-ZDR provider from position `i` on.
pub open spec fn first_non_zdr(ps: Seq<ProviderConfig>, i: int) -> Option<int>
    decreases ps.len() - i,
{
    if i < 0 || i >= ps.len() {
        None
    } else if ps[i].privacy == Some(Privacy::NoZdr) {
        Some(i)
    } else {
        first_non_zdr(ps, i + 1)
    }
}

/// The first no-ZDR provider from position `i` on that does not pass its config gates.
pub open spec fn first_consent_fault(ps: Seq<ProviderConfig>, today: i64, i: int) -> Option<int>
    decreases ps.len() - i,
{
    if i < 0 || i >= ps.len() {
        None
    } else if ps[i].privacy == Some(Privacy::NoZdr) && consent_fault(ps[i], today) is Some {
        Some(i)
    } else {
        first_consent_fault(ps, today, i + 1)
    }
}

/// What the consent chain decides: whether the pool is armed, or the first gate that is not passed.
pub enum ConsentView {
    Armed(bool),
    Refused(Option<int>, ConsentFault),
}

/// The consent chain: dormant without a no-ZDR provider; else the build, then every provider's
/// config gates, then the environment, then the flag.
pub open spec fn consent(
    ps: Seq<ProviderConfig>,
    built: bool,
    flag_passed: bool,
    env_present: bool,
    today: i64,
) -> ConsentView {
    match first_non_zdr(ps, 0) {
        None => ConsentView::Armed(false),
        Some(first) => if !built {
            ConsentView::Refused(Some(first), ConsentFault::NotBuilt)
        } else {
            match first_consent_fault(ps, today, 0) {
                Some(i) => ConsentView::Refused(Some(i), consent_fault(ps[i], today)->Some_0),
                None => if !env_present {
                    ConsentView::Refused(None, ConsentFault::NoEnv)
                } else if !flag_passed {
                    ConsentView::Refused(None, ConsentFault::NoFlag)
                } else {
                    ConsentView::Armed(true)
                },
            }
        },
    }
}

/// A list of texts in quotes.
pub open spec fn quoted_list(list: Seq<Seq<char>>) -> Seq<char> {
    "["@ + text::joined(list.map_values(|t: Seq<char>| quoted_text(t)), ", "@) + "]"@
}

/// Whether `list` names, in order and once each, exactly the texts of `all`.
pub open spec fn lists(list: Seq<Seq<char>>, all: Set<Seq<char>>) -> bool {
    text::strictly_ordered(list) && forall|t: Seq<char>| list.contains(t) <==> all.contains(t)
}

/// Whether `t` is what is said of the step that a provider does not pass.
pub open spec fn says_consent_fault(
    t: Seq<char>,
    provider: Option<ProviderConfig>,
    fault: ConsentFault,
) -> bool {
    let p = provider->Some_0;
    let slug = quoted_text(p.slug@);
    let expires = config::owned_text(p.expires)->Some_0;
    match fault {
        ConsentFault::NotBuilt => t == "provider "@ + slug
            + " declares privacy = \"no-zdr\" — a pay-with-data endpoint whose provider may log or train on prompts — but this build compiled that routing path out. Rebuild with the `allow-non-zdr` Cargo feature to proceed."@,
        ConsentFault::Unattested => t == "provider "@ + slug
            + " uses privacy = \"no-zdr\": its endpoint may log or train on every prompt sent to it, and blindcoder will not route there on the strength of a config value alone. Consent is per model — add\n\n    "@
            + "no_zdr_models_i_accept_training_on"@
            + " = [\"…\"]\n\nto this provider, listing the exact `real_slug` of every model it offers."@,
        ConsentFault::Mismatch => exists|missing: Seq<Seq<char>>, extra: Seq<Seq<char>>|
            lists(missing, model_slugs(p).difference(attested_slugs(p))) && lists(
                extra,
                attested_slugs(p).difference(model_slugs(p)),
            ) && t == #[trigger] mismatch_text(slug, missing, extra),
        ConsentFault::NoExpiry => t == "provider "@ + slug
            + ": a non-ZDR attestation must carry a bounded lifetime — add `expires = \"YYYY-MM-DD\"` to this provider."@,
        ConsentFault::BadExpiry => t == "provider "@ + slug
            + ": `expires` must be a \"YYYY-MM-DD\" date (got "@ + quoted_text(expires) + ")."@,
        ConsentFault::Expired => t == "provider "@ + slug
            + ": its non-ZDR attestation expired on "@ + expires
            + " — refusing to start. Renew the attestation deliberately if you still mean it."@,
        ConsentFault::TooFarAhead => t == "provider "@ + slug + ": `expires` = "@ + expires
            + " is more than 30 days out. A non-ZDR attestation may be dated at most 30 days ahead — a hard cap on how long the capability stays armed, not a reminder. Refusing to start."@,
        ConsentFault::NoEnv => t
            == "the non-ZDR pool is configured and attested, but the per-session second factor is missing: set BLINDCODER_NON_ZDR_SESSION_OK=1 in the launching environment. A config file alone can never arm non-ZDR routing."@,
        ConsentFault::NoFlag => t
            == "non-ZDR routing is one deliberate act away: pass --route-non-zdr-this-run on this invocation to route to a non-ZDR endpoint for this run."@,
    }
}

/// What is said of attested models that are not the provider's models.
pub open spec fn mismatch_text(
    slug: Seq<char>,
    missing: Seq<Seq<char>>,
    extra: Seq<Seq<char>>,
) -> Seq<char> {
    "provider "@ + slug
        + ": the non-ZDR model attestation must match this provider's models exactly, by `real_slug`. Unattested models: "@
        + quoted_list(missing) + "; attested but not among the provider's models: "@ + quoted_list(
        extra,
    ) + "."@
}

/// Whether a text stands in a list.
fn has_member(list: &Vec<String>, s: &str) -> (r: bool)
    ensures
        r == text::texts(list@).contains(s@),
{
    let ghost named = text::texts(list@);
    let mut i: usize = 0;
    while i < list.len()
        invariant
            i <= list@.len(),
            named == text::texts(list@),
            forall|k: int| 0 <= k < i ==> named[k] != s@,
        decreases list@.len() - i,
    {
        if same_text(list[i].as_str(), s) {
            proof {
                assert(named[i as int] == s@);
            }
            return true;
        }
        i = i + 1;
    }
    false
}

/// The texts of `a` that are not in `b`, in the order of `a`.
fn missing_from(a: &Vec<String>, b: &Vec<String>) -> (r: Vec<String>)
    requires
        text::strictly_ordered(text::texts(a@)),
    ensures
        lists(
            text::texts(r@),
            text::texts(a@).to_set().difference(text::texts(b@).to_set()),
        ),
{
    let ghost from = text::texts(a@);
    let ghost against = text::texts(b@);
    let mut out: Vec<String> = Vec::new();
    let mut i: usize = 0;
    while i < a.len()
        invariant
            i <= a@.len(),
            from == text::texts(a@),
            against == text::texts(b@),
            text::strictly_ordered(from),
            text::strictly_ordered(text::texts(out@)),
            forall|j: int|
                0 <= j < out@.len() ==> from.take(i as int).contains(
                    #[trigger] text::texts(out@)[j],
                ),
            forall|t: Seq<char>|
                text::texts(out@).contains(t) <==> from.take(i as int).contains(t)
                    && !against.contains(t),
        decreases a@.len() - i,
    {
        let ghost before = text::texts(out@);
        let ghost seen = from.take(i as int);
        let ghost now = from.take(i + 1);
        let keep: bool = !has_member(b, a[i].as_str());
        proof {
            assert(now =~= seen.push(from[i as int]));
            assert forall|t: Seq<char>| now.contains(t) <==> seen.contains(t) || t
                == from[i as int] by {
                if seen.contains(t) {
                    let k = choose|k: int| 0 <= k < seen.len() && seen[k] == t;
                    assert(now[k] == t);
                }
                if t == from[i as int] {
                    assert(now[i as int] == t);
                }
            }
        }
        if keep {
            out.push(a[i].clone());
            proof {
                let after = text::texts(out@);
                assert(after =~= before.push(from[i as int]));
                assert forall|x: int, y: int| 0 <= x < y < after.len() implies text::comes_before(
                    #[trigger] after[x],
                    #[trigger] after[y],
                ) by {
                    if y < before.len() {
                        assert(before[x] == after[x] && before[y] == after[y]);
                    } else {
                        assert(seen.contains(before[x]));
                        let k = choose|k: int| 0 <= k < seen.len() && seen[k] == before[x];
                        assert(from[k] == after[x]);
                    }
                }
                assert forall|j: int| 0 <= j < out@.len() implies now.contains(
                    #[trigger] after[j],
                ) by {
                    if j < before.len() {
                        assert(seen.contains(before[j]));
                    }
                }
                assert forall|t: Seq<char>| after.contains(t) <==> now.contains(t)
                    && !against.contains(t) by {
                    if before.contains(t) {
                        let k = choose|k: int| 0 <= k < before.len() && before[k] == t;
                        assert(after[k] == t);
                    }
                    if t == from[i as int] {
                        assert(after[before.len() as int] == t);
                    }
                    if after.contains(t) {
                        let k = choose|k: int| 0 <= k < after.len() && after[k] == t;
                        if k < before.len() {
                            assert(before[k] == t);
                        }
                    }
                }
            }
        } else {
            proof {
                assert forall|j: int| 0 <= j < out@.len() implies now.contains(
                    #[trigger] text::texts(out@)[j],
                ) by {
                    assert(seen.contains(before[j]));
                }
            }
        }
        i = i + 1;
    }
    proof {
        assert(from.take(i as int) =~= from);
    }
    out
}

/// The slugs of a provider's models, in order and once each.
fn ordered_models(p: &ProviderConfig) -> (r: Vec<String>)
    ensures
        lists(text::texts(r@), model_slugs(*p)),
{
    let ghost slugs = p.models@.map_values(|m: config::ModelConfig| m.real_slug@);
    let mut out: Vec<String> = Vec::new();
    let mut i: usize = 0;
    while i < p.models.len()
        invariant
            i <= p.models@.len(),
            slugs == p.models@.map_values(|m: config::ModelConfig| m.real_slug@),
            text::strictly_ordered(text::texts(out@)),
            forall|t: Seq<char>| text::texts(out@).contains(t) <==> slugs.take(i as int).contains(t),
        decreases p.models@.len() - i,
    {
        let ghost before = text::texts(out@);
        insert_in_order(&mut out, p.models[i].real_slug.as_str());
        proof {
            lemma_one_more(slugs, i as int);
        }
        i = i + 1;
    }
    proof {
        assert(slugs.take(i as int) =~= slugs);
    }
    out
}

/// The slugs that a provider attests, in order and once each.
fn ordered_attested(p: &ProviderConfig) -> (r: Vec<String>)
    ensures
        lists(text::texts(r@), attested_slugs(*p)),
{
    let ghost slugs = text::texts(p.non_zdr_attested_models@);
    let mut out: Vec<String> = Vec::new();
    let mut i: usize = 0;
    while i < p.non_zdr_attested_models.len()
        invariant
            i <= p.non_zdr_attested_models@.len(),
            slugs == text::texts(p.non_zdr_attested_models@),
            text::strictly_ordered(text::texts(out@)),
            forall|t: Seq<char>| text::texts(out@).contains(t) <==> slugs.take(i as int).contains(t),
        decreases p.non_zdr_attested_models@.len() - i,
    {
        insert_in_order(&mut out, p.non_zdr_attested_models[i].as_str());
        proof {
            lemma_one_more(slugs, i as int);
        }
        i = i + 1;
    }
    proof {
        assert(slugs.take(i as int) =~= slugs);
    }
    out
}

/// One more item of a list is one more member.
proof fn lemma_one_more(list: Seq<Seq<char>>, i: int)
    requires
        0 <= i < list.len(),
    ensures
        forall|t: Seq<char>|
            #[trigger] list.take(i + 1).contains(t) <==> list.take(i).contains(t) || t == list[i],
{
    let seen = list.take(i);
    let now = list.take(i + 1);
    assert forall|t: Seq<char>| #[trigger] now.contains(t) <==> seen.contains(t) || t == list[i] by {
        if seen.contains(t) {
            let k = choose|k: int| 0 <= k < seen.len() && seen[k] == t;
            assert(now[k] == t);
        }
        if t == list[i] {
            assert(now[i] == t);
        }
        if now.contains(t) {
            let k = choose|k: int| 0 <= k < now.len() && now[k] == t;
            if k < i {
                assert(seen[k] == t);
            }
        }
    }
}

/// Two sets are the same where neither has a member that the other lacks.
proof fn lemma_same_sets(a: Set<Seq<char>>, b: Set<Seq<char>>)
    requires
        forall|t: Seq<char>| !a.difference(b).contains(t),
        forall|t: Seq<char>| !b.difference(a).contains(t),
    ensures
        a == b,
{
    assert forall|t: Seq<char>| a.contains(t) <==> b.contains(t) by {
        assert(!a.difference(b).contains(t));
        assert(!b.difference(a).contains(t));
    }
    assert(a =~= b);
}

/// The models of a provider that are not attested, and the attested ones that are not its models.
fn attestation_gaps(p: &ProviderConfig) -> (r: (Vec<String>, Vec<String>))
    ensures
        lists(text::texts(r.0@), model_slugs(*p).difference(attested_slugs(*p))),
        lists(text::texts(r.1@), attested_slugs(*p).difference(model_slugs(*p))),
        (r.0@.len() == 0 && r.1@.len() == 0) == (attested_slugs(*p) == model_slugs(*p)),
{
    let want: Vec<String> = ordered_models(p);
    let have: Vec<String> = ordered_attested(p);
    let missing: Vec<String> = missing_from(&want, &have);
    let extra: Vec<String> = missing_from(&have, &want);
    proof {
        assert(text::texts(want@).to_set() =~= model_slugs(*p));
        assert(text::texts(have@).to_set() =~= attested_slugs(*p));
        if missing@.len() == 0 && extra@.len() == 0 {
            lemma_same_sets(attested_slugs(*p), model_slugs(*p));
        }
        if attested_slugs(*p) == model_slugs(*p) {
            if missing@.len() > 0 {
                assert(text::texts(missing@).contains(text::texts(missing@)[0]));
            }
            if extra@.len() > 0 {
                assert(text::texts(extra@).contains(text::texts(extra@)[0]));
            }
        }
    }
    (missing, extra)
}

/// A list of texts in quotes.
fn quote_all(list: &Vec<String>) -> (r: String)
    ensures
        r@ == quoted_list(text::texts(list@)),
{
    let ghost want = text::texts(list@).map_values(|t: Seq<char>| quoted_text(t));
    let mut items: Vec<String> = Vec::new();
    let mut i: usize = 0;
    while i < list.len()
        invariant
            i <= list@.len(),
            want == text::texts(list@).map_values(|t: Seq<char>| quoted_text(t)),
            text::texts(items@) == want.take(i as int),
        decreases list@.len() - i,
    {
        let ghost before = items@;
        items.push(quoted(list[i].as_str()));
        proof {
            assert(text::texts(items@) =~= text::texts(before).push(want[i as int]));
            assert(want.take(i + 1) =~= want.take(i as int).push(want[i as int]));
        }
        i = i + 1;
    }
    proof {
        assert(want.take(i as int) =~= want);
    }
    let mut out: String = "[".to_owned();
    out.append(join(&items, ", ").as_str());
    out.append("]");
    out
}

/// The config gate that a no-ZDR provider does not pass, and what to say of it.
pub fn provider_consent_fault(p: &ProviderConfig, today: i64) -> (r: Option<
    (ConsentFault, String),
>)
    ensures
        match r {
            Some((fault, t)) => consent_fault(*p, today) == Some(fault) && says_consent_fault(
                t@,
                Some(*p),
                fault,
            ),
            None => consent_fault(*p, today) is None,
        },
{
    let mut out: String = "provider ".to_owned();
    out.append(quoted(p.slug.as_str()).as_str());
    if p.non_zdr_attested_models.len() == 0 {
        out.append(
            " uses privacy = \"no-zdr\": its endpoint may log or train on every prompt sent to it, and blindcoder will not route there on the strength of a config value alone. Consent is per model — add\n\n    ",
        );
        match Privacy::NoZdr.non_zdr_attestation_key() {
            Some(key) => out.append(key),
            None => {},
        }
        out.append(
            " = [\"…\"]\n\nto this provider, listing the exact `real_slug` of every model it offers.",
        );
        return Some((ConsentFault::Unattested, out));
    }
    let (missing, extra): (Vec<String>, Vec<String>) = attestation_gaps(p);
    if missing.len() > 0 || extra.len() > 0 {
        out.append(
            ": the non-ZDR model attestation must match this provider's models exactly, by `real_slug`. Unattested models: ",
        );
        out.append(quote_all(&missing).as_str());
        out.append("; attested but not among the provider's models: ");
        out.append(quote_all(&extra).as_str());
        out.append(".");
        proof {
            assert(out@ == mismatch_text(
                quoted_text(p.slug@),
                text::texts(missing@),
                text::texts(extra@),
            ));
        }
        return Some((ConsentFault::Mismatch, out));
    }
    let expires: &String = match &p.expires {
        None => {
            out.append(
                ": a non-ZDR attestation must carry a bounded lifetime — add `expires = \"YYYY-MM-DD\"` to this provider.",
            );
            return Some((ConsentFault::NoExpiry, out));
        },
        Some(t) => t,
    };
    let last: i64 = match date_to_epoch_days(expires.as_str()) {
        None => {
            out.append(": `expires` must be a \"YYYY-MM-DD\" date (got ");
            out.append(quoted(expires.as_str()).as_str());
            out.append(").");
            return Some((ConsentFault::BadExpiry, out));
        },
        Some(d) => d,
    };
    if last < today {
        out.append(": its non-ZDR attestation expired on ");
        out.append(expires.as_str());
        out.append(
            " — refusing to start. Renew the attestation deliberately if you still mean it.",
        );
        return Some((ConsentFault::Expired, out));
    }
    let ahead: i128 = last as i128 - today as i128;
    if ahead > NON_ZDR_MAX_ARM_DAYS as i128 {
        out.append(": `expires` = ");
        out.append(expires.as_str());
        out.append(
            " is more than 30 days out. A non-ZDR attestation may be dated at most 30 days ahead — a hard cap on how long the capability stays armed, not a reminder. Refusing to start.",
        );
        return Some((ConsentFault::TooFarAhead, out));
    }
    None
}

/// The consent chain of the no-ZDR protocol: dormant unless the pool holds a no-ZDR provider.
/// Where it does, one ordered check stops at the first gate that is not passed and reveals that
/// gate alone. Returns whether the pool is armed. `built` says whether the routing path is part of
/// this build; `today` is the day of the check.
pub fn validate_non_zdr_gates(
    cfg: &Config,
    built: bool,
    flag_passed: bool,
    env_present: bool,
    today: i64,
) -> (r: Result<bool, ConsentRefusal>)
    ensures
        match r {
            Ok(armed) => consent(cfg.providers@, built, flag_passed, env_present, today)
                == ConsentView::Armed(armed),
            Err(e) => consent(cfg.providers@, built, flag_passed, env_present, today)
                == ConsentView::Refused(
                match e.provider {
                    Some(i) => Some(i as int),
                    None => None,
                },
                e.fault,
            ) && says_consent_fault(
                e.message@,
                match e.provider {
                    Some(i) => Some(cfg.providers@[i as int]),
                    None => None,
                },
                e.fault,
            ),
        },
{
    let mut first: usize = 0;
    let n: usize = cfg.providers.len();
    while first < n && cfg.providers[first].privacy != Some(Privacy::NoZdr)
        invariant
            n == cfg.providers@.len(),
            first <= n,
            first_non_zdr(cfg.providers@, first as int) == first_non_zdr(cfg.providers@, 0),
        decreases n - first,
    {
        first = first + 1;
    }
    if first == n {
        return Ok(false);
    }
    if !built {
        let mut out: String = "provider ".to_owned();
        out.append(quoted(cfg.providers[first].slug.as_str()).as_str());
        out.append(
            " declares privacy = \"no-zdr\" — a pay-with-data endpoint whose provider may log or train on prompts — but this build compiled that routing path out. Rebuild with the `allow-non-zdr` Cargo feature to proceed.",
        );
        return Err(
            ConsentRefusal { provider: Some(first), fault: ConsentFault::NotBuilt, message: out },
        );
    }
    let mut i: usize = 0;
    while i < n
        invariant
            n == cfg.providers@.len(),
            i <= n,
            built,
            first_non_zdr(cfg.providers@, 0) is Some,
            first_consent_fault(cfg.providers@, today, i as int) == first_consent_fault(
                cfg.providers@,
                today,
                0,
            ),
        decreases n - i,
    {
        if cfg.providers[i].privacy == Some(Privacy::NoZdr) {
            if let Some((fault, message)) = provider_consent_fault(&cfg.providers[i], today) {
                return Err(ConsentRefusal { provider: Some(i), fault, message });
            }
        }
        i = i + 1;
    }
    if !env_present {
        return Err(
            ConsentRefusal {
                provider: None,
                fault: ConsentFault::NoEnv,
                message:
                    "the non-ZDR pool is configured and attested, but the per-session second factor is missing: set BLINDCODER_NON_ZDR_SESSION_OK=1 in the launching environment. A config file alone can never arm non-ZDR routing.".to_owned(),
            },
        );
    }
    if !flag_passed {
        return Err(
            ConsentRefusal {
                provider: None,
                fault: ConsentFault::NoFlag,
                message:
                    "non-ZDR routing is one deliberate act away: pass --route-non-zdr-this-run on this invocation to route to a non-ZDR endpoint for this run.".to_owned(),
            },
        );
    }
    Ok(true)
}

/// What the search for a provider at fault has shown of those it passed over.
proof fn lemma_first_consent_fault(ps: Seq<ProviderConfig>, today: i64, i: int)
    requires
        0 <= i <= ps.len(),
    ensures
        match first_consent_fault(ps, today, i) {
            Some(k) => i <= k < ps.len() && ps[k].privacy == Some(Privacy::NoZdr)
                && consent_fault(ps[k], today) is Some,
            None => forall|k: int|
                i <= k < ps.len() && (#[trigger] ps[k]).privacy == Some(Privacy::NoZdr)
                    ==> consent_fault(ps[k], today) is None,
        },
    decreases ps.len() - i,
{
    if i < ps.len() {
        lemma_first_consent_fault(ps, today, i + 1);
    }
}

/// What the search for a no-ZDR provider has shown of those it passed over.
pub proof fn lemma_first_non_zdr(ps: Seq<ProviderConfig>, i: int)
    requires
        0 <= i <= ps.len(),
    ensures
        match first_non_zdr(ps, i) {
            Some(k) => i <= k < ps.len() && ps[k].privacy == Some(Privacy::NoZdr),
            None => forall|k: int|
                i <= k < ps.len() ==> (#[trigger] ps[k]).privacy != Some(Privacy::NoZdr),
        },
    decreases ps.len() - i,
{
    if i < ps.len() {
        lemma_first_non_zdr(ps, i + 1);
    }
}

/// Without a no-ZDR provider the chain is dormant: nothing arms the pool, and nothing is refused.
pub proof fn lemma_chain_is_dormant(
    ps: Seq<ProviderConfig>,
    built: bool,
    flag_passed: bool,
    env_present: bool,
    today: i64,
)
    requires
        forall|k: int| 0 <= k < ps.len() ==> (#[trigger] ps[k]).privacy != Some(Privacy::NoZdr),
    ensures
        consent(ps, built, flag_passed, env_present, today) == ConsentView::Armed(false),
{
    lemma_first_non_zdr(ps, 0);
}

/// The pool is armed only by the conjunction of all gates: the build, every provider's exact and
/// current attestation, the environment and the flag.
pub proof fn lemma_armed_takes_every_gate(
    ps: Seq<ProviderConfig>,
    built: bool,
    flag_passed: bool,
    env_present: bool,
    today: i64,
)
    requires
        consent(ps, built, flag_passed, env_present, today) == ConsentView::Armed(true),
    ensures
        built && flag_passed && env_present,
        exists|k: int|
            0 <= k < ps.len() && (#[trigger] ps[k]).privacy == Some(Privacy::NoZdr),
        forall|k: int|
            0 <= k < ps.len() && (#[trigger] ps[k]).privacy == Some(Privacy::NoZdr) ==> {
                &&& attested_slugs(ps[k]) == model_slugs(ps[k])
                &&& config::owned_text(ps[k].expires) matches Some(t) && (dates::day_named(
                    t,
                ) matches Some(last) && today <= last <= today + NON_ZDR_MAX_ARM_DAYS)
            },
{
    lemma_first_non_zdr(ps, 0);
    lemma_first_consent_fault(ps, today, 0);
}

/// A refusal at the build or at a config gate is the same whatever the environment and the flag
/// are, so it cannot reveal them; and the environment and the flag are asked for only once every
/// earlier gate is passed.
pub proof fn lemma_gates_reveal_in_order(
    ps: Seq<ProviderConfig>,
    built: bool,
    flag_passed: bool,
    env_present: bool,
    other_flag: bool,
    other_env: bool,
    today: i64,
)
    ensures
        consent(ps, built, flag_passed, env_present, today) matches ConsentView::Refused(
            Some(i),
            fault,
        ) ==> consent(ps, built, other_flag, other_env, today) == ConsentView::Refused(
            Some(i),
            fault,
        ) && fault != ConsentFault::NoEnv && fault != ConsentFault::NoFlag,
        consent(ps, built, flag_passed, env_present, today) matches ConsentView::Refused(
            None,
            fault,
        ) ==> {
            &&& built
            &&& fault == ConsentFault::NoEnv || (fault == ConsentFault::NoFlag && env_present)
            &&& forall|k: int|
                0 <= k < ps.len() && (#[trigger] ps[k]).privacy == Some(Privacy::NoZdr)
                    ==> consent_fault(ps[k], today) is None
        },
{
    lemma_first_consent_fault(ps, today, 0);
}

/// On a build without the routing path nothing can arm the pool.
pub proof fn lemma_unbuilt_path_never_arms(
    ps: Seq<ProviderConfig>,
    flag_passed: bool,
    env_present: bool,
    today: i64,
)
    ensures
        consent(ps, false, flag_passed, env_present, today) != ConsentView::Armed(true),
{
}

/// A provider is eligible exactly where it declares a protocol, has an endpoint of it, holds consent
/// only where it may train, and holds the flags of its protocol alone, set where it has one.
pub proof fn lemma_what_makes_a_provider_eligible(p: ProviderConfig)
    requires
        p.attestations@.len() <= usize::MAX,
    ensures
        pool_fault(p) is None <==> (p.privacy matches Some(privacy) && privacy.admits(p.base_url@)
            && (privacy == Privacy::NoZdr || (p.expires is None
            && p.non_zdr_attested_models@.len() == 0)) && (forall|k: int|
            0 <= k < p.attestations@.len() ==> privacy == Privacy::Groq && (
            #[trigger] p.attestations@[k]).0@ == "groq_manual_steps_done"@) && (privacy
            == Privacy::Groq ==> named::value_of(p.attestations@, "groq_manual_steps_done"@)
            == Some(true))),
{
    if let Some(privacy) = p.privacy {
        lemma_no_flag_fault(p.attestations@, privacy, 0);
    }
}

/// No flag is at fault where each is the protocol's own.
proof fn lemma_no_flag_fault(flags: Seq<(String, bool)>, privacy: Privacy, i: int)
    requires
        0 <= i,
    ensures
        flag_fault(flags, privacy, i) is None <==> forall|k: int|
            i <= k < flags.len() ==> privacy == Privacy::Groq && (#[trigger] flags[k]).0@
                == "groq_manual_steps_done"@,
    decreases flags.len() - i,
{
    if i < flags.len() {
        lemma_no_flag_fault(flags, privacy, i + 1);
        let first = flags[i];
    }
}

/// The first thing that is missing is what a provider is refused for: the declaration, then the
/// endpoint, then consent in the wrong place.
pub proof fn lemma_faults_in_order(p: ProviderConfig)
    ensures
        p.privacy is None <==> pool_fault(p) == Some(PoolFault::Undeclared),
        p.privacy matches Some(privacy) ==> (!privacy.admits(p.base_url@) <==> pool_fault(p)
            == Some(PoolFault::WrongEndpoint)),
        p.privacy matches Some(privacy) ==> (privacy.admits(p.base_url@) && privacy
            != Privacy::NoZdr && (p.expires is Some || p.non_zdr_attested_models@.len() > 0)
            <==> pool_fault(p) == Some(PoolFault::MisplacedConsent)),
{
    if let Some(privacy) = p.privacy {
        lemma_flag_fault_kind(p.attestations@, privacy, 0);
    }
}

/// A fault of the flags is one of a flag.
proof fn lemma_flag_fault_kind(flags: Seq<(String, bool)>, privacy: Privacy, i: int)
    ensures
        flag_fault(flags, privacy, i) matches Some(f) ==> f is ForeignFlag || f is UnknownFlag,
    decreases flags.len() - i,
{
    if 0 <= i < flags.len() {
        lemma_flag_fault_kind(flags, privacy, i + 1);
    }
}

/// Consent lasts for the attested models, all of them and no others, up to its last day, which lies
/// at most thirty days ahead; whatever else holds, it is refused.
pub proof fn lemma_consent_of_a_provider(p: ProviderConfig, today: i64)
    ensures
        consent_fault(p, today) is None <==> p.non_zdr_attested_models@.len() > 0 && (forall|
            slug: Seq<char>,
        |
            attested_slugs(p).contains(slug) <==> #[trigger] model_slugs(p).contains(slug)) && (
        p.expires matches Some(t) && (dates::day_named(t@) matches Some(last) && today <= last
            <= today + 30)),
        consent_fault(p, today) == Some(ConsentFault::Expired) ==> (p.expires matches Some(t)
            && (dates::day_named(t@) matches Some(last) && last < today)),
        consent_fault(p, today) == Some(ConsentFault::TooFarAhead) ==> (p.expires matches Some(t)
            && (dates::day_named(t@) matches Some(last) && last > today + 30)),
        consent_fault(p, today) == Some(ConsentFault::NoExpiry) ==> p.expires is None,
        consent_fault(p, today) == Some(ConsentFault::BadExpiry) ==> (p.expires matches Some(t)
            && dates::day_named(t@) is None),
        consent_fault(p, today) == Some(ConsentFault::Unattested)
            <==> p.non_zdr_attested_models@.len() == 0,
        !(consent_fault(p, today) matches Some(f) && (f == ConsentFault::NotBuilt || f
            == ConsentFault::NoEnv || f == ConsentFault::NoFlag)),
{
    if forall|slug: Seq<char>|
        attested_slugs(p).contains(slug) <==> #[trigger] model_slugs(p).contains(slug) {
        assert(attested_slugs(p) =~= model_slugs(p));
    }
}

/// The slugs that consent speaks of are the configured ones.
pub proof fn lemma_slugs_are_the_configured_ones(p: ProviderConfig, k: int, slug: Seq<char>)
    ensures
        0 <= k < p.models@.len() ==> model_slugs(p).contains(p.models@[k].real_slug@),
        0 <= k < p.non_zdr_attested_models@.len() ==> attested_slugs(p).contains(
            p.non_zdr_attested_models@[k]@,
        ),
        model_slugs(p).contains(slug) ==> exists|i: int|
            0 <= i < p.models@.len() && (#[trigger] p.models@[i]).real_slug@ == slug,
        attested_slugs(p).contains(slug) ==> exists|i: int|
            0 <= i < p.non_zdr_attested_models@.len() && (
            #[trigger] p.non_zdr_attested_models@[i])@ == slug,
{
    let a = p.models@.map_values(|m: config::ModelConfig| m.real_slug@);
    let b = text::texts(p.non_zdr_attested_models@);
    if 0 <= k < p.models@.len() {
        assert(a[k] == p.models@[k].real_slug@);
    }
    if 0 <= k < p.non_zdr_attested_models@.len() {
        assert(b[k] == p.non_zdr_attested_models@[k]@);
    }
    if model_slugs(p).contains(slug) {
        let i = choose|i: int| 0 <= i < a.len() && a[i] == slug;
        assert(p.models@[i].real_slug@ == slug);
    }
    if attested_slugs(p).contains(slug) {
        let i = choose|i: int| 0 <= i < b.len() && b[i] == slug;
        assert(p.non_zdr_attested_models@[i]@ == slug);
    }
}

/// With every gate passed the pool is armed; with one not passed, the first of them is what is
/// asked for.
pub proof fn lemma_gates_open_together(
    ps: Seq<ProviderConfig>,
    built: bool,
    flag_passed: bool,
    env_present: bool,
    today: i64,
)
    requires
        exists|k: int| 0 <= k < ps.len() && (#[trigger] ps[k]).privacy == Some(Privacy::NoZdr),
    ensures
        ({
            let current = forall|k: int|
                0 <= k < ps.len() && (#[trigger] ps[k]).privacy == Some(Privacy::NoZdr)
                    ==> consent_fault(ps[k], today) is None;
            let c = consent(ps, built, flag_passed, env_present, today);
            &&& built && current && env_present && flag_passed ==> c == ConsentView::Armed(true)
            &&& built && current && env_present && !flag_passed ==> c == ConsentView::Refused(
                None,
                ConsentFault::NoFlag,
            )
            &&& built && current && !env_present ==> c == ConsentView::Refused(
                None,
                ConsentFault::NoEnv,
            )
            &&& built && !current ==> (c matches ConsentView::Refused(Some(i), fault) && 0 <= i
                < ps.len() && ps[i].privacy == Some(Privacy::NoZdr) && consent_fault(
                ps[i],
                today,
            ) == Some(fault))
            &&& !built ==> (c matches ConsentView::Refused(Some(i), fault) && 0 <= i < ps.len()
                && ps[i].privacy == Some(Privacy::NoZdr) && fault == ConsentFault::NotBuilt)
        }),
{
    lemma_first_non_zdr(ps, 0);
    lemma_first_consent_fault(ps, today, 0);
}

/// What a provider is refused for is said with its name in front.
pub proof fn lemma_refusals_name_the_provider(
    p: ProviderConfig,
    fault: PoolFault,
    t: Seq<char>,
    step: ConsentFault,
)
    requires
        says_consent_fault(t, Some(p), step),
    ensures
        text::begins_with(pool_fault_text(p, fault), "provider "@ + quoted_text(p.slug@)),
        step != ConsentFault::NoEnv && step != ConsentFault::NoFlag ==> text::begins_with(
            t,
            "provider "@ + quoted_text(p.slug@),
        ),
{
    let lead = "provider "@ + quoted_text(p.slug@);
    let whole = pool_fault_text(p, fault);
    assert(whole.subrange(0, lead.len() as int) =~= lead);
    if step != ConsentFault::NoEnv && step != ConsentFault::NoFlag {
        assert(t.subrange(0, lead.len() as int) =~= lead);
    }
}

/// A mismatch is told with the models that are not attested, and then with those that are attested
/// but not there.
pub proof fn lemma_mismatch_tells_both_sides(
    slug: Seq<char>,
    missing: Seq<Seq<char>>,
    extra: Seq<Seq<char>>,
)
    ensures
        text::occurs(
            mismatch_text(slug, missing, extra),
            quoted_list(missing) + "; attested but not among the provider's models: "@
                + quoted_list(extra),
        ),
{
    let t = mismatch_text(slug, missing, extra);
    let sides = quoted_list(missing) + "; attested but not among the provider's models: "@
        + quoted_list(extra);
    let at = ("provider "@ + slug
        + ": the non-ZDR model attestation must match this provider's models exactly, by `real_slug`. Unattested models: "@).len() as int;
    assert(t.subrange(at, at + sides.len()) =~= sides);
    assert(text::matches_at(t, at, sides));
}

} // verus!
