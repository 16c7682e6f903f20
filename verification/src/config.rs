//! The declarative surface: tuneables, provider records and the privacy protocols.
//!
//! Precedence is flag, then environment, then file, then default. Reading the file and the
//! environment is the program's part; the values arrive here as plain data. Paths follow the XDG
//! base-directory rules.

use vstd::prelude::*;

use crate::double::Double;
use crate::json::Json;
use crate::named::Named;
use crate::selector::Tuneables;
use crate::text;
use crate::text::{chars_of, char_match, has_suffix, same_text, string_of};

verus! {

/// Which shelf price feeds the cost bias: the weights of the input and the output price.
#[derive(Clone, Copy, Debug, PartialEq, Eq, Structural)]
pub struct CostBasis {
    pub input_weight: Double,
    pub output_weight: Double,
}

/// 0.70, as a double.
pub const SEVEN_TENTHS: u64 = 0x3FE6_6666_6666_6666;

/// 0.30, as a double.
pub const THREE_TENTHS: u64 = 0x3FD3_3333_3333_3333;

/// 0.4, as a double.
pub const FOUR_TENTHS: u64 = 0x3FD9_9999_9999_999A;

/// 0.5, as a double.
pub const HALF: u64 = 0x3FE0_0000_0000_0000;

/// 0.75, as a double.
pub const THREE_QUARTERS: u64 = 0x3FE8_0000_0000_0000;

/// 1, as a double.
pub const ONE: u64 = 0x3FF0_0000_0000_0000;

/// 2, as a double.
pub const TWO: u64 = 0x4000_0000_0000_0000;

/// 5, as a double.
pub const FIVE: u64 = 0x4014_0000_0000_0000;

/// 24, as a double.
pub const TWENTY_FOUR: u64 = 0x4038_0000_0000_0000;

/// 60, as a double.
pub const SIXTY: u64 = 0x404E_0000_0000_0000;

/// 90, as a double.
pub const NINETY: u64 = 0x4056_8000_0000_0000;

impl Default for CostBasis {
    /// Agentic context-resending makes input volume large, so the default blends 70:30.
    fn default() -> (r: CostBasis)
        ensures
            r.input_weight.bits == SEVEN_TENTHS,
            r.output_weight.bits == THREE_TENTHS,
    {
        CostBasis {
            input_weight: Double { bits: SEVEN_TENTHS },
            output_weight: Double { bits: THREE_TENTHS },
        }
    }
}

/// How much of each session is captured; each level holds what the one before it holds.
#[derive(Clone, Copy, Debug, PartialEq, Eq, Structural)]
pub enum CaptureLevel {
    /// Model, rating, cost and time only: no prompts or code on disk. The default privacy floor.
    Metadata,
    /// Parsed content projections too.
    Contents,
    /// The verbatim four-leg wire archive too.
    Replay,
}

impl CaptureLevel {
    /// The name of the level in config files and in the store.
    pub open spec fn name(self) -> Seq<char> {
        match self {
            CaptureLevel::Metadata => "metadata"@,
            CaptureLevel::Contents => "contents"@,
            CaptureLevel::Replay => "replay"@,
        }
    }

    /// The place of the level in the order of the levels.
    pub open spec fn depth(self) -> int {
        match self {
            CaptureLevel::Metadata => 0,
            CaptureLevel::Contents => 1,
            CaptureLevel::Replay => 2,
        }
    }

    /// The name of the level in config files and in the store.
    pub fn as_str(self) -> (r: &'static str)
        ensures
            r@ == self.name(),
    {
        match self {
            CaptureLevel::Metadata => "metadata",
            CaptureLevel::Contents => "contents",
            CaptureLevel::Replay => "replay",
        }
    }

    /// The level of a stored name; nothing where no level has it.
    pub fn from_name(s: &str) -> (r: Option<CaptureLevel>)
        ensures
            forall|k: CaptureLevel| (#[trigger] k.name()) == s@ <==> r == Some(k),
    {
        proof {
            reveal_strlit("metadata");
            assert("metadata"@.len() == 8 && "metadata"@[0] == 'm');
            reveal_strlit("contents");
            assert("contents"@.len() == 8 && "contents"@[0] == 'c');
            reveal_strlit("replay");
            assert("replay"@.len() == 6 && "replay"@[0] == 'r');
        }
        if same_text(s, "metadata") {
            Some(CaptureLevel::Metadata)
        } else if same_text(s, "contents") {
            Some(CaptureLevel::Contents)
        } else if same_text(s, "replay") {
            Some(CaptureLevel::Replay)
        } else {
            None
        }
    }

    /// Whether this level captures all that `floor` captures.
    pub fn at_least(self, floor: CaptureLevel) -> (r: bool)
        ensures
            r == (self.depth() >= floor.depth()),
    {
        match floor {
            CaptureLevel::Metadata => true,
            CaptureLevel::Contents => self != CaptureLevel::Metadata,
            CaptureLevel::Replay => self == CaptureLevel::Replay,
        }
    }
}

/// One model offered by a provider. `canonical_key` is the provider-neutral identity that the
/// selector learns on; `real_slug` is what the provider's API expects. A free model has no prices.
#[derive(Debug)]
pub struct ModelConfig {
    pub canonical_key: String,
    pub real_slug: String,
    pub input_per_mtok: Option<Double>,
    pub output_per_mtok: Option<Double>,
}

impl Default for ModelConfig {
    /// A model without names or prices.
    fn default() -> (r: ModelConfig)
        ensures
            r.canonical_key@ == Seq::<char>::empty(),
            r.real_slug@ == Seq::<char>::empty(),
            r.input_per_mtok is None,
            r.output_per_mtok is None,
    {
        ModelConfig {
            canonical_key: String::new(),
            real_slug: String::new(),
            input_per_mtok: None,
            output_per_mtok: None,
        }
    }
}

/// A backend provider. `key_env` names an environment variable that holds the API key.
/// `extra_headers` and `extra_body` are forwarded verbatim, which keeps the proxy provider-blind.
#[derive(Debug)]
pub struct ProviderConfig {
    pub slug: String,
    pub base_url: String,
    pub wire: String,
    pub key_env: Option<String>,
    /// The API key itself; the variable that `key_env` names takes precedence.
    pub api_key: Option<String>,
    /// Headers sent on every request, by name.
    pub extra_headers: Named<String>,
    /// Members merged into every request body, by name.
    pub extra_body: Named<Json>,
    /// The provider's privacy protocol; without one the provider is ineligible.
    pub privacy: Option<Privacy>,
    /// The attestation flags of the provider, by name.
    pub attestations: Named<bool>,
    /// The exact slugs of the models whose prompts may be trained on; for the no-ZDR protocol only.
    pub non_zdr_attested_models: Vec<String>,
    /// The last day, `YYYY-MM-DD`, of a no-ZDR attestation.
    pub expires: Option<String>,
    /// The models that the provider offers.
    pub models: Vec<ModelConfig>,
}

impl Default for ProviderConfig {
    /// A provider without a name, an endpoint or models.
    fn default() -> (r: ProviderConfig)
        ensures
            r.slug@ == Seq::<char>::empty(),
            r.base_url@ == Seq::<char>::empty(),
            r.wire@ == Seq::<char>::empty(),
            r.key_env is None,
            r.api_key is None,
            r.extra_headers@ == Seq::<(String, String)>::empty(),
            r.extra_body@ == Seq::<(String, Json)>::empty(),
            r.privacy is None,
            r.attestations@ == Seq::<(String, bool)>::empty(),
            r.non_zdr_attested_models@ == Seq::<String>::empty(),
            r.expires is None,
            r.models@ == Seq::<ModelConfig>::empty(),
    {
        ProviderConfig {
            slug: String::new(),
            base_url: String::new(),
            wire: String::new(),
            key_env: None,
            api_key: None,
            extra_headers: Named::new(),
            extra_body: Named::new(),
            privacy: None,
            attestations: Named::new(),
            non_zdr_attested_models: Vec::new(),
            expires: None,
            models: Vec::new(),
        }
    }
}

/// The wire format of a provider that names none.
pub fn default_wire() -> (r: String)
    ensures
        r@ == "openai"@,
{
    "openai".to_owned()
}

/// Which provider's privacy protocol applies. The mechanism differs per vendor, so each provider
/// is a variant of its own; declaring one is what makes a provider eligible.
#[derive(Clone, Copy, Debug, PartialEq, Eq, Structural)]
pub enum Privacy {
    /// Zero data retention asked for in every request body.
    OpenRouter,
    /// Zero data retention set up at the account; nothing is sent per request.
    Groq,
    /// No zero data retention: the endpoint may log or train on prompts.
    NoZdr,
}

/// `t` up to the first character of `stops`.
pub open spec fn before_any(t: Seq<char>, stops: Seq<char>) -> Seq<char>
    decreases t.len(),
{
    if t.len() == 0 || stops.contains(t[0]) {
        Seq::empty()
    } else {
        seq![t[0]] + before_any(t.skip(1), stops)
    }
}

/// What stands behind the last `c` in `t`; all of it where there is none.
pub open spec fn behind_last(t: Seq<char>, c: char) -> Seq<char>
    decreases t.len(),
{
    if t.len() == 0 || t.last() == c {
        Seq::empty()
    } else {
        behind_last(t.drop_last(), c).push(t.last())
    }
}

/// The characters that end the authority of a URL.
pub open spec fn authority_ends() -> Seq<char> {
    seq!['/', '?', '#', '\\']
}

/// What stands behind the scheme of a URL and its `://`; all of it where it has no scheme.
pub open spec fn behind_scheme(url: Seq<char>) -> Seq<char> {
    let scheme = before_any(url, authority_ends().push(':'));
    if text::begins_with(url.skip(scheme.len() as int), "://"@) {
        url.skip(scheme.len() as int + 3)
    } else {
        url
    }
}

/// The host of a `scheme://[user@]host[:port]/path` URL.
pub open spec fn url_host(url: Seq<char>) -> Seq<char> {
    let authority = before_any(behind_scheme(url), authority_ends());
    before_any(behind_last(authority, '@'), seq![':'])
}

/// Whether `host` is `want` or a subdomain of it.
pub open spec fn within_domain(host: Seq<char>, want: Seq<char>) -> bool {
    host == want || text::ends_with(host, seq!['.'] + want)
}

impl Privacy {
    /// The endpoint host that the protocol is bound to, if any.
    pub open spec fn host(self) -> Option<Seq<char>> {
        match self {
            Privacy::OpenRouter => Some("openrouter.ai"@),
            Privacy::Groq => Some("api.groq.com"@),
            Privacy::NoZdr => None,
        }
    }

    /// Whether `base_url` is an endpoint of this protocol.
    pub open spec fn admits(self, base_url: Seq<char>) -> bool {
        match self.host() {
            Some(want) => within_domain(url_host(base_url), want),
            None => true,
        }
    }

    /// The flag that attests the protocol's manual setup, if it has one.
    pub open spec fn flag(self) -> Option<Seq<char>> {
        match self {
            Privacy::Groq => Some("groq_manual_steps_done"@),
            _ => None,
        }
    }

    /// The protocol that owns an attestation flag, if one does.
    pub open spec fn owner(key: Seq<char>) -> Option<Privacy> {
        if Privacy::Groq.flag() == Some(key) {
            Some(Privacy::Groq)
        } else {
            None
        }
    }

    /// The endpoint host that this protocol is verified against. An account-level protocol does
    /// nothing on the wire, so it means something only for that provider's real endpoint.
    pub fn endpoint_host(self) -> (r: Option<&'static str>)
        ensures
            match r {
                Some(h) => self.host() == Some(h@),
                None => self.host() is None,
            },
    {
        match self {
            Privacy::OpenRouter => Some("openrouter.ai"),
            Privacy::Groq => Some("api.groq.com"),
            Privacy::NoZdr => None,
        }
    }

    /// Whether the host of `base_url` is this protocol's endpoint host or a subdomain of it. A
    /// protocol without a host binding accepts every endpoint.
    pub fn matches_endpoint(self, base_url: &str) -> (r: bool)
        ensures
            r == self.admits(base_url@),
    {
        match self.endpoint_host() {
            Some(want) => {
                let host: String = host_of(base_url);
                if same_text(host.as_str(), want) {
                    return true;
                }
                let mut dotted: String = String::new();
                dotted.push('.');
                dotted.append(want);
                proof {
                    assert(dotted@ =~= seq!['.'] + want@);
                }
                has_suffix(host.as_str(), dotted.as_str())
            },
            None => true,
        }
    }

    /// The manual setup that this protocol depends on and that cannot be seen on the wire.
    pub fn manual_steps(self) -> (r: Option<&'static str>)
        ensures
            match self {
                Privacy::Groq => r is Some && r->Some_0@
                    == "In the Groq console (console.groq.com), open Settings → Data Controls and enable Zero-Data-Retention for the account/API key you use here."@,
                _ => r is None,
            },
    {
        match self {
            Privacy::Groq => Some(
                "In the Groq console (console.groq.com), open Settings → Data Controls and enable Zero-Data-Retention for the account/API key you use here.",
            ),
            _ => None,
        }
    }

    /// The provider-specific flag that attests this protocol's manual setup, if it needs one.
    pub fn attestation_key(self) -> (r: Option<&'static str>)
        ensures
            match r {
                Some(k) => self.flag() == Some(k@),
                None => self.flag() is None,
            },
    {
        match self {
            Privacy::Groq => Some("groq_manual_steps_done"),
            _ => None,
        }
    }

    /// The key under which the no-ZDR protocol lists the attested models; no other has one.
    pub fn non_zdr_attestation_key(self) -> (r: Option<&'static str>)
        ensures
            match self {
                Privacy::NoZdr => r is Some && r->Some_0@ == "no_zdr_models_i_accept_training_on"@,
                _ => r is None,
            },
    {
        match self {
            Privacy::NoZdr => Some("no_zdr_models_i_accept_training_on"),
            _ => None,
        }
    }

    /// Which protocol, if any, owns the attestation flag `key`.
    pub fn for_attestation_key(key: &str) -> (r: Option<Privacy>)
        ensures
            r == Privacy::owner(key@),
            match r {
                Some(p) => p.flag() == Some(key@),
                None => forall|p: Privacy| (#[trigger] p.flag()) != Some(key@),
            },
    {
        if same_text(key, "groq_manual_steps_done") {
            Some(Privacy::Groq)
        } else {
            None
        }
    }
}

/// A flag belongs to one protocol at most, so finding an owner finds the owner.
pub proof fn lemma_flag_owner(a: Privacy, b: Privacy)
    requires
        a.flag() is Some,
        a.flag() == b.flag(),
    ensures
        a == b,
{
}

/// Cutting off before a stop character keeps a prefix.
proof fn lemma_before_any(t: Seq<char>, stops: Seq<char>, k: int)
    requires
        0 <= k <= t.len(),
        forall|i: int| 0 <= i < k ==> !stops.contains(#[trigger] t[i]),
        k < t.len() ==> stops.contains(t[k]),
    ensures
        before_any(t, stops) == t.take(k),
    decreases k,
{
    if k > 0 {
        assert(t[0] == t.take(k)[0]);
        assert forall|i: int| 0 <= i < k - 1 implies !stops.contains(#[trigger] t.skip(1)[i]) by {
            assert(t.skip(1)[i] == t[i + 1]);
        }
        lemma_before_any(t.skip(1), stops, k - 1);
        assert(seq![t[0]] + t.skip(1).take(k - 1) =~= t.take(k));
    } else {
        assert(t.take(0) =~= Seq::empty());
    }
}

/// How far a text goes before the first of the given characters.
fn stop_at(t: &[char], from: usize, to: usize, stops: &[char]) -> (r: usize)
    requires
        from <= to <= t@.len(),
    ensures
        from <= r <= to,
        t@.subrange(from as int, r as int) == before_any(
            t@.subrange(from as int, to as int),
            stops@,
        ),
{
    let ghost whole = t@.subrange(from as int, to as int);
    let mut at: usize = from;
    while at < to
        invariant
            from <= at <= to <= t@.len(),
            whole == t@.subrange(from as int, to as int),
            forall|i: int| 0 <= i < at - from ==> !stops@.contains(#[trigger] whole[i]),
        decreases to - at,
    {
        let mut k: usize = 0;
        while k < stops.len()
            invariant
                from <= at < to <= t@.len(),
                whole == t@.subrange(from as int, to as int),
                k <= stops@.len(),
                forall|i: int| 0 <= i < at - from ==> !stops@.contains(#[trigger] whole[i]),
                forall|j: int| 0 <= j < k ==> stops@[j] != t@[at as int],
            decreases stops@.len() - k,
        {
            if stops[k] == t[at] {
                proof {
                    assert(whole[at - from] == stops@[k as int]);
                    lemma_before_any(whole, stops@, at - from);
                    assert(whole.take(at - from) =~= t@.subrange(from as int, at as int));
                }
                return at;
            }
            k = k + 1;
        }
        proof {
            assert(whole[at - from] == t@[at as int]);
        }
        at = at + 1;
    }
    proof {
        lemma_before_any(whole, stops@, to - from);
        assert(whole.take(to - from) =~= whole);
    }
    to
}

/// Where a URL goes on behind its scheme.
fn skip_scheme(t: &[char]) -> (r: usize)
    ensures
        r <= t@.len(),
        t@.skip(r as int) == behind_scheme(t@),
{
    let ends: Vec<char> = vec!['/', '?', '#', '\\', ':'];
    let mark: Vec<char> = chars_of("://");
    proof {
        reveal_strlit("://");
        assert(ends@ =~= authority_ends().push(':'));
        assert(t@.subrange(0, t@.len() as int) =~= t@);
        assert(t@.skip(0) =~= t@);
    }
    let at: usize = stop_at(t, 0, t.len(), &ends);
    let ghost rest = t@.skip(at as int);
    proof {
        assert(before_any(t@, ends@).len() == at);
        if at + 3 <= t@.len() {
            assert(t@.subrange(at as int, at + 3) =~= rest.subrange(0, 3));
        }
    }
    if char_match(t, at, &mark) {
        at + 3
    } else {
        0
    }
}

/// Where the text from `from` to `to` goes on behind its last `c`.
fn skip_past_last(t: &[char], from: usize, to: usize, c: char) -> (r: usize)
    requires
        from <= to <= t@.len(),
    ensures
        from <= r <= to,
        t@.subrange(r as int, to as int) == behind_last(t@.subrange(from as int, to as int), c),
{
    let ghost whole = t@.subrange(from as int, to as int);
    let mut at: usize = to;
    while at > from && t[at - 1] != c
        invariant
            from <= at <= to <= t@.len(),
            forall|i: int| at <= i < to ==> t@[i] != c,
        decreases at,
    {
        at = at - 1;
    }
    proof {
        assert forall|i: int| at - from <= i < whole.len() implies whole[i] != c by {
            assert(whole[i] == t@[from + i]);
        }
        if at > from {
            assert(whole[at - from - 1] == t@[at - 1]);
        }
        lemma_behind_last(whole, c, at - from);
        assert(whole.skip(at - from) =~= t@.subrange(at as int, to as int));
    }
    at
}

/// What stands behind the last occurrence, said directly.
proof fn lemma_behind_last(t: Seq<char>, c: char, from: int)
    requires
        0 <= from <= t.len(),
        from > 0 ==> t[from - 1] == c,
        forall|i: int| from <= i < t.len() ==> t[i] != c,
    ensures
        behind_last(t, c) == t.skip(from),
    decreases t.len(),
{
    if from < t.len() {
        assert forall|i: int| from <= i < t.drop_last().len() implies t.drop_last()[i] != c by {
            assert(t.drop_last()[i] == t[i]);
        }
        lemma_behind_last(t.drop_last(), c, from);
        assert(t.drop_last().skip(from).push(t.last()) =~= t.skip(from));
    } else {
        assert(t.skip(from) =~= Seq::empty());
    }
}

/// The host of a `scheme://[user@]host[:port]/path` URL.
pub fn host_of(url: &str) -> (r: String)
    ensures
        r@ == url_host(url@),
{
    let t: Vec<char> = chars_of(url);
    let from: usize = skip_scheme(&t);
    proof {
        assert(t@.subrange(from as int, t@.len() as int) =~= t@.skip(from as int));
    }
    let ends: Vec<char> = vec!['/', '?', '#', '\\'];
    let colon: Vec<char> = vec![':'];
    proof {
        assert(ends@ =~= authority_ends());
        assert(colon@ =~= seq![':']);
    }
    let to: usize = stop_at(&t, from, t.len(), &ends);
    let host: usize = skip_past_last(&t, from, to, '@');
    let end: usize = stop_at(&t, host, to, &colon);
    string_of(&t, host, end)
}

/// Whoever stands in front of the host, and whatever stands behind it, has no say in it: a URL
/// names the host between its last `@` and its port or path.
pub proof fn lemma_host_is_behind_the_user(
    scheme: Seq<char>,
    user: Seq<char>,
    host: Seq<char>,
    tail: Seq<char>,
)
    requires
        forall|i: int|
            0 <= i < scheme.len() ==> !authority_ends().push(':').contains(#[trigger] scheme[i]),
        forall|i: int| 0 <= i < user.len() ==> !authority_ends().contains(#[trigger] user[i]),
        forall|i: int|
            0 <= i < host.len() ==> !authority_ends().contains(#[trigger] host[i]) && host[i] != '@'
                && host[i] != ':',
        tail.len() > 0 ==> authority_ends().contains(tail[0]),
    ensures
        url_host(scheme + "://"@ + user + seq!['@'] + host + tail) == host,
        url_host(scheme + "://"@ + host + tail) == host,
{
    reveal_strlit("://");
    let ends = authority_ends();
    assert(ends.push(':')[4] == ':');
    assert(ends[0] == '/' && ends[1] == '?' && ends[2] == '#' && ends[3] == '\\');
    assert(!ends.contains('@') && !ends.contains(':')) by {
        assert(ends.len() == 4);
    }
    lemma_scheme_is_skipped(scheme, user + seq!['@'] + host + tail);
    lemma_scheme_is_skipped(scheme, host + tail);
    let long = user + seq!['@'] + host;
    assert(scheme + "://"@ + user + seq!['@'] + host + tail =~= scheme + "://"@ + (user + seq!['@']
        + host + tail));
    assert(scheme + "://"@ + host + tail =~= scheme + "://"@ + (host + tail));
    lemma_before_any(long + tail, ends, long.len() as int);
    assert((long + tail).take(long.len() as int) =~= long);
    lemma_before_any(host + tail, ends, host.len() as int);
    assert((host + tail).take(host.len() as int) =~= host);
    lemma_behind_last(long, '@', user.len() as int + 1);
    assert(long.skip(user.len() as int + 1) =~= host);
    lemma_behind_last(host, '@', 0);
    assert(host.skip(0) =~= host);
    assert forall|i: int| 0 <= i < host.len() implies !seq![':'].contains(#[trigger] host[i]) by {}
    lemma_before_any(host, seq![':'], host.len() as int);
    assert(host.take(host.len() as int) =~= host);
}

/// A scheme and its `://` are skipped.
proof fn lemma_scheme_is_skipped(scheme: Seq<char>, rest: Seq<char>)
    requires
        forall|i: int|
            0 <= i < scheme.len() ==> !authority_ends().push(':').contains(#[trigger] scheme[i]),
    ensures
        behind_scheme(scheme + "://"@ + rest) == rest,
{
    reveal_strlit("://");
    let url = scheme + "://"@ + rest;
    let stops = authority_ends().push(':');
    let n = scheme.len() as int;
    assert(stops[4] == ':');
    assert forall|i: int| 0 <= i < n implies !stops.contains(#[trigger] url[i]) by {
        assert(url[i] == scheme[i]);
    }
    assert(url[n] == ':');
    lemma_before_any(url, stops, n);
    assert(url.skip(n).subrange(0, 3) =~= "://"@);
    assert(url.skip(n + 3) =~= rest);
}

/// The full application config. A setting that the file leaves out has its default.
#[derive(Debug)]
pub struct Config {
    pub cost_sensitivity: Double,
    pub cost_basis: CostBasis,
    pub provider_pooling: Double,
    pub difficulty_credit: Double,
    pub rating_half_life_days: Double,
    pub exploration: Double,
    pub score_spread: Double,
    /// How many standard deviations wide the pruning interval is; higher prunes less.
    pub prune_confidence: Double,
    /// How much failed sessions count in the fold; 0 ignores them.
    pub failure_sensitivity: Double,
    pub track_market: bool,
    pub price_refresh_interval_hours: Double,
    /// Per-session spend kill-switch in dollars; 0 disables it.
    pub max_session_cost_usd: Double,
    /// For how many days a hand-maintained policy entry counts as fresh.
    pub curated_policy_max_age_days: Double,
    /// Local address that the proxy listens on.
    pub proxy_addr: String,
    /// How much of each session to capture.
    pub capture_level: CaptureLevel,
    pub providers: Vec<ProviderConfig>,
}

impl Default for Config {
    /// The pinned defaults, with no providers.
    fn default() -> (r: Config)
        ensures
            r.is_default(),
    {
        Config {
            cost_sensitivity: Double { bits: HALF },
            cost_basis: CostBasis::default(),
            provider_pooling: Double { bits: THREE_TENTHS },
            difficulty_credit: Double { bits: THREE_QUARTERS },
            rating_half_life_days: Double { bits: SIXTY },
            exploration: Double { bits: FOUR_TENTHS },
            score_spread: Double { bits: TWO },
            prune_confidence: Double { bits: TWO },
            failure_sensitivity: Double { bits: ONE },
            track_market: false,
            price_refresh_interval_hours: Double { bits: TWENTY_FOUR },
            max_session_cost_usd: Double { bits: FIVE },
            curated_policy_max_age_days: Double { bits: NINETY },
            proxy_addr: "127.0.0.1:8787".to_owned(),
            capture_level: CaptureLevel::Metadata,
            providers: Vec::new(),
        }
    }
}

/// The settings that the environment gives, each where its variable holds a number.
#[derive(Clone, Copy, Debug)]
pub struct EnvOverlay {
    pub cost_sensitivity: Option<Double>,
    pub exploration: Option<Double>,
    pub max_session_cost_usd: Option<Double>,
    pub rating_half_life_days: Option<Double>,
}

/// The overlaid value where there is one, else the value below it.
pub open spec fn overlaid(above: Option<Double>, below: Double) -> Double {
    match above {
        Some(v) => v,
        None => below,
    }
}

impl Config {
    /// Whether every setting has its pinned default and there are no providers.
    pub open spec fn is_default(self) -> bool {
        &&& self.cost_sensitivity.bits == HALF
        &&& self.cost_basis.input_weight.bits == SEVEN_TENTHS
        &&& self.cost_basis.output_weight.bits == THREE_TENTHS
        &&& self.provider_pooling.bits == THREE_TENTHS
        &&& self.difficulty_credit.bits == THREE_QUARTERS
        &&& self.rating_half_life_days.bits == SIXTY
        &&& self.exploration.bits == FOUR_TENTHS
        &&& self.score_spread.bits == TWO
        &&& self.prune_confidence.bits == TWO
        &&& self.failure_sensitivity.bits == ONE
        &&& !self.track_market
        &&& self.price_refresh_interval_hours.bits == TWENTY_FOUR
        &&& self.max_session_cost_usd.bits == FIVE
        &&& self.curated_policy_max_age_days.bits == NINETY
        &&& self.proxy_addr@ == "127.0.0.1:8787"@
        &&& self.capture_level == CaptureLevel::Metadata
        &&& self.providers@ == Seq::<ProviderConfig>::empty()
    }

    /// This config with the environment's settings on top.
    pub open spec fn under(self, env: EnvOverlay) -> Config {
        Config {
            cost_sensitivity: overlaid(env.cost_sensitivity, self.cost_sensitivity),
            exploration: overlaid(env.exploration, self.exploration),
            max_session_cost_usd: overlaid(env.max_session_cost_usd, self.max_session_cost_usd),
            rating_half_life_days: overlaid(env.rating_half_life_days, self.rating_half_life_days),
            ..self
        }
    }

    /// The effective config: the file's, or the defaults where there is no file, with the
    /// environment on top.
    pub fn load(file: Option<Config>, env: &EnvOverlay) -> (r: Config)
        ensures
            match file {
                Some(c) => r == c.under(*env),
                None => exists|c: Config| #[trigger] c.is_default() && r == c.under(*env),
            },
    {
        let mut cfg: Config = match file {
            Some(c) => c,
            None => Config::default(),
        };
        cfg.apply_env(env);
        cfg
    }

    /// Lays the environment's settings over the config; a setting it does not give stays.
    pub fn apply_env(&mut self, env: &EnvOverlay)
        ensures
            *final(self) == old(self).under(*env),
    {
        if let Some(v) = env.cost_sensitivity {
            self.cost_sensitivity = v;
        }
        if let Some(v) = env.exploration {
            self.exploration = v;
        }
        if let Some(v) = env.max_session_cost_usd {
            self.max_session_cost_usd = v;
        }
        if let Some(v) = env.rating_half_life_days {
            self.rating_half_life_days = v;
        }
    }

    /// The settings that the selector reads.
    pub fn tuneables(&self) -> (r: Tuneables)
        ensures
            r.cost_sensitivity == self.cost_sensitivity,
            r.difficulty_credit == self.difficulty_credit,
            r.rating_half_life_days == self.rating_half_life_days,
            r.exploration == self.exploration,
            r.score_spread == self.score_spread,
            r.prune_confidence == self.prune_confidence,
            r.failure_sensitivity == self.failure_sensitivity,
    {
        Tuneables {
            cost_sensitivity: self.cost_sensitivity,
            difficulty_credit: self.difficulty_credit,
            rating_half_life_days: self.rating_half_life_days,
            exploration: self.exploration,
            score_spread: self.score_spread,
            prune_confidence: self.prune_confidence,
            failure_sensitivity: self.failure_sensitivity,
        }
    }
}

/// The environment has the last word, and laying it on twice changes nothing more.
pub proof fn lemma_env_overlays_once(cfg: Config, env: EnvOverlay)
    ensures
        cfg.under(env).under(env) == cfg.under(env),
        env.cost_sensitivity matches Some(v) ==> cfg.under(env).cost_sensitivity == v,
        env.exploration matches Some(v) ==> cfg.under(env).exploration == v,
        env.max_session_cost_usd matches Some(v) ==> cfg.under(env).max_session_cost_usd == v,
        env.rating_half_life_days matches Some(v) ==> cfg.under(env).rating_half_life_days == v,
{
}

/// `part` below the directory `base`.
pub open spec fn below_dir(base: Seq<char>, part: Seq<char>) -> Seq<char> {
    if base.len() == 0 || base.last() == '/' {
        base + part
    } else {
        base + seq!['/'] + part
    }
}

/// The base directory: the XDG variable where it is set and not empty, else `suffix` below home.
pub open spec fn base_dir(
    xdg: Option<Seq<char>>,
    home: Option<Seq<char>>,
    suffix: Seq<char>,
) -> Option<Seq<char>> {
    match xdg {
        Some(v) if v.len() > 0 => Some(v),
        _ => match home {
            Some(h) => Some(below_dir(h, suffix)),
            None => None,
        },
    }
}

/// The text of an optional string.
pub open spec fn text_of(s: Option<&str>) -> Option<Seq<char>> {
    match s {
        Some(t) => Some(t@),
        None => None,
    }
}

/// The text of an optional owned string.
pub open spec fn owned_text(s: Option<String>) -> Option<Seq<char>> {
    match s {
        Some(t) => Some(t@),
        None => None,
    }
}

/// `part` below the directory `base`.
pub fn join_path(base: &str, part: &str) -> (r: String)
    ensures
        r@ == below_dir(base@, part@),
{
    let t: Vec<char> = chars_of(base);
    let mut out: String = base.to_owned();
    if t.len() > 0 && t[t.len() - 1] != '/' {
        out.push('/');
    }
    out.append(part);
    proof {
        assert(base@ + seq!['/'] =~= base@.push('/'));
    }
    out
}

/// The base directory: the XDG variable where it is set and not empty, else `suffix` below home.
pub fn xdg_dir(xdg: Option<&str>, home: Option<&str>, suffix: &str) -> (r: Option<String>)
    ensures
        owned_text(r) == base_dir(text_of(xdg), text_of(home), suffix@),
{
    if let Some(v) = xdg {
        if chars_of(v).len() > 0 {
            return Some(v.to_owned());
        }
    }
    match home {
        Some(h) => Some(join_path(h, suffix)),
        None => None,
    }
}

/// `$XDG_CONFIG_HOME/blindcoder/config.toml`, falling back to `$HOME/.config/...`.
pub fn default_config_path(xdg_config_home: Option<&str>, home: Option<&str>) -> (r: Option<String>)
    ensures
        owned_text(r) == (match base_dir(text_of(xdg_config_home), text_of(home), ".config"@) {
            Some(d) => Some(below_dir(below_dir(d, "blindcoder"@), "config.toml"@)),
            None => None,
        }),
{
    match xdg_dir(xdg_config_home, home, ".config") {
        Some(d) => Some(join_path(join_path(d.as_str(), "blindcoder").as_str(), "config.toml")),
        None => None,
    }
}

/// `$XDG_DATA_HOME/blindcoder`, falling back to `$HOME/.local/share/...`. The store lives here.
pub fn default_data_dir(xdg_data_home: Option<&str>, home: Option<&str>) -> (r: Option<String>)
    ensures
        owned_text(r) == (match base_dir(text_of(xdg_data_home), text_of(home), ".local/share"@) {
            Some(d) => Some(below_dir(d, "blindcoder"@)),
            None => None,
        }),
{
    match xdg_dir(xdg_data_home, home, ".local/share") {
        Some(d) => Some(join_path(d.as_str(), "blindcoder")),
        None => None,
    }
}

/// `$XDG_STATE_HOME/blindcoder`, falling back to `$HOME/.local/state/...`. Wire archives live here.
pub fn default_state_dir(xdg_state_home: Option<&str>, home: Option<&str>) -> (r: Option<String>)
    ensures
        owned_text(r) == (match base_dir(text_of(xdg_state_home), text_of(home), ".local/state"@) {
            Some(d) => Some(below_dir(d, "blindcoder"@)),
            None => None,
        }),
{
    match xdg_dir(xdg_state_home, home, ".local/state") {
        Some(d) => Some(join_path(d.as_str(), "blindcoder")),
        None => None,
    }
}

/// A port is no part of the host.
pub proof fn lemma_port_is_no_host(
    scheme: Seq<char>,
    host: Seq<char>,
    port: Seq<char>,
    tail: Seq<char>,
)
    requires
        forall|i: int|
            0 <= i < scheme.len() ==> scheme[i] != '/' && scheme[i] != '?' && scheme[i] != '#'
                && scheme[i] != '\\' && (#[trigger] scheme[i]) != ':',
        forall|i: int|
            0 <= i < host.len() ==> host[i] != '/' && host[i] != '?' && host[i] != '#' && host[i]
                != '\\' && host[i] != '@' && (#[trigger] host[i]) != ':',
        forall|i: int| 0 <= i < port.len() ==> text::is_digit(#[trigger] port[i]),
        tail.len() > 0 ==> tail[0] == '/' || tail[0] == '?' || tail[0] == '#',
    ensures
        url_host(scheme + "://"@ + host + seq![':'] + port + tail) == host,
        url_host(scheme + "://"@ + host + tail) == host,
{
    let ends = authority_ends();
    assert(ends.len() == 4);
    assert(ends[0] == '/' && ends[1] == '?' && ends[2] == '#' && ends[3] == '\\');
    assert forall|i: int| 0 <= i < scheme.len() implies !ends.push(':').contains(
        #[trigger] scheme[i],
    ) by {}
    assert forall|i: int| 0 <= i < host.len() implies !ends.contains(#[trigger] host[i]) by {}
    lemma_host_is_behind_the_user(scheme, Seq::empty(), host, tail);
    let named = host + seq![':'] + port;
    assert(scheme + "://"@ + host + seq![':'] + port + tail =~= scheme + "://"@ + (named + tail));
    lemma_scheme_is_skipped(scheme, named + tail);
    assert forall|i: int| 0 <= i < named.len() implies !ends.contains(#[trigger] (named + tail)[i])
        && named[i] != '@' by {
        if i < host.len() {
            assert((named + tail)[i] == host[i]);
        } else if i > host.len() {
            assert((named + tail)[i] == port[i - host.len() - 1]);
            assert(text::is_digit(port[i - host.len() - 1]));
        }
    }
    lemma_before_any(named + tail, ends, named.len() as int);
    assert((named + tail).take(named.len() as int) =~= named);
    lemma_behind_last(named, '@', 0);
    assert(named.skip(0) =~= named);
    assert(seq![':'][0] == ':');
    assert forall|i: int| 0 <= i < host.len() implies !seq![':'].contains(#[trigger] named[i]) by {
        assert(named[i] == host[i]);
    }
    lemma_before_any(named, seq![':'], host.len() as int);
    assert(named.take(host.len() as int) =~= host);
}

/// A host lies within a domain where it is the domain, or the domain stands behind a dot in it.
pub proof fn lemma_domain_stands_behind_a_dot(front: Seq<char>, want: Seq<char>, host: Seq<char>)
    ensures
        within_domain(front + want, want) <==> front.len() == 0 || front.last() == '.',
        within_domain(host, want) ==> host.len() >= want.len() && host.skip(
            host.len() - want.len(),
        ) == want,
{
    let whole = front + want;
    let tail = seq!['.'] + want;
    if front.len() == 0 {
        assert(whole =~= want);
    } else {
        assert(whole.len() != want.len());
        let cut = whole.subrange(front.len() - 1, front.len() - 1 + tail.len());
        assert(cut[0] == front.last());
        if front.last() == '.' {
            assert(cut =~= tail);
        }
    }
    if within_domain(host, want) {
        if host == want {
            assert(host.skip(0) =~= want);
        } else {
            let at = host.len() - tail.len();
            let cut = host.subrange(at, at + tail.len());
            assert(cut == tail);
            assert forall|i: int| 0 <= i < want.len() implies host.skip(at + 1)[i] == want[i] by {
                assert(cut[i + 1] == tail[i + 1]);
            }
            assert(host.skip(at + 1) =~= want);
        }
    }
}

/// Two protocols are each bound to their own service's domain, and the third to none.
pub proof fn lemma_endpoints_of_protocols(front: Seq<char>, tail: Seq<char>, url: Seq<char>)
    requires
        front.len() > 0 ==> front.last() == '.',
        forall|i: int|
            0 <= i < front.len() ==> front[i] != '/' && front[i] != '?' && front[i] != '#'
                && front[i] != '\\' && front[i] != '@' && (#[trigger] front[i]) != ':',
        tail.len() > 0 ==> tail[0] == '/' || tail[0] == '?' || tail[0] == '#',
    ensures
        Privacy::OpenRouter.admits("https"@ + "://"@ + (front + "openrouter.ai"@) + tail),
        Privacy::Groq.admits("https"@ + "://"@ + (front + "api.groq.com"@) + tail),
        Privacy::NoZdr.admits(url),
        Privacy::OpenRouter.admits(url) ==> text::ends_with(url_host(url), "openrouter.ai"@),
        Privacy::Groq.admits(url) ==> text::ends_with(url_host(url), "api.groq.com"@),
{
    reveal_strlit("https");
    reveal_strlit("openrouter.ai");
    reveal_strlit("api.groq.com");
    assert forall|i: int| 0 <= i < "https"@.len() implies "https"@[i] != '/' && "https"@[i] != '?'
        && "https"@[i] != '#' && "https"@[i] != '\\' && (#[trigger] "https"@[i]) != ':' by {}
    let a = front + "openrouter.ai"@;
    let b = front + "api.groq.com"@;
    assert forall|i: int| 0 <= i < a.len() implies a[i] != '/' && a[i] != '?' && a[i] != '#' && a[i]
        != '\\' && a[i] != '@' && (#[trigger] a[i]) != ':' by {
        if i < front.len() {
            assert(a[i] == front[i]);
        }
    }
    assert forall|i: int| 0 <= i < b.len() implies b[i] != '/' && b[i] != '?' && b[i] != '#' && b[i]
        != '\\' && b[i] != '@' && (#[trigger] b[i]) != ':' by {
        if i < front.len() {
            assert(b[i] == front[i]);
        }
    }
    lemma_port_is_no_host("https"@, a, Seq::empty(), tail);
    lemma_port_is_no_host("https"@, b, Seq::empty(), tail);
    lemma_domain_stands_behind_a_dot(front, "openrouter.ai"@, url_host(url));
    lemma_domain_stands_behind_a_dot(front, "api.groq.com"@, url_host(url));
    let host = url_host(url);
    if Privacy::OpenRouter.admits(url) {
        assert(host.skip(host.len() - 13) =~= host.subrange(host.len() - 13, host.len() as int));
    }
    if Privacy::Groq.admits(url) {
        assert(host.skip(host.len() - 12) =~= host.subrange(host.len() - 12, host.len() as int));
    }
}

/// A setting that the environment leaves out, and every setting that it does not reach, is the
/// file's.
pub proof fn lemma_env_leaves_the_rest(cfg: Config, env: EnvOverlay)
    ensures
        ({
            let after = cfg.under(env);
            &&& env.cost_sensitivity is None ==> after.cost_sensitivity == cfg.cost_sensitivity
            &&& env.exploration is None ==> after.exploration == cfg.exploration
            &&& env.max_session_cost_usd is None ==> after.max_session_cost_usd
                == cfg.max_session_cost_usd
            &&& env.rating_half_life_days is None ==> after.rating_half_life_days
                == cfg.rating_half_life_days
            &&& after.cost_basis == cfg.cost_basis
            &&& after.provider_pooling == cfg.provider_pooling
            &&& after.difficulty_credit == cfg.difficulty_credit
            &&& after.score_spread == cfg.score_spread
            &&& after.prune_confidence == cfg.prune_confidence
            &&& after.failure_sensitivity == cfg.failure_sensitivity
            &&& after.track_market == cfg.track_market
            &&& after.price_refresh_interval_hours == cfg.price_refresh_interval_hours
            &&& after.curated_policy_max_age_days == cfg.curated_policy_max_age_days
            &&& after.proxy_addr == cfg.proxy_addr
            &&& after.capture_level == cfg.capture_level
            &&& after.providers == cfg.providers
        }),
{
}

/// A path below a directory has the directory in front, the part behind it, and a slash between
/// them.
pub proof fn lemma_part_stands_below_its_base(base: Seq<char>, part: Seq<char>)
    ensures
        ({
            let path = below_dir(base, part);
            let seam = path.len() - part.len();
            &&& seam >= base.len()
            &&& path.take(base.len() as int) == base
            &&& path.skip(seam) == part
            &&& base.len() > 0 ==> path[seam - 1] == '/'
            &&& base.len() > 0 && base.last() == '/' ==> path == base + part
            &&& base.len() > 0 && base.last() != '/' ==> seam == base.len() + 1
            &&& base.len() == 0 ==> path == part
        }),
{
    let path = below_dir(base, part);
    assert(path.take(base.len() as int) =~= base);
    assert(path.skip(path.len() - part.len()) =~= part);
    if base.len() == 0 {
        assert(path =~= part);
    }
}

/// The base directory is the variable's wherever that names one; an empty variable counts as unset.
pub proof fn lemma_variable_comes_before_home(
    xdg: Seq<char>,
    home: Option<Seq<char>>,
    suffix: Seq<char>,
)
    ensures
        xdg.len() > 0 ==> base_dir(Some(xdg), home, suffix) == Some(xdg),
        xdg.len() == 0 ==> base_dir(Some(xdg), home, suffix) == base_dir(None, home, suffix),
        base_dir(None, None, suffix) is None,
        home matches Some(h) ==> (base_dir(None, home, suffix) matches Some(dir)
            && text::ends_with(dir, suffix) && text::begins_with(dir, h)),
{
    if let Some(h) = home {
        let dir = below_dir(h, suffix);
        lemma_part_stands_below_its_base(h, suffix);
        let at = dir.len() - suffix.len();
        assert(dir.subrange(at, at + suffix.len()) =~= dir.skip(at));
        assert(dir.subrange(0, h.len() as int) =~= dir.take(h.len() as int));
    }
}

/// Each level captures more than the one before it, and no two share a name.
pub proof fn lemma_levels_are_apart(a: CaptureLevel, b: CaptureLevel)
    ensures
        CaptureLevel::Metadata.depth() < CaptureLevel::Contents.depth()
            < CaptureLevel::Replay.depth(),
        a.depth() == b.depth() ==> a == b,
        a.name() == b.name() ==> a == b,
{
    reveal_strlit("metadata");
    reveal_strlit("contents");
    reveal_strlit("replay");
    assert("metadata"@[0] == 'm' && "contents"@[0] == 'c' && "replay"@[0] == 'r');
}

} // verus!
