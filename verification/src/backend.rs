//! The seam between the router and the transport: what a session is pointed at, what it reports
//! and how it ends.

use vstd::prelude::*;

use crate::config::Privacy;
use crate::double::Double;
use crate::json;
use crate::json::{Json, JsonView};
use crate::rewrite;
use crate::text::same_text;

verus! {

/// The usage that one response reports.
#[derive(Clone, Copy, Debug, PartialEq, Eq, Structural)]
pub struct UsageSnapshot {
    pub prompt_tokens: u64,
    pub completion_tokens: u64,
    /// Prompt tokens that the provider served from its cache: part of `prompt_tokens`.
    pub cached_prompt_tokens: u64,
    /// The provider-reported cost in dollars, where there is one.
    pub cost_so_far: Option<Double>,
}

/// What a session has used so far, summed over its responses.
#[derive(Clone, Copy, Debug, PartialEq, Eq, Structural)]
pub struct Totals {
    pub prompt_tokens: u64,
    pub completion_tokens: u64,
    pub cached_prompt_tokens: u64,
    /// The provider-reported cost in billionths of a dollar, once a response has reported one.
    pub cost_nano: Option<u64>,
}

/// A lifecycle event of a session.
#[derive(Clone, Copy, Debug, PartialEq, Eq, Structural)]
pub enum SessionEvent {
    /// Usage advanced.
    Usage(Totals),
    /// The session is over.
    Ended,
}

/// Why a session was stopped early. A deliberate stop is not a failure.
#[derive(Clone, Copy, Debug, PartialEq, Eq, Structural)]
pub enum AbortReason {
    CostCap,
    User,
}

impl AbortReason {
    /// The stored name of the reason.
    pub open spec fn name(self) -> Seq<char> {
        match self {
            AbortReason::CostCap => "cost_cap"@,
            AbortReason::User => "user"@,
        }
    }

    /// The stored name of the reason.
    pub fn as_str(&self) -> (r: &'static str)
        ensures
            r@ == self.name(),
    {
        match self {
            AbortReason::CostCap => "cost_cap",
            AbortReason::User => "user",
        }
    }

    /// The reason of a stored name; nothing where no reason has it.
    pub fn from_name(s: &str) -> (r: Option<AbortReason>)
        ensures
            forall|k: AbortReason| (#[trigger] k.name()) == s@ <==> r == Some(k),
    {
        proof {
            reveal_strlit("cost_cap");
            assert("cost_cap"@.len() == 8 && "cost_cap"@[0] == 'c');
            reveal_strlit("user");
            assert("user"@.len() == 4 && "user"@[0] == 'u');
        }
        if same_text(s, "cost_cap") {
            Some(AbortReason::CostCap)
        } else if same_text(s, "user") {
            Some(AbortReason::User)
        } else {
            None
        }
    }
}

/// How a session failed, when it did: a closed set.
#[derive(Clone, Copy, Debug, PartialEq, Eq, Structural)]
pub enum ErrorKind {
    /// 429: a provider rate or quota limit.
    RateLimit,
    /// An upstream 5xx.
    Http5xx,
    /// 401 or 403: bad or missing credentials.
    Auth,
    /// Another 4xx, or a success whose body carries an error.
    BadRequest,
    /// No response at all.
    Network,
    /// A completion cut off at the output-token limit.
    Truncated,
    /// The model declined.
    Refused,
    /// 413: the request exceeds the context window or a token cap.
    TooLarge,
    /// 404: the model or route is not available.
    Unavailable,
    /// A response that fits none of the others.
    Unknown,
}

impl ErrorKind {
    /// The stored name of the kind.
    pub open spec fn name(self) -> Seq<char> {
        match self {
            ErrorKind::RateLimit => "rate_limit"@,
            ErrorKind::Http5xx => "http_5xx"@,
            ErrorKind::Auth => "auth"@,
            ErrorKind::BadRequest => "bad_request"@,
            ErrorKind::Network => "network"@,
            ErrorKind::Truncated => "truncated"@,
            ErrorKind::Refused => "refused"@,
            ErrorKind::TooLarge => "too_large"@,
            ErrorKind::Unavailable => "unavailable"@,
            ErrorKind::Unknown => "unknown"@,
        }
    }

    /// How strongly a failure of this kind counts against a candidate, in hundredths: in full for
    /// what will happen again, a little for what may pass, not at all for what is our own fault.
    pub open spec fn weight(self) -> int {
        match self {
            ErrorKind::TooLarge | ErrorKind::Unavailable => 100,
            ErrorKind::Auth | ErrorKind::BadRequest => 0,
            _ => 15,
        }
    }

    /// The stored name of the kind.
    pub fn as_str(&self) -> (r: &'static str)
        ensures
            r@ == self.name(),
    {
        match self {
            ErrorKind::RateLimit => "rate_limit",
            ErrorKind::Http5xx => "http_5xx",
            ErrorKind::Auth => "auth",
            ErrorKind::BadRequest => "bad_request",
            ErrorKind::Network => "network",
            ErrorKind::Truncated => "truncated",
            ErrorKind::Refused => "refused",
            ErrorKind::TooLarge => "too_large",
            ErrorKind::Unavailable => "unavailable",
            ErrorKind::Unknown => "unknown",
        }
    }

    /// The kind of a stored name; nothing where no kind has it.
    pub fn from_wire(s: &str) -> (r: Option<ErrorKind>)
        ensures
            forall|k: ErrorKind| (#[trigger] k.name()) == s@ <==> r == Some(k),
    {
        let kind: Option<ErrorKind> = if same_text(s, "rate_limit") {
            Some(ErrorKind::RateLimit)
        } else if same_text(s, "http_5xx") {
            Some(ErrorKind::Http5xx)
        } else if same_text(s, "auth") {
            Some(ErrorKind::Auth)
        } else if same_text(s, "bad_request") {
            Some(ErrorKind::BadRequest)
        } else if same_text(s, "network") {
            Some(ErrorKind::Network)
        } else if same_text(s, "truncated") {
            Some(ErrorKind::Truncated)
        } else if same_text(s, "refused") {
            Some(ErrorKind::Refused)
        } else if same_text(s, "too_large") {
            Some(ErrorKind::TooLarge)
        } else if same_text(s, "unavailable") {
            Some(ErrorKind::Unavailable)
        } else if same_text(s, "unknown") {
            Some(ErrorKind::Unknown)
        } else {
            None
        };
        proof {
            assert forall|k: ErrorKind| (#[trigger] k.name()) == s@ implies kind == Some(k) by {
                lemma_kind_names_are_distinct(kind->Some_0, k);
            }
        }
        kind
    }

    /// The kind of a stored tag; a tag that no kind has counts as unknown.
    pub fn of_tag(s: &str) -> (r: ErrorKind)
        ensures
            forall|k: ErrorKind| (#[trigger] k.name()) == s@ ==> r == k,
            r.name() == s@ || r == ErrorKind::Unknown,
    {
        match ErrorKind::from_wire(s) {
            Some(k) => k,
            None => ErrorKind::Unknown,
        }
    }

    /// How strongly a failure of this kind counts against a candidate, in hundredths.
    pub fn loss_weight(&self) -> (r: u64)
        ensures
            r == self.weight(),
    {
        match self {
            ErrorKind::TooLarge | ErrorKind::Unavailable => 100,
            ErrorKind::Auth | ErrorKind::BadRequest => 0,
            _ => 15,
        }
    }
}

/// No two kinds share a name, so a stored name reads back as the kind it was written for.
pub proof fn lemma_kind_names_are_distinct(a: ErrorKind, b: ErrorKind)
    requires
        a.name() == b.name(),
    ensures
        a == b,
{
    reveal_strlit("rate_limit");
    assert("rate_limit"@.len() == 10 && "rate_limit"@[0] == 'r' && "rate_limit"@[1] == 'a');
    reveal_strlit("http_5xx");
    assert("http_5xx"@.len() == 8 && "http_5xx"@[0] == 'h' && "http_5xx"@[1] == 't');
    reveal_strlit("auth");
    assert("auth"@.len() == 4 && "auth"@[0] == 'a' && "auth"@[1] == 'u');
    reveal_strlit("bad_request");
    assert("bad_request"@.len() == 11 && "bad_request"@[0] == 'b' && "bad_request"@[1] == 'a');
    reveal_strlit("network");
    assert("network"@.len() == 7 && "network"@[0] == 'n' && "network"@[1] == 'e');
    reveal_strlit("truncated");
    assert("truncated"@.len() == 9 && "truncated"@[0] == 't' && "truncated"@[1] == 'r');
    reveal_strlit("refused");
    assert("refused"@.len() == 7 && "refused"@[0] == 'r' && "refused"@[1] == 'e');
    reveal_strlit("too_large");
    assert("too_large"@.len() == 9 && "too_large"@[0] == 't' && "too_large"@[1] == 'o');
    reveal_strlit("unavailable");
    assert("unavailable"@.len() == 11 && "unavailable"@[0] == 'u' && "unavailable"@[1] == 'n');
    reveal_strlit("unknown");
    assert("unknown"@.len() == 7 && "unknown"@[0] == 'u' && "unknown"@[1] == 'n');
    assert(a.name().len() == b.name().len() && a.name()[0] == b.name()[0] && a.name()[1]
        == b.name()[1]);
}

/// Where a recorded cost came from.
#[derive(Clone, Copy, Debug, PartialEq, Eq, Structural)]
pub enum CostSource {
    /// The provider's own figure.
    Provider,
    /// Tokens times shelf price.
    Estimate,
}

impl CostSource {
    /// The stored name of the source.
    pub open spec fn name(self) -> Seq<char> {
        match self {
            CostSource::Provider => "provider"@,
            CostSource::Estimate => "estimate"@,
        }
    }

    /// The stored name of the source.
    pub fn as_str(&self) -> (r: &'static str)
        ensures
            r@ == self.name(),
    {
        match self {
            CostSource::Provider => "provider",
            CostSource::Estimate => "estimate",
        }
    }

    /// The source of a stored name; nothing where no source has it.
    pub fn from_name(s: &str) -> (r: Option<CostSource>)
        ensures
            forall|k: CostSource| (#[trigger] k.name()) == s@ <==> r == Some(k),
    {
        proof {
            reveal_strlit("provider");
            assert("provider"@.len() == 8 && "provider"@[0] == 'p');
            reveal_strlit("estimate");
            assert("estimate"@.len() == 8 && "estimate"@[0] == 'e');
        }
        if same_text(s, "provider") {
            Some(CostSource::Provider)
        } else if same_text(s, "estimate") {
            Some(CostSource::Estimate)
        } else {
            None
        }
    }
}

/// The chosen candidate of a session. The real slug is here because the transport needs it to
/// route; it gets here only through the reveal gate.
#[derive(Debug)]
pub struct Pick {
    pub canonical_key: String,
    pub real_slug: String,
    pub endpoint: VettedEndpoint,
}

/// What a finished session reports: no prompt and no code.
#[derive(Clone, Copy, Debug, PartialEq, Eq, Structural)]
pub struct SessionOutcome {
    /// The provider-reported cost in billionths of a dollar.
    pub realized_cost_nano: Option<u64>,
    pub prompt_tokens: Option<u64>,
    pub completion_tokens: Option<u64>,
    pub cached_prompt_tokens: Option<u64>,
    /// Set when the session failed in a way worth tagging.
    pub error_kind: Option<ErrorKind>,
    /// The upstream status of an HTTP-level failure.
    pub error_status: Option<u16>,
    /// Who stopped the session, where it was stopped.
    pub terminated_by: Option<AbortReason>,
}

/// A request body as it leaves for the provider: an object is rewritten and vetted, any other body
/// is forwarded as it came.
pub open spec fn prepared(
    body: Seq<u8>,
    slug: Seq<char>,
    extra: Map<Seq<char>, JsonView>,
    privacy: Privacy,
) -> Seq<u8> {
    match json::json_read(body) {
        Some(JsonView::Object(members)) => vstd::utf8::encode_utf8(
            json::json_text(
                JsonView::Object(
                    rewrite::vetted_members(rewrite::rewritten(members, slug, extra), privacy),
                ),
            ),
        ),
        _ => body,
    }
}

/// The forwarding target, and the only source of the requests that may be sent to it.
#[derive(Debug)]
pub struct VettedEndpoint {
    url: String,
}

/// A request body that has been through the privacy gate. Its bytes are out of reach of other
/// modules, so only [`VettedEndpoint::prepare`] can make one.
#[derive(Debug)]
pub struct VettedRequest {
    bytes: Vec<u8>,
}

impl VettedEndpoint {
    /// The address of the endpoint.
    pub closed spec fn address(self) -> Seq<char> {
        self.url@
    }

    /// An endpoint at `url`.
    pub fn new(url: &str) -> (r: VettedEndpoint)
        ensures
            r.address() == url@,
    {
        VettedEndpoint { url: url.to_owned() }
    }

    /// The address of the endpoint.
    pub fn url(&self) -> (r: &str)
        ensures
            r@ == self.address(),
    {
        self.url.as_str()
    }

    /// The privacy gate: rewrites the model, merges the provider's extra members and applies the
    /// protocol's per-request injection.
    pub fn prepare(
        &self,
        body: &[u8],
        real_slug: &str,
        extra_body: &Vec<(String, Json)>,
        privacy: Privacy,
    ) -> (r: VettedRequest)
        ensures
            r@ == prepared(body@, real_slug@, json::members_view(extra_body@), privacy),
    {
        match json::parse(body) {
            Some(mut v) => {
                if v.is_object() {
                    let _ = rewrite::rewrite_request(&mut v, real_slug, extra_body);
                    rewrite::apply_request_privacy(&mut v, privacy);
                    return VettedRequest { bytes: v.to_bytes() };
                }
            },
            None => {},
        }
        let mut bytes: Vec<u8> = Vec::new();
        bytes.extend_from_slice(body);
        proof {
            assert(bytes@ =~= body@);
        }
        VettedRequest { bytes }
    }
}

impl VettedRequest {
    /// The bytes that will be sent.
    pub closed spec fn view(self) -> Seq<u8> {
        self.bytes@
    }

    /// The bytes that will be sent.
    pub fn body(&self) -> (r: &[u8])
        ensures
            r@ == self@,
    {
        self.bytes.as_slice()
    }

    /// The bytes that will be sent.
    pub fn into_body(self) -> (r: Vec<u8>)
        ensures
            r@ == self@,
    {
        self.bytes
    }
}

/// Under the request-time protocol every JSON object that leaves is the text of a document that
/// asks for zero data retention and names the resolved model, whatever the client sent.
pub proof fn lemma_nothing_leaves_without_the_injection(
    body: Seq<u8>,
    slug: Seq<char>,
    extra: Map<Seq<char>, JsonView>,
)
    requires
        json::json_read(body) matches Some(v) && v is Object,
    ensures
        exists|sent: JsonView|
            #![trigger json::json_text(sent)]
            prepared(body, slug, extra, Privacy::OpenRouter) == vstd::utf8::encode_utf8(
                json::json_text(sent),
            ) && sent.get("model"@) == Some(JsonView::Text(slug)) && (sent.get(
                "provider"@,
            ) matches Some(p) && p.get("zdr"@) == Some(JsonView::Bool(true)) && p.get(
                "data_collection"@,
            ) == Some(JsonView::Text("deny"@))),
{
    let members = json::json_read(body)->Some_0->Object_0;
    rewrite::lemma_every_request_asks_for_zero_retention(members, slug, extra);
    let sent = JsonView::Object(
        rewrite::vetted_members(
            rewrite::rewritten(members, slug, extra),
            Privacy::OpenRouter,
        ),
    );
    assert(prepared(body, slug, extra, Privacy::OpenRouter) == vstd::utf8::encode_utf8(
        json::json_text(sent),
    ));
}

/// What is no JSON object leaves as it came, and an object leaves as the text of the object that the
/// client's members, the provider's and the protocol's make together.
pub proof fn lemma_what_leaves(
    body: Seq<u8>,
    slug: Seq<char>,
    extra: Map<Seq<char>, JsonView>,
    privacy: Privacy,
)
    ensures
        !(json::json_read(body) matches Some(v) && v is Object) ==> prepared(
            body,
            slug,
            extra,
            privacy,
        ) == body,
        json::json_read(body) matches Some(JsonView::Object(members)) ==> exists|
            sent: Map<Seq<char>, JsonView>,
        |
            #![trigger json::json_text(JsonView::Object(sent))]
            prepared(body, slug, extra, privacy) == vstd::utf8::encode_utf8(
                json::json_text(JsonView::Object(sent)),
            ) && sent.contains_key("model"@) && sent["model"@] == JsonView::Text(slug) && forall|
                name: Seq<char>,
            |
                name != "model"@ && (name != "provider"@ || privacy != Privacy::OpenRouter) ==> (
                #[trigger] sent.contains_key(name) <==> members.contains_key(name)
                    || extra.contains_key(name)) && (extra.contains_key(name) ==> sent[name]
                    == extra[name]) && (!extra.contains_key(name) && members.contains_key(name)
                    ==> sent[name] == members[name]),
{
    if let Some(JsonView::Object(members)) = json::json_read(body) {
        let sent = rewrite::vetted_members(rewrite::rewritten(members, slug, extra), privacy);
        reveal_strlit("provider");
        reveal_strlit("model");
        assert("provider"@.len() != "model"@.len());
        assert forall|name: Seq<char>|
            name != "model"@ && (name != "provider"@ || privacy != Privacy::OpenRouter) implies (
        #[trigger] sent.contains_key(name) <==> members.contains_key(name) || extra.contains_key(
            name,
        )) && (extra.contains_key(name) ==> sent[name] == extra[name]) && (!extra.contains_key(name)
            && members.contains_key(name) ==> sent[name] == members[name]) by {
            rewrite::lemma_extra_members_go_out(members, slug, extra, privacy, name);
        }
        assert(prepared(body, slug, extra, privacy) == vstd::utf8::encode_utf8(
            json::json_text(JsonView::Object(sent)),
        ));
    }
}

/// How much each kind of failure counts: in full where the model cannot serve the request at all, not
/// at all where the request was at fault, and a little for what may pass.
pub proof fn lemma_weights_of_kinds(kind: ErrorKind)
    ensures
        kind.weight() == 100 <==> kind == ErrorKind::TooLarge || kind == ErrorKind::Unavailable,
        kind.weight() == 0 <==> kind == ErrorKind::Auth || kind == ErrorKind::BadRequest,
        kind.weight() == 100 || kind.weight() == 0 || kind.weight() == 15,
{
}

} // verus!
