//! The provider-blind heart of the proxy: pure transforms over OpenAI-wire JSON, with no network
//! and no provider knowledge. Everything provider-specific arrives as data, so these functions
//! never branch on which backend they serve.

use vstd::prelude::*;

use crate::backend::UsageSnapshot;
use crate::config::Privacy;
use crate::double::Double;
use crate::json;
use crate::json::{Json, JsonView};
use crate::text;
use crate::text::{char_match, chars_of, has_prefix, same_text, skip_space, string_of, trim};

verus! {

/// `hay` with every occurrence of `needle`, taken from the left without overlap, replaced.
/// An empty `needle` replaces nothing.
pub open spec fn replaced<T>(hay: Seq<T>, needle: Seq<T>, repl: Seq<T>) -> Seq<T>
    decreases hay.len(),
{
    if needle.len() == 0 || hay.len() == 0 {
        hay
    } else if text::begins_with(hay, needle) {
        repl + replaced(hay.skip(needle.len() as int), needle, repl)
    } else {
        seq![hay[0]] + replaced(hay.skip(1), needle, repl)
    }
}

/// Whether `needle` laid over `repl` with its start at `d` differs from it where the two overlap.
pub open spec fn differs_over<T>(needle: Seq<T>, repl: Seq<T>, d: int) -> bool {
    exists|j: int|
        0 <= j < needle.len() && 0 <= d + j < repl.len() && #[trigger] needle[j] != repl[d + j]
}

/// Whether `needle` differs from `repl` at every offset at which the two overlap, so that no part
/// of an inserted `repl` can serve as part of a new `needle`.
pub open spec fn no_overlay<T>(needle: Seq<T>, repl: Seq<T>) -> bool {
    forall|d: int|
        -needle.len() < d < repl.len() ==> #[trigger] differs_over(needle, repl, d)
}

/// What stands in front of a replaced text cannot complete a `needle` that it did not complete in
/// front of the text itself.
proof fn lemma_front<T>(front: Seq<T>, hay: Seq<T>, needle: Seq<T>, repl: Seq<T>)
    requires
        needle.len() > 0,
        repl.len() > 0,
        no_overlay(needle, repl),
        text::matches_at(front + replaced(hay, needle, repl), 0, needle),
    ensures
        text::matches_at(front + hay, 0, needle),
    decreases hay.len(),
{
    let out = replaced(hay, needle, repl);
    assert forall|j: int| 0 <= j < needle.len() implies (front + out)[j] == needle[j] by {
        assert((front + out).subrange(0, needle.len() as int)[j] == needle[j]);
    }
    if needle.len() <= front.len() {
        assert((front + hay).subrange(0, needle.len() as int) =~= needle);
    } else if hay.len() == 0 {
    } else if text::begins_with(hay, needle) {
        let d = -(front.len() as int);
        assert(differs_over(needle, repl, d));
        let j = choose|j: int|
            0 <= j < needle.len() && 0 <= d + j < repl.len() && #[trigger] needle[j] != repl[d + j];
        assert((front + out)[j] == repl[d + j]);
    } else {
        let rest = replaced(hay.skip(1), needle, repl);
        assert(front + out =~= front.push(hay[0]) + rest);
        lemma_front(front.push(hay[0]), hay.skip(1), needle, repl);
        assert(front.push(hay[0]) + hay.skip(1) =~= front + hay);
    }
}

/// The scrub is complete: once every `needle` is replaced by a text that cannot form part of one,
/// no `needle` is left.
pub proof fn lemma_scrubbed<T>(hay: Seq<T>, needle: Seq<T>, repl: Seq<T>)
    requires
        needle.len() > 0,
        repl.len() > 0,
        no_overlay(needle, repl),
    ensures
        !text::occurs(replaced(hay, needle, repl), needle),
    decreases hay.len(),
{
    let out = replaced(hay, needle, repl);
    if text::occurs(out, needle) {
        let at = choose|at: int| text::matches_at(out, at, needle);
        assert forall|j: int| 0 <= j < needle.len() implies out[at + j] == needle[j] by {
            assert(out.subrange(at, at + needle.len())[j] == needle[j]);
        }
        if text::begins_with(hay, needle) {
            let rest = replaced(hay.skip(needle.len() as int), needle, repl);
            if at < repl.len() {
                assert(differs_over(needle, repl, at));
                let j = choose|j: int|
                    0 <= j < needle.len() && 0 <= at + j < repl.len() && #[trigger] needle[j]
                        != repl[at + j];
                assert(out[at + j] == repl[at + j]);
            } else {
                lemma_scrubbed(hay.skip(needle.len() as int), needle, repl);
                assert(rest.subrange(at - repl.len(), at - repl.len() + needle.len()) =~= needle);
                assert(text::matches_at(rest, at - repl.len(), needle));
            }
        } else {
            let rest = replaced(hay.skip(1), needle, repl);
            if at == 0 {
                lemma_front(seq![hay[0]], hay.skip(1), needle, repl);
                assert(seq![hay[0]] + hay.skip(1) =~= hay);
            } else {
                lemma_scrubbed(hay.skip(1), needle, repl);
                assert(rest.subrange(at - 1, at - 1 + needle.len()) =~= needle);
                assert(text::matches_at(rest, at - 1, needle));
            }
        }
    }
}

/// A text without the `needle` is left as it is.
pub proof fn lemma_untouched<T>(hay: Seq<T>, needle: Seq<T>, repl: Seq<T>)
    requires
        !text::occurs(hay, needle),
    ensures
        replaced(hay, needle, repl) == hay,
    decreases hay.len(),
{
    if needle.len() > 0 && hay.len() > 0 {
        assert(!text::matches_at(hay, 0, needle));
        let rest = hay.skip(1);
        if text::occurs(rest, needle) {
            let at = choose|at: int| text::matches_at(rest, at, needle);
            assert(hay.subrange(at + 1, at + 1 + needle.len()) =~= rest.subrange(
                at,
                at + needle.len(),
            ));
            assert(text::matches_at(hay, at + 1, needle));
        }
        lemma_untouched(rest, needle, repl);
        assert(seq![hay[0]] + rest =~= hay);
    }
}

/// Replacing once is enough: a second pass changes nothing.
pub proof fn lemma_scrub_is_idempotent<T>(hay: Seq<T>, needle: Seq<T>, repl: Seq<T>)
    requires
        needle.len() > 0,
        repl.len() > 0,
        no_overlay(needle, repl),
    ensures
        replaced(replaced(hay, needle, repl), needle, repl) == replaced(hay, needle, repl),
{
    lemma_scrubbed(hay, needle, repl);
    lemma_untouched(replaced(hay, needle, repl), needle, repl);
}

/// Whether `needle` stands in `hay` at `at`.
fn byte_match(hay: &[u8], at: usize, needle: &[u8]) -> (r: bool)
    requires
        at <= hay@.len(),
    ensures
        r == text::matches_at(hay@, at as int, needle@),
{
    let end: usize = hay.len();
    if needle.len() > end - at {
        return false;
    }
    let mut k: usize = 0;
    while k < needle.len()
        invariant
            end == hay@.len(),
            at + needle@.len() <= end,
            k <= needle@.len(),
            forall|j: int| 0 <= j < k ==> hay@[at + j] == needle@[j],
        decreases needle@.len() - k,
    {
        if hay[at + k] != needle[k] {
            proof {
                assert(hay@.subrange(at as int, at + needle@.len())[k as int] == hay@[at + k]);
            }
            return false;
        }
        k = k + 1;
    }
    proof {
        assert(hay@.subrange(at as int, at + needle@.len()) =~= needle@);
    }
    true
}

/// Replaces every occurrence of `needle` with `repl` in a byte stream. Scrubs the real model slug
/// out of free text that the structured mask cannot reach. Working on raw bytes keeps a body that
/// is not UTF-8 intact; an empty needle changes nothing.
pub fn replace_bytes(hay: &[u8], needle: &[u8], repl: &[u8]) -> (r: Vec<u8>)
    ensures
        r@ == replaced(hay@, needle@, repl@),
{
    let mut out: Vec<u8> = Vec::new();
    if needle.len() == 0 {
        out.extend_from_slice(hay);
        proof {
            assert(out@ =~= hay@);
        }
        return out;
    }
    let mut i: usize = 0;
    proof {
        assert(hay@.skip(0) =~= hay@);
        assert(out@ + replaced(hay@, needle@, repl@) =~= replaced(hay@, needle@, repl@));
    }
    while i < hay.len()
        invariant
            i <= hay@.len(),
            needle@.len() > 0,
            out@ + replaced(hay@.skip(i as int), needle@, repl@) == replaced(
                hay@,
                needle@,
                repl@,
            ),
        decreases hay@.len() - i,
    {
        let ghost before = out@;
        let ghost rest = hay@.skip(i as int);
        let hit: bool = byte_match(hay, i, needle);
        proof {
            if i + needle@.len() <= hay@.len() {
                assert(hay@.subrange(i as int, i + needle@.len()) =~= rest.subrange(
                    0,
                    needle@.len() as int,
                ));
            }
            assert(hit == text::begins_with(rest, needle@));
        }
        if hit {
            out.extend_from_slice(repl);
            proof {
                assert(out@ =~= before + repl@);
                assert(rest.skip(needle@.len() as int) =~= hay@.skip(i + needle@.len()));
                assert(out@ + replaced(rest.skip(needle@.len() as int), needle@, repl@) =~= before
                    + replaced(rest, needle@, repl@));
            }
            i = i + needle.len();
        } else {
            out.push(hay[i]);
            proof {
                assert(rest.skip(1) =~= hay@.skip(i + 1));
                assert(out@ + replaced(rest.skip(1), needle@, repl@) =~= before + replaced(
                    rest,
                    needle@,
                    repl@,
                ));
            }
            i = i + 1;
        }
    }
    proof {
        assert(out@ + replaced(hay@.skip(i as int), needle@, repl@) =~= out@);
    }
    out
}

/// Replaces every occurrence of `needle` with `repl` in a text; an empty needle changes nothing.
pub fn replace_text(text: &str, needle: &str, repl: &str) -> (r: String)
    ensures
        r@ == replaced(text@, needle@, repl@),
{
    let hay: Vec<char> = chars_of(text);
    let pin: Vec<char> = chars_of(needle);
    let put: Vec<char> = chars_of(repl);
    if pin.len() == 0 {
        return text.to_owned();
    }
    let mut out: Vec<char> = Vec::new();
    let mut i: usize = 0;
    proof {
        assert(hay@.skip(0) =~= hay@);
        assert(out@ + replaced(hay@, needle@, repl@) =~= replaced(hay@, needle@, repl@));
    }
    while i < hay.len()
        invariant
            i <= hay@.len(),
            hay@ == text@,
            pin@ == needle@,
            put@ == repl@,
            pin@.len() > 0,
            out@ + replaced(hay@.skip(i as int), needle@, repl@) == replaced(
                hay@,
                needle@,
                repl@,
            ),
        decreases hay@.len() - i,
    {
        let ghost before = out@;
        let ghost rest = hay@.skip(i as int);
        let hit: bool = char_match(&hay, i, &pin);
        proof {
            if i + pin@.len() <= hay@.len() {
                assert(hay@.subrange(i as int, i + pin@.len()) =~= rest.subrange(
                    0,
                    pin@.len() as int,
                ));
            }
            assert(hit == text::begins_with(rest, needle@));
        }
        if hit {
            out.extend_from_slice(&put);
            proof {
                assert(out@ =~= before + repl@);
                assert(rest.skip(pin@.len() as int) =~= hay@.skip(i + pin@.len()));
                assert(out@ + replaced(rest.skip(pin@.len() as int), needle@, repl@) =~= before
                    + replaced(rest, needle@, repl@));
            }
            i = i + pin.len();
        } else {
            out.push(hay[i]);
            proof {
                assert(rest.skip(1) =~= hay@.skip(i + 1));
                assert(out@ + replaced(rest.skip(1), needle@, repl@) =~= before + replaced(
                    rest,
                    needle@,
                    repl@,
                ));
            }
            i = i + 1;
        }
    }
    proof {
        assert(out@ + replaced(hay@.skip(i as int), needle@, repl@) =~= out@);
        assert(out@.subrange(0, out@.len() as int) =~= out@);
    }
    string_of(&out, 0, out.len())
}

/// A request body that cannot be rewritten.
#[derive(Clone, Copy, Debug, PartialEq, Eq, Structural)]
pub enum RewriteError {
    /// The body is not a JSON object.
    NotAnObject,
}

impl RewriteError {
    /// The error as text.
    pub fn message(&self) -> (r: String)
        ensures
            r@ == "request body is not a JSON object"@,
    {
        "request body is not a JSON object".to_owned()
    }
}

/// The request with the provider's extra members merged over it and the real slug as its model.
pub open spec fn rewritten(
    members: Map<Seq<char>, JsonView>,
    slug: Seq<char>,
    extra: Map<Seq<char>, JsonView>,
) -> Map<Seq<char>, JsonView> {
    members.union_prefer_right(extra).insert("model"@, JsonView::Text(slug))
}

/// Whatever the extra members hold, the model on the wire is the real slug.
pub proof fn lemma_resolved_model_wins(
    members: Map<Seq<char>, JsonView>,
    slug: Seq<char>,
    extra: Map<Seq<char>, JsonView>,
)
    ensures
        rewritten(members, slug, extra).contains_key("model"@),
        rewritten(members, slug, extra)["model"@] == JsonView::Text(slug),
{
}

/// A member that neither is the model nor is overridden by the provider is forwarded as it came.
pub proof fn lemma_rewrite_leaves_the_rest(
    members: Map<Seq<char>, JsonView>,
    slug: Seq<char>,
    extra: Map<Seq<char>, JsonView>,
    key: Seq<char>,
)
    requires
        key != "model"@,
        !extra.contains_key(key),
    ensures
        rewritten(members, slug, extra).contains_key(key) == members.contains_key(key),
        members.contains_key(key) ==> rewritten(members, slug, extra)[key] == members[key],
{
}

/// Rewrites an outbound chat-completions request: merges `extra_body` over the top level, then
/// sets `model` to the real slug, so that `extra_body` can never override the resolved model.
pub fn rewrite_request(
    body: &mut Json,
    real_slug: &str,
    extra_body: &Vec<(String, Json)>,
) -> (r: Result<(), RewriteError>)
    ensures
        match old(body)@ {
            JsonView::Object(members) => r is Ok && final(body)@ == JsonView::Object(
                rewritten(members, real_slug@, json::members_view(extra_body@)),
            ),
            _ => r == Err::<(), RewriteError>(RewriteError::NotAnObject) && final(body)@ == old(
                body,
            )@,
        },
{
    if !body.is_object() {
        return Err(RewriteError::NotAnObject);
    }
    let ghost members = body@->Object_0;
    let mut i: usize = 0;
    proof {
        assert(members.union_prefer_right(json::members_view(extra_body@.take(0))) =~= members);
    }
    while i < extra_body.len()
        invariant
            i <= extra_body@.len(),
            body@ == JsonView::Object(
                members.union_prefer_right(json::members_view(extra_body@.take(i as int))),
            ),
        decreases extra_body@.len() - i,
    {
        proof {
            let ghost before = json::members_view(extra_body@.take(i as int));
            assert(extra_body@.take(i + 1).drop_last() =~= extra_body@.take(i as int));
            assert(members.union_prefer_right(json::members_view(extra_body@.take(i + 1)))
                =~= members.union_prefer_right(before).insert(
                extra_body@[i as int].0@,
                extra_body@[i as int].1@,
            ));
        }
        body.insert(extra_body[i].0.as_str(), extra_body[i].1.duplicate());
        i = i + 1;
    }
    proof {
        assert(extra_body@.take(i as int) =~= extra_body@);
    }
    body.insert("model", Json::Text(real_slug.to_owned()));
    Ok(())
}

/// The provider preferences that ask for zero data retention, on top of those already there.
pub open spec fn with_zero_retention(provider: Option<JsonView>) -> JsonView {
    let kept = match provider {
        Some(JsonView::Object(members)) => members,
        _ => Map::empty(),
    };
    JsonView::Object(
        kept.insert("zdr"@, JsonView::Bool(true)).insert(
            "data_collection"@,
            JsonView::Text("deny"@),
        ),
    )
}

/// The request with what the privacy protocol puts into every request.
pub open spec fn vetted_members(members: Map<Seq<char>, JsonView>, privacy: Privacy) -> Map<
    Seq<char>,
    JsonView,
> {
    match privacy {
        Privacy::OpenRouter => members.insert(
            "provider"@,
            with_zero_retention(JsonView::Object(members).get("provider"@)),
        ),
        Privacy::Groq => members,
        Privacy::NoZdr => members,
    }
}

/// Under the request-time protocol every request asks for zero data retention, whatever the client
/// or the provider's extra members put there, and still goes to the resolved model.
pub proof fn lemma_every_request_asks_for_zero_retention(
    members: Map<Seq<char>, JsonView>,
    slug: Seq<char>,
    extra: Map<Seq<char>, JsonView>,
)
    ensures
        ({
            let sent = JsonView::Object(
                vetted_members(rewritten(members, slug, extra), Privacy::OpenRouter),
            );
            &&& sent.get("provider"@) is Some
            &&& sent.get("provider"@)->Some_0.get("zdr"@) == Some(JsonView::Bool(true))
            &&& sent.get("provider"@)->Some_0.get("data_collection"@) == Some(
                JsonView::Text("deny"@),
            )
            &&& sent.get("model"@) == Some(JsonView::Text(slug))
        }),
{
    reveal_strlit("provider");
    reveal_strlit("model");
    reveal_strlit("zdr");
    reveal_strlit("data_collection");
    assert("provider"@.len() != "model"@.len());
    assert("zdr"@.len() != "data_collection"@.len());
}

/// The protocols without a request-time mechanism change nothing in a request.
pub proof fn lemma_account_level_protocols_inject_nothing(
    members: Map<Seq<char>, JsonView>,
    privacy: Privacy,
)
    requires
        privacy != Privacy::OpenRouter,
    ensures
        vetted_members(members, privacy) == members,
{
}

/// Puts what the privacy protocol demands into a request body; a body that is not an object stays
/// as it is. Every protocol has an arm of its own: an account-level protocol and the no-ZDR one
/// inject nothing, by decision.
pub fn apply_request_privacy(body: &mut Json, privacy: Privacy)
    ensures
        final(body)@ == (match old(body)@ {
            JsonView::Object(members) => JsonView::Object(vetted_members(members, privacy)),
            other => other,
        }),
{
    match privacy {
        Privacy::OpenRouter => {
            if body.is_object() {
                let mut provider: Json = match body.get("provider") {
                    Some(p) => if p.is_object() {
                        p.duplicate()
                    } else {
                        Json::Object(Vec::new())
                    },
                    None => Json::Object(Vec::new()),
                };
                provider.insert("zdr", Json::Bool(true));
                provider.insert("data_collection", Json::Text("deny".to_owned()));
                body.insert("provider", provider);
            }
        },
        Privacy::Groq => {},
        Privacy::NoZdr => {},
    }
}

/// A natural number among the members of an object; 0 where there is none.
pub open spec fn count_of(v: JsonView, key: Seq<char>) -> u64 {
    match v.get(key) {
        Some(n) => match n.natural() {
            Some(u) => u,
            None => 0,
        },
        None => 0,
    }
}

/// The usage that a response reports, where it holds a usage block.
pub open spec fn usage_of(v: JsonView) -> Option<UsageSnapshot> {
    match v.get("usage"@) {
        Some(usage) => Some(
            UsageSnapshot {
                prompt_tokens: count_of(usage, "prompt_tokens"@),
                completion_tokens: count_of(usage, "completion_tokens"@),
                cached_prompt_tokens: match usage.get("prompt_tokens_details"@) {
                    Some(details) => count_of(details, "cached_tokens"@),
                    None => 0,
                },
                cost_so_far: match usage.get("cost"@) {
                    Some(cost) => match cost.double() {
                        Some(bits) => Some(Double { bits }),
                        None => None,
                    },
                    None => None,
                },
            },
        ),
        None => None,
    }
}

/// A natural number among the members of an object; 0 where there is none.
fn read_count(v: &Json, key: &str) -> (r: u64)
    ensures
        r == count_of(v@, key@),
{
    match v.get(key) {
        Some(n) => match n.natural() {
            Some(u) => u,
            None => 0,
        },
        None => 0,
    }
}

/// The token usage of a response, and its real cost where the gateway reports one; nothing where
/// there is no usage block.
pub fn parse_usage(value: &Json) -> (r: Option<UsageSnapshot>)
    ensures
        r == usage_of(value@),
{
    match value.get("usage") {
        Some(usage) => {
            let cached: u64 = match usage.get("prompt_tokens_details") {
                Some(details) => read_count(details, "cached_tokens"),
                None => 0,
            };
            let cost: Option<Double> = match usage.get("cost") {
                Some(c) => match c.double() {
                    Some(bits) => Some(Double { bits }),
                    None => None,
                },
                None => None,
            };
            Some(
                UsageSnapshot {
                    prompt_tokens: read_count(usage, "prompt_tokens"),
                    completion_tokens: read_count(usage, "completion_tokens"),
                    cached_prompt_tokens: cached,
                    cost_so_far: cost,
                },
            )
        },
        None => None,
    }
}

/// A response with the alias as its model and without the members that fingerprint the provider.
pub open spec fn masked_response(v: JsonView, alias: Seq<char>) -> JsonView {
    match v {
        JsonView::Object(members) => {
            let named = if members.contains_key("model"@) {
                members.insert("model"@, JsonView::Text(alias))
            } else {
                members
            };
            JsonView::Object(named.remove("system_fingerprint"@).remove("provider"@).remove("x_groq"@))
        },
        other => other,
    }
}

/// Masks a response in place: the alias replaces `model`, and the members that name or fingerprint
/// the provider are dropped. What is not an object stays as it is.
pub fn mask_response_obj(v: &mut Json, alias: &str)
    ensures
        final(v)@ == masked_response(old(v)@, alias@),
{
    if v.is_object() {
        if v.get("model").is_some() {
            v.insert("model", Json::Text(alias.to_owned()));
        }
        v.remove("system_fingerprint");
        v.remove("provider");
        v.remove("x_groq");
    }
}

/// A masked response names the alias if it names a model at all, and carries no fingerprint.
pub proof fn lemma_mask_blinds(v: JsonView, alias: Seq<char>)
    ensures
        v is Object ==> masked_response(v, alias).get("system_fingerprint"@) is None,
        v is Object ==> masked_response(v, alias).get("provider"@) is None,
        v is Object ==> masked_response(v, alias).get("x_groq"@) is None,
        masked_response(v, alias).get("model"@) == (match v.get("model"@) {
            Some(_) => Some(JsonView::Text(alias)),
            None => None,
        }),
{
    reveal_strlit("system_fingerprint");
    reveal_strlit("provider");
    reveal_strlit("x_groq");
    reveal_strlit("model");
    assert("model"@.len() == 5 && "provider"@.len() == 8 && "x_groq"@.len() == 6
        && "system_fingerprint"@.len() == 18);
}

/// Masking leaves every other member alone, so what a response reports of usage, errors and
/// choices is the same before and after.
pub proof fn lemma_mask_keeps_the_rest(v: JsonView, alias: Seq<char>, key: Seq<char>)
    requires
        key != "model"@,
        key != "system_fingerprint"@,
        key != "provider"@,
        key != "x_groq"@,
    ensures
        masked_response(v, alias).get(key) == v.get(key),
{
}

/// The usage that a masked response reports is the usage that the response reported.
pub proof fn lemma_mask_keeps_usage(v: JsonView, alias: Seq<char>)
    ensures
        usage_of(masked_response(v, alias)) == usage_of(v),
{
    reveal_strlit("system_fingerprint");
    reveal_strlit("provider");
    reveal_strlit("x_groq");
    reveal_strlit("model");
    reveal_strlit("usage");
    assert("usage"@[0] == 'u' && "model"@[0] == 'm');
    assert("usage"@.len() == 5 && "provider"@.len() == 8 && "x_groq"@.len() == 6
        && "system_fingerprint"@.len() == 18);
    lemma_mask_keeps_the_rest(v, alias, "usage"@);
}

/// A body as the structured mask leaves it: JSON is masked and written anew, other bytes stay.
pub open spec fn structured_body(body: Seq<u8>, alias: Seq<char>) -> Seq<u8> {
    match json::json_read(body) {
        Some(v) => vstd::utf8::encode_utf8(json::json_text(masked_response(v, alias))),
        None => body,
    }
}

/// A response body as the client receives it.
pub open spec fn masked_body(body: Seq<u8>, slug: Seq<char>, alias: Seq<char>) -> Seq<u8> {
    replaced(
        structured_body(body, alias),
        vstd::utf8::encode_utf8(slug),
        vstd::utf8::encode_utf8(alias),
    )
}

/// Masks a whole response body: the structured mask, then a raw replacement of the real slug by
/// the alias over the entire body, so that the slug is scrubbed from free text too.
pub fn mask_json_body(body: &[u8], real_slug: &str, alias: &str) -> (r: Vec<u8>)
    ensures
        r@ == masked_body(body@, real_slug@, alias@),
{
    match json::parse(body) {
        Some(mut v) => {
            mask_response_obj(&mut v, alias);
            let structured: Vec<u8> = v.to_bytes();
            replace_bytes(&structured, real_slug.as_bytes(), alias.as_bytes())
        },
        None => replace_bytes(body, real_slug.as_bytes(), alias.as_bytes()),
    }
}

/// The slug is nowhere in a masked body, given an alias that cannot form part of it.
pub proof fn lemma_masked_body_hides_the_slug(body: Seq<u8>, slug: Seq<char>, alias: Seq<char>)
    requires
        vstd::utf8::encode_utf8(slug).len() > 0,
        vstd::utf8::encode_utf8(alias).len() > 0,
        no_overlay(vstd::utf8::encode_utf8(slug), vstd::utf8::encode_utf8(alias)),
    ensures
        !text::occurs(masked_body(body, slug, alias), vstd::utf8::encode_utf8(slug)),
{
    lemma_scrubbed(
        structured_body(body, alias),
        vstd::utf8::encode_utf8(slug),
        vstd::utf8::encode_utf8(alias),
    );
}

/// A body that is no JSON and does not hold the slug reaches the client unchanged.
pub proof fn lemma_foreign_body_is_untouched(body: Seq<u8>, slug: Seq<char>, alias: Seq<char>)
    requires
        json::json_read(body) is None,
        !text::occurs(body, vstd::utf8::encode_utf8(slug)),
    ensures
        masked_body(body, slug, alias) == body,
{
    lemma_untouched(body, vstd::utf8::encode_utf8(slug), vstd::utf8::encode_utf8(alias));
}

/// The payload of a server-sent `data:` line; nothing for any other line.
pub open spec fn data_payload(line: Seq<char>) -> Option<Seq<char>> {
    let t = text::trimmed_start(line);
    if text::begins_with(t, "data:"@) {
        Some(text::trimmed(t.skip(5)))
    } else {
        None
    }
}

/// The payload of a server-sent `data:` line; nothing for any other line.
pub fn sse_payload(line: &str) -> (r: Option<String>)
    ensures
        match r {
            Some(p) => data_payload(line@) == Some(p@),
            None => data_payload(line@) is None,
        },
{
    let t: Vec<char> = chars_of(line);
    let from: usize = skip_space(&t);
    let rest: String = string_of(&t, from, t.len());
    proof {
        assert(t@.subrange(from as int, t@.len() as int) =~= t@.skip(from as int));
        reveal_strlit("data:");
    }
    if has_prefix(rest.as_str(), "data:") {
        let body: String = string_of(&t, from + 5, t.len());
        proof {
            assert(t@.subrange(from + 5, t@.len() as int) =~= rest@.skip(5));
        }
        Some(trim(body.as_str()))
    } else {
        None
    }
}

/// A server-sent line as the structured mask leaves it.
pub open spec fn structured_line(line: Seq<char>, alias: Seq<char>) -> Seq<char> {
    match data_payload(line) {
        Some(p) => if p.len() == 0 || p == "[DONE]"@ {
            line
        } else {
            match json::json_read(vstd::utf8::encode_utf8(p)) {
                Some(v) => "data: "@ + json::json_text(masked_response(v, alias)),
                None => line,
            }
        },
        None => line,
    }
}

/// A server-sent line as the client receives it.
pub open spec fn masked_line(line: Seq<char>, slug: Seq<char>, alias: Seq<char>) -> Seq<char> {
    replaced(structured_line(line, alias), slug, alias)
}

/// Masks one server-sent line, without its newline. A `data:` line that holds JSON gets the
/// structured mask; control frames and other lines pass through. In every case the real slug is
/// scrubbed from the text.
pub fn mask_sse_line(line: &str, real_slug: &str, alias: &str) -> (r: String)
    ensures
        r@ == masked_line(line@, real_slug@, alias@),
{
    match sse_payload(line) {
        Some(payload) => {
            if chars_of(payload.as_str()).len() > 0 && !same_text(payload.as_str(), "[DONE]") {
                match json::parse(payload.as_str().as_bytes()) {
                    Some(mut v) => {
                        mask_response_obj(&mut v, alias);
                        let mut out: String = "data: ".to_owned();
                        out.append(v.to_text().as_str());
                        return replace_text(out.as_str(), real_slug, alias);
                    },
                    None => {},
                }
            }
        },
        None => {},
    }
    replace_text(line, real_slug, alias)
}

/// The slug is nowhere in a masked line, given an alias that cannot form part of it.
pub proof fn lemma_masked_line_hides_the_slug(line: Seq<char>, slug: Seq<char>, alias: Seq<char>)
    requires
        slug.len() > 0,
        alias.len() > 0,
        no_overlay(slug, alias),
    ensures
        !text::occurs(masked_line(line, slug, alias), slug),
{
    lemma_scrubbed(structured_line(line, alias), slug, alias);
}

/// A line that carries no payload and does not hold the slug passes through verbatim.
pub proof fn lemma_control_line_is_untouched(line: Seq<char>, slug: Seq<char>, alias: Seq<char>)
    requires
        data_payload(line) is None || data_payload(line) == Some("[DONE]"@) || data_payload(line)
            == Some(Seq::<char>::empty()),
        !text::occurs(line, slug),
    ensures
        masked_line(line, slug, alias) == line,
{
    lemma_untouched(line, slug, alias);
}

/// The first `needle` of a text gives way to `repl`, what stands in front of it stays, and the rest
/// goes the same way.
pub proof fn lemma_replaced_from_the_left<T>(
    front: Seq<T>,
    needle: Seq<T>,
    rest: Seq<T>,
    repl: Seq<T>,
)
    requires
        needle.len() > 0,
        forall|at: int|
            0 <= at < front.len() ==> !#[trigger] text::matches_at(
                front + needle + rest,
                at,
                needle,
            ),
    ensures
        replaced(front + needle + rest, needle, repl) == front + repl + replaced(
            rest,
            needle,
            repl,
        ),
    decreases front.len(),
{
    let hay = front + needle + rest;
    if front.len() == 0 {
        assert(hay.subrange(0, needle.len() as int) =~= needle);
        assert(hay.skip(needle.len() as int) =~= rest);
        assert(front + repl =~= repl);
    } else {
        assert(!text::matches_at(hay, 0, needle));
        let tail = front.skip(1);
        assert(hay.skip(1) =~= tail + needle + rest);
        assert forall|at: int| 0 <= at < tail.len() implies !#[trigger] text::matches_at(
            tail + needle + rest,
            at,
            needle,
        ) by {
            if text::matches_at(tail + needle + rest, at, needle) {
                assert(hay.subrange(at + 1, at + 1 + needle.len()) =~= (tail + needle
                    + rest).subrange(at, at + needle.len()));
                assert(text::matches_at(hay, at + 1, needle));
            }
        }
        lemma_replaced_from_the_left(tail, needle, rest, repl);
        assert(seq![hay[0]] + (tail + repl + replaced(rest, needle, repl)) =~= front + repl
            + replaced(rest, needle, repl));
    }
}

/// A body that is a document goes out as the masked document, written anew, with the slug replaced
/// wherever it stands; any other body has the slug replaced and is otherwise as it came.
pub proof fn lemma_body_is_masked(body: Seq<u8>, slug: Seq<char>, alias: Seq<char>)
    ensures
        json::json_read(body) is None ==> masked_body(body, slug, alias) == replaced(
            body,
            vstd::utf8::encode_utf8(slug),
            vstd::utf8::encode_utf8(alias),
        ),
        json::json_read(body) matches Some(v) ==> {
            let written = vstd::utf8::encode_utf8(json::json_text(masked_response(v, alias)));
            &&& masked_body(body, slug, alias) == replaced(
                written,
                vstd::utf8::encode_utf8(slug),
                vstd::utf8::encode_utf8(alias),
            )
            &&& !text::occurs(written, vstd::utf8::encode_utf8(slug)) ==> masked_body(
                body,
                slug,
                alias,
            ) == written
        },
{
    if let Some(v) = json::json_read(body) {
        let written = vstd::utf8::encode_utf8(json::json_text(masked_response(v, alias)));
        if !text::occurs(written, vstd::utf8::encode_utf8(slug)) {
            lemma_untouched(written, vstd::utf8::encode_utf8(slug), vstd::utf8::encode_utf8(alias));
        }
    }
}

/// Masking keeps an object an object with the members it had, save those that name the provider, and
/// leaves anything else alone.
pub proof fn lemma_mask_keeps_the_shape(v: JsonView, alias: Seq<char>)
    ensures
        !(v is Object) ==> masked_response(v, alias) == v,
        v matches JsonView::Object(members) ==> (masked_response(
            v,
            alias,
        ) matches JsonView::Object(kept) && forall|name: Seq<char>|
            kept.contains_key(name) <==> members.contains_key(name) && name
                != "system_fingerprint"@ && name != "provider"@ && name != "x_groq"@),
{
    reveal_strlit("system_fingerprint");
    reveal_strlit("provider");
    reveal_strlit("x_groq");
    reveal_strlit("model");
    assert("model"@.len() == 5 && "provider"@.len() == 8 && "x_groq"@.len() == 6
        && "system_fingerprint"@.len() == 18);
    if let JsonView::Object(members) = v {
        let kept = masked_response(v, alias)->Object_0;
        assert forall|name: Seq<char>| kept.contains_key(name) <==> members.contains_key(name)
            && name != "system_fingerprint"@ && name != "provider"@ && name != "x_groq"@ by {}
    }
}

/// What a provider's extra members hold goes out, over whatever the client sent, save for the model;
/// and nothing goes out that neither side put there, save the model and, under the request-time
/// protocol, the provider preferences.
pub proof fn lemma_extra_members_go_out(
    members: Map<Seq<char>, JsonView>,
    slug: Seq<char>,
    extra: Map<Seq<char>, JsonView>,
    privacy: Privacy,
    name: Seq<char>,
)
    requires
        name != "model"@,
        name != "provider"@ || privacy != Privacy::OpenRouter,
    ensures
        ({
            let sent = vetted_members(rewritten(members, slug, extra), privacy);
            &&& extra.contains_key(name) ==> sent.contains_key(name) && sent[name] == extra[name]
            &&& !extra.contains_key(name) && members.contains_key(name) ==> sent.contains_key(name)
                && sent[name] == members[name]
            &&& !extra.contains_key(name) && !members.contains_key(name) ==> !sent.contains_key(
                name,
            )
            &&& sent.contains_key("model"@) && (privacy != Privacy::OpenRouter ==> sent["model"@]
                == JsonView::Text(slug))
        }),
{
}

/// Asking for zero retention keeps the other provider preferences.
pub proof fn lemma_zero_retention_keeps_the_rest(
    preferences: Map<Seq<char>, JsonView>,
    name: Seq<char>,
)
    requires
        name != "zdr"@,
        name != "data_collection"@,
    ensures
        with_zero_retention(Some(JsonView::Object(preferences))).get(name) == JsonView::Object(
            preferences,
        ).get(name),
        with_zero_retention(None).get(name) is None,
{
}

} // verus!
