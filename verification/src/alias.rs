//! Masking by random stored tokens, not hashes.
//!
//! Each provider and each canonical model key gets a random token, minted once and stored. The
//! same model under two providers shares its model token, which keeps cross-provider matching
//! while hiding identity. The real slug lives only behind the [`RevealGate`].

use vstd::prelude::*;

use crate::text;
use crate::text::{chars_of, find_char, same_text, string_of};

verus! {

/// How many characters the token alphabet has: `a` to `z`, then `0` to `9`.
pub const TOKEN_ALPHABET_LEN: usize = 36;

/// The default token length.
pub const TOKEN_LEN: usize = 4;

/// A minted alias: a provider token and a model token.
#[derive(Clone, Debug, PartialEq, Eq, Hash)]
pub struct Alias {
    pub provider_token: String,
    pub model_token: String,
}

/// An alias as it is shown.
pub open spec fn shown(provider_token: Seq<char>, model_token: Seq<char>) -> Seq<char> {
    provider_token + seq![':'] + model_token
}

impl Alias {
    /// The form shown in place of the real name.
    pub open spec fn name(self) -> Seq<char> {
        shown(self.provider_token@, self.model_token@)
    }

    /// The form shown in place of the real name, such as `x7k2:q4m9`.
    pub fn display(&self) -> (r: String)
        ensures
            r@ == self.name(),
    {
        let mut out: String = self.provider_token.clone();
        out.push(':');
        out.append(self.model_token.as_str());
        proof {
            assert(out@ =~= self.name());
        }
        out
    }

    /// The same alias again.
    pub fn duplicate(&self) -> (r: Alias)
        ensures
            r.provider_token@ == self.provider_token@,
            r.model_token@ == self.model_token@,
    {
        Alias {
            provider_token: self.provider_token.clone(),
            model_token: self.model_token.clone(),
        }
    }
}

/// The character at a place of the token alphabet.
pub open spec fn letter(i: int) -> char {
    if i < 26 {
        ('a' as u32 + i) as char
    } else {
        ('0' as u32 + i - 26) as char
    }
}

/// Whether a character is one of the token alphabet.
pub open spec fn in_alphabet(c: char) -> bool {
    'a' <= c <= 'z' || '0' <= c <= '9'
}

/// The character at a place of the token alphabet.
fn letter_at(i: usize) -> (r: char)
    requires
        i < TOKEN_ALPHABET_LEN,
    ensures
        r == letter(i as int),
        in_alphabet(r),
{
    if i < 26 {
        (97 + i as u8) as char
    } else {
        (48 + (i as u8 - 26)) as char
    }
}

/// The token that a list of places spells.
pub fn token_of(places: &Vec<usize>) -> (r: String)
    requires
        forall|i: int| 0 <= i < places@.len() ==> #[trigger] places@[i] < TOKEN_ALPHABET_LEN,
    ensures
        r@ == places@.map_values(|p: usize| letter(p as int)),
        forall|i: int| 0 <= i < r@.len() ==> in_alphabet(#[trigger] r@[i]),
{
    let ghost spelled = places@.map_values(|p: usize| letter(p as int));
    let mut out: String = String::new();
    let mut i: usize = 0;
    while i < places.len()
        invariant
            i <= places@.len(),
            spelled == places@.map_values(|p: usize| letter(p as int)),
            forall|k: int| 0 <= k < places@.len() ==> #[trigger] places@[k] < TOKEN_ALPHABET_LEN,
            out@ == spelled.take(i as int),
            forall|k: int| 0 <= k < out@.len() ==> in_alphabet(#[trigger] out@[k]),
        decreases places@.len() - i,
    {
        let ghost before = out@;
        out.push(letter_at(places[i]));
        proof {
            assert(spelled.take(i + 1) =~= before.push(spelled[i as int]));
            assert forall|k: int| 0 <= k < out@.len() implies in_alphabet(#[trigger] out@[k]) by {
                if k < before.len() {
                    assert(out@[k] == before[k]);
                }
            }
        }
        i = i + 1;
    }
    proof {
        assert(spelled.take(i as int) =~= spelled);
    }
    out
}

/// The generator that tokens are drawn from.
#[verifier::external_type_specification]
#[verifier::external_body]
pub struct ExStdRng(rand::rngs::StdRng);

/// `rand::Rng::gen_range` over `0..bound`: some number of that range. Which one it is rests on the
/// state of the generator.
#[verifier::external_body]
pub(crate) fn draw_below(rng: &mut rand::rngs::StdRng, bound: usize) -> (r: usize)
    requires
        bound > 0,
    ensures
        r < bound,
{
    rand::Rng::gen_range(rng, 0..bound)
}

/// Mints a fresh random token of lower-case letters and digits. It never holds the separator.
pub fn mint_token(rng: &mut rand::rngs::StdRng, len: usize) -> (r: String)
    ensures
        r@.len() == len,
        forall|i: int| 0 <= i < r@.len() ==> in_alphabet(#[trigger] r@[i]),
        !r@.contains(':'),
{
    let mut places: Vec<usize> = Vec::new();
    while places.len() < len
        invariant
            places@.len() <= len,
            forall|i: int| 0 <= i < places@.len() ==> #[trigger] places@[i] < TOKEN_ALPHABET_LEN,
        decreases len - places@.len(),
    {
        places.push(draw_below(rng, TOKEN_ALPHABET_LEN));
    }
    token_of(&places)
}

/// The reveal seam: every unmasking goes through here.
#[derive(Clone, Copy, Debug)]
pub struct RevealGate;

/// Why an unmasking happened; recorded beside it, so that peeks stay visible.
#[derive(Clone, Copy, Debug, PartialEq, Eq, Structural)]
pub enum RevealReason {
    /// The user asked to see the identity.
    UserRequested,
    /// Routing needs the real slug.
    Routing,
    /// The leaderboard was asked to show real slugs.
    Stats,
}

impl RevealReason {
    /// The stored name of the reason.
    pub open spec fn name(self) -> Seq<char> {
        match self {
            RevealReason::UserRequested => "user_requested"@,
            RevealReason::Routing => "routing"@,
            RevealReason::Stats => "stats"@,
        }
    }

    /// The stored name of the reason.
    pub fn as_str(&self) -> (r: &'static str)
        ensures
            r@ == self.name(),
    {
        match self {
            RevealReason::UserRequested => "user_requested",
            RevealReason::Routing => "routing",
            RevealReason::Stats => "stats",
        }
    }

    /// The reason of a stored name; nothing where no reason has it.
    pub fn from_name(s: &str) -> (r: Option<RevealReason>)
        ensures
            forall|k: RevealReason| (#[trigger] k.name()) == s@ <==> r == Some(k),
    {
        proof {
            reveal_strlit("user_requested");
            assert("user_requested"@.len() == 14 && "user_requested"@[0] == 'u');
            reveal_strlit("routing");
            assert("routing"@.len() == 7 && "routing"@[0] == 'r');
            reveal_strlit("stats");
            assert("stats"@.len() == 5 && "stats"@[0] == 's');
        }
        if same_text(s, "user_requested") {
            Some(RevealReason::UserRequested)
        } else if same_text(s, "routing") {
            Some(RevealReason::Routing)
        } else if same_text(s, "stats") {
            Some(RevealReason::Stats)
        } else {
            None
        }
    }
}

impl RevealGate {
    /// Resolves an alias to its real identity by the given lookup, for the given reason. What
    /// comes out is what the lookup finds for this alias, and nothing else.
    pub fn reveal_alias<T, F: FnOnce(&Alias) -> Option<T>>(
        &self,
        alias: &Alias,
        reason: RevealReason,
        lookup: F,
    ) -> (r: Option<T>)
        requires
            call_requires(lookup, (alias,)),
        ensures
            call_ensures(lookup, (alias,), r),
    {
        let _ = reason;
        lookup(alias)
    }
}

/// A stored alias without a separator.
#[derive(Debug)]
pub struct MissingSeparator {
    pub alias: String,
}

impl MissingSeparator {
    /// The error as text.
    pub fn message(&self) -> (r: String)
        ensures
            r@ == "stored alias "@ + self.alias@ + " is missing ':' separator"@,
    {
        let mut out: String = "stored alias ".to_owned();
        out.append(self.alias.as_str());
        out.append(" is missing ':' separator");
        out
    }
}

/// The alias of a shown form: what stands before and behind its first colon.
pub fn alias_from_display(display: &str) -> (r: Result<Alias, MissingSeparator>)
    ensures
        ({
            let at = text::first_of(display@, ':');
            match r {
                Ok(a) => at < display@.len() && a.provider_token@ == display@.take(at)
                    && a.model_token@ == display@.skip(at + 1),
                Err(e) => at == display@.len() && e.alias@ == display@,
            }
        }),
{
    let t: Vec<char> = chars_of(display);
    let at: usize = find_char(&t, 0, ':');
    proof {
        assert(t@.skip(0) =~= t@);
    }
    if at == t.len() {
        return Err(MissingSeparator { alias: display.to_owned() });
    }
    proof {
        assert(t@.subrange(0, at as int) =~= display@.take(at as int));
        assert(t@.subrange(at + 1, t@.len() as int) =~= display@.skip(at + 1));
    }
    Ok(Alias { provider_token: string_of(&t, 0, at), model_token: string_of(&t, at + 1, t.len()) })
}

/// A text that holds a character only from position `k` on has it there first.
proof fn lemma_first_at(t: Seq<char>, c: char, k: int)
    requires
        0 <= k < t.len(),
        t[k] == c,
        forall|i: int| 0 <= i < k ==> t[i] != c,
    ensures
        text::first_of(t, c) == k,
{
    text::lemma_first_of(t, c);
    let n = text::first_of(t, c);
    if n < k {
        assert(t[n] != c);
    }
}

/// Reading back a shown alias gives the alias, for a provider token without the separator. No minted
/// token holds it.
pub proof fn lemma_shown_alias_reads_back(provider: Seq<char>, model: Seq<char>)
    requires
        !provider.contains(':'),
    ensures
        text::first_of(shown(provider, model), ':') == provider.len(),
        shown(provider, model).take(provider.len() as int) == provider,
        shown(provider, model).skip(provider.len() as int + 1) == model,
{
    let t = shown(provider, model);
    assert forall|i: int| 0 <= i < provider.len() implies t[i] != ':' by {
        assert(t[i] == provider[i]);
    }
    lemma_first_at(t, ':', provider.len() as int);
    assert(t.take(provider.len() as int) =~= provider);
    assert(t.skip(provider.len() as int + 1) =~= model);
}

/// Two aliases that are shown alike are alike in both tokens, for provider tokens without the
/// separator.
pub proof fn lemma_shown_aliases_are_distinct(
    p1: Seq<char>,
    m1: Seq<char>,
    p2: Seq<char>,
    m2: Seq<char>,
)
    requires
        !p1.contains(':'),
        !p2.contains(':'),
        shown(p1, m1) == shown(p2, m2),
    ensures
        p1 == p2,
        m1 == m2,
{
    lemma_shown_alias_reads_back(p1, m1);
    lemma_shown_alias_reads_back(p2, m2);
}

/// The alphabet of tokens holds each of its characters at one place.
pub proof fn lemma_letters_are_the_alphabet(i: int, j: int, c: char)
    ensures
        0 <= i < 36 ==> in_alphabet(letter(i)),
        0 <= i < j < 36 ==> letter(i) != letter(j),
        in_alphabet(c) <==> exists|k: int| 0 <= k < 36 && #[trigger] letter(k) == c,
        in_alphabet(c) <==> ('a' <= c <= 'z' || '0' <= c <= '9'),
{
    if 'a' <= c <= 'z' {
        assert(letter(c as u32 - 'a' as u32) == c);
    } else if '0' <= c <= '9' {
        assert(letter(c as u32 - '0' as u32 + 26) == c);
    }
}

} // verus!
