//! The command line's decisions: which CLI is launched and how it is pointed at the proxy, and how
//! rating answers are read.

use vstd::prelude::*;

use crate::config;
use crate::json;
use crate::json::{Json, JsonView, Number};
use crate::text;
use crate::text::{chars_of, has_prefix, parse_integer, same_text, string_of, to_lower, trim};

verus! {

/// Arguments of `run`.
#[derive(Debug)]
pub struct RunArgs {
    /// The CLI to launch with its arguments; empty for a standing proxy.
    pub command: Vec<String>,
    /// Whether the rating prompt is skipped.
    pub no_rate: bool,
    /// Whether this run may route to a no-ZDR endpoint.
    pub route_non_zdr_this_run: bool,
}

/// Arguments of `rate`.
#[derive(Debug)]
pub struct RateArgs {
    /// The session to rate.
    pub session: i64,
    /// How well it performed, from -2 to 2.
    pub performance: i64,
    /// How hard the task turned out to be, from 0 to 4.
    pub difficulty: i64,
    /// The rating that this one corrects.
    pub supersedes: Option<i64>,
}

/// Arguments of `stats`.
#[derive(Debug)]
pub struct StatsArgs {
    /// The column to sort by.
    pub sort: String,
    /// Whether the order is reversed.
    pub asc: bool,
    /// Whether real slugs are shown, and the reveals journaled.
    pub reveal_names: bool,
}

/// The session-level no-ZDR disclosure. It names no alias: that would unblind the session, and
/// nobody can tell which requests go to the no-ZDR endpoint, so all of it counts as not private.
pub open spec fn disclosure_text() -> Seq<char> {
    "!! NON-ZDR SESSION: this pool contains a model on a non-ZDR endpoint — its provider may log or train on prompts. Which alias it is stays blind, so treat EVERYTHING sent in this session as non-private."@
}

/// The session-level no-ZDR disclosure.
pub fn non_zdr_disclosure() -> (r: &'static str)
    ensures
        r@ == disclosure_text(),
{
    "!! NON-ZDR SESSION: this pool contains a model on a non-ZDR endpoint — its provider may log or train on prompts. Which alias it is stays blind, so treat EVERYTHING sent in this session as non-private."
}

/// The disclosure to repeat after a session: for an armed pool and a launched command, whose
/// full-screen interface buried the first copy. A standing proxy never covers the terminal.
pub fn disclosure_reassertion(non_zdr_armed: bool, launched_command: &Vec<String>) -> (r: Option<
    &'static str,
>)
    ensures
        match r {
            Some(t) => non_zdr_armed && launched_command@.len() > 0 && t@ == disclosure_text(),
            None => !non_zdr_armed || launched_command@.len() == 0,
        },
{
    if non_zdr_armed && launched_command.len() > 0 {
        Some(non_zdr_disclosure())
    } else {
        None
    }
}

/// One letter and the points it stands for.
#[derive(Clone, Copy, Debug, PartialEq, Eq, Structural)]
pub struct Shortcut {
    pub letter: char,
    pub points: i64,
}

/// The letters of the performance scale: terrible, poor, neutral, good, excellent.
pub fn perf_shortcuts() -> (r: Vec<Shortcut>)
    ensures
        r@ == seq![
            Shortcut { letter: 't', points: (-2) as i64 },
            Shortcut { letter: 'p', points: (-1) as i64 },
            Shortcut { letter: 'n', points: 0 },
            Shortcut { letter: 'g', points: 1 },
            Shortcut { letter: 'e', points: 2 },
        ],
{
    vec![
        Shortcut { letter: 't', points: -2 },
        Shortcut { letter: 'p', points: -1 },
        Shortcut { letter: 'n', points: 0 },
        Shortcut { letter: 'g', points: 1 },
        Shortcut { letter: 'e', points: 2 },
    ]
}

/// The letters of the difficulty scale: trivial, easy, moderate, hard, very hard.
pub fn diff_shortcuts() -> (r: Vec<Shortcut>)
    ensures
        r@ == seq![
            Shortcut { letter: 't', points: 0 },
            Shortcut { letter: 'e', points: 1 },
            Shortcut { letter: 'm', points: 2 },
            Shortcut { letter: 'h', points: 3 },
            Shortcut { letter: 'v', points: 4 },
        ],
{
    vec![
        Shortcut { letter: 't', points: 0 },
        Shortcut { letter: 'e', points: 1 },
        Shortcut { letter: 'm', points: 2 },
        Shortcut { letter: 'h', points: 3 },
        Shortcut { letter: 'v', points: 4 },
    ]
}

/// The points of the first shortcut with this letter.
pub open spec fn points_of(shortcuts: Seq<Shortcut>, letter: char) -> Option<i64>
    decreases shortcuts.len(),
{
    if shortcuts.len() == 0 {
        None
    } else if shortcuts[0].letter == letter {
        Some(shortcuts[0].points)
    } else {
        points_of(shortcuts.skip(1), letter)
    }
}

/// What a rating line says: a whole number in range, or one letter in either case.
pub open spec fn rating_of(t: Seq<char>, lo: i64, hi: i64, shortcuts: Seq<Shortcut>) -> Option<i64> {
    match text::integer_of(t) {
        Some(n) => if lo <= n <= hi {
            Some(n as i64)
        } else if t.len() == 1 {
            points_of(shortcuts, text::lowered(t[0]))
        } else {
            None
        },
        None => if t.len() == 1 {
            points_of(shortcuts, text::lowered(t[0]))
        } else {
            None
        },
    }
}

/// Reads one rating line: a whole number in range, or one letter in either case; nothing for
/// anything else.
pub fn parse_rating(s: &str, lo: i64, hi: i64, shortcuts: &[Shortcut]) -> (r: Option<i64>)
    ensures
        r == rating_of(s@, lo, hi, shortcuts@),
{
    if let Some(v) = parse_integer(s) {
        if lo <= v && v <= hi {
            return Some(v);
        }
    }
    let t: Vec<char> = chars_of(s);
    if t.len() != 1 {
        return None;
    }
    find_points(shortcuts, to_lower(t[0]))
}

/// The points of the first shortcut with this letter.
fn find_points(shortcuts: &[Shortcut], letter: char) -> (r: Option<i64>)
    ensures
        r == points_of(shortcuts@, letter),
{
    let mut i: usize = 0;
    proof {
        assert(shortcuts@.skip(0) =~= shortcuts@);
    }
    while i < shortcuts.len()
        invariant
            i <= shortcuts@.len(),
            points_of(shortcuts@.skip(i as int), letter) == points_of(shortcuts@, letter),
        decreases shortcuts@.len() - i,
    {
        if shortcuts[i].letter == letter {
            return Some(shortcuts[i].points);
        }
        proof {
            assert(shortcuts@.skip(i as int).skip(1) =~= shortcuts@.skip(i + 1));
        }
        i = i + 1;
    }
    None
}

/// What to do with an answer to a rating question.
#[derive(Clone, Copy, Debug, PartialEq, Eq, Structural)]
pub enum Answer {
    /// An empty line: no rating.
    Skip,
    /// The points given.
    Points(i64),
    /// Neither: ask again.
    Again,
}

/// Reads an answer line: white space around it does not count.
pub fn read_answer(line: &str, lo: i64, hi: i64, shortcuts: &[Shortcut]) -> (r: Answer)
    ensures
        ({
            let t = text::trimmed(line@);
            r == (if t.len() == 0 {
                Answer::Skip
            } else {
                match rating_of(t, lo, hi, shortcuts@) {
                    Some(v) => Answer::Points(v),
                    None => Answer::Again,
                }
            })
        }),
{
    let t: String = trim(line);
    if chars_of(t.as_str()).len() == 0 {
        return Answer::Skip;
    }
    match parse_rating(t.as_str(), lo, hi, shortcuts) {
        Some(v) => Answer::Points(v),
        None => Answer::Again,
    }
}

/// What stands behind the last slash.
pub open spec fn last_segment(t: Seq<char>) -> Seq<char>
    decreases t.len(),
{
    if t.len() == 0 || t.last() == '/' {
        Seq::empty()
    } else {
        last_segment(t.drop_last()).push(t.last())
    }
}

/// The name of the file that a path ends in. Slashes and `.` components at the end do not count; a
/// path that ends in `..`, or is `.` or empty, names no file.
pub open spec fn file_name(t: Seq<char>) -> Option<Seq<char>>
    decreases t.len(),
{
    if t.len() == 0 {
        None
    } else if t.last() == '/' {
        file_name(t.drop_last())
    } else if t.len() >= 2 && t.last() == '.' && t[t.len() - 2] == '/' {
        file_name(t.drop_last())
    } else {
        let name = last_segment(t);
        if name == "."@ || name == ".."@ {
            None
        } else {
            Some(name)
        }
    }
}

/// Where the last segment of the first `end` characters begins.
proof fn lemma_last_segment(t: Seq<char>, from: int)
    requires
        0 <= from <= t.len(),
        from > 0 ==> t[from - 1] == '/',
        forall|i: int| from <= i < t.len() ==> t[i] != '/',
    ensures
        last_segment(t) == t.skip(from),
    decreases t.len(),
{
    if from < t.len() {
        lemma_last_segment(t.drop_last(), from);
        assert(t.drop_last().skip(from).push(t.last()) =~= t.skip(from));
    } else {
        assert(t.skip(from) =~= Seq::empty());
    }
}

/// The name of the file that a path ends in.
pub fn name_of_file(path: &str) -> (r: Option<String>)
    ensures
        config::owned_text(r) == file_name(path@),
{
    let t: Vec<char> = chars_of(path);
    let mut end: usize = t.len();
    proof {
        assert(t@.take(end as int) =~= t@);
    }
    while end > 0 && (t[end - 1] == '/' || (end >= 2 && t[end - 1] == '.' && t[end - 2] == '/'))
        invariant
            end <= t@.len(),
            file_name(t@.take(end as int)) == file_name(t@),
        decreases end,
    {
        proof {
            assert(t@.take(end as int).drop_last() =~= t@.take(end - 1));
        }
        end = end - 1;
    }
    if end == 0 {
        return None;
    }
    let mut from: usize = end;
    while from > 0 && t[from - 1] != '/'
        invariant
            from <= end <= t@.len(),
            forall|i: int| from <= i < end ==> t@[i] != '/',
        decreases from,
    {
        from = from - 1;
    }
    let name: String = string_of(&t, from, end);
    proof {
        let whole = t@.take(end as int);
        lemma_last_segment(whole, from as int);
        assert(whole.skip(from as int) =~= t@.subrange(from as int, end as int));
    }
    if same_text(name.as_str(), ".") || same_text(name.as_str(), "..") {
        None
    } else {
        Some(name)
    }
}

/// Which CLI-specific setup is applied to a launched command.
#[derive(Clone, Copy, Debug, PartialEq, Eq, Structural)]
pub enum CliAdapter {
    OpenCode,
    Pi,
    /// Only the universal endpoint variables.
    Generic,
}

impl CliAdapter {
    /// The adapter of a command, by the name of its file.
    pub open spec fn of(argv0: Seq<char>) -> CliAdapter {
        match file_name(argv0) {
            Some(name) => if name == "opencode"@ {
                CliAdapter::OpenCode
            } else if name == "pi"@ {
                CliAdapter::Pi
            } else {
                CliAdapter::Generic
            },
            None => CliAdapter::Generic,
        }
    }

    /// Detects the adapter by the name of the executable's file, so that both `pi` and
    /// `/some/path/to/pi` match.
    pub fn detect(argv0: &str) -> (r: CliAdapter)
        ensures
            r == CliAdapter::of(argv0@),
    {
        match name_of_file(argv0) {
            Some(name) => if same_text(name.as_str(), "opencode") {
                CliAdapter::OpenCode
            } else if same_text(name.as_str(), "pi") {
                CliAdapter::Pi
            } else {
                CliAdapter::Generic
            },
            None => CliAdapter::Generic,
        }
    }
}

/// Whether an argument picks a model.
pub open spec fn picks_model(arg: Seq<char>) -> bool {
    arg == "--model"@ || text::begins_with(arg, "--model="@)
}

/// Whether the user has picked a model on the command line; then it must not be overridden.
pub fn has_model_arg(args: &[String]) -> (r: bool)
    ensures
        r == exists|i: int| 0 <= i < args@.len() && picks_model((#[trigger] args@[i])@),
{
    let mut i: usize = 0;
    while i < args.len()
        invariant
            i <= args@.len(),
            forall|k: int| 0 <= k < i ==> !picks_model((#[trigger] args@[k])@),
        decreases args@.len() - i,
    {
        if same_text(args[i].as_str(), "--model") || has_prefix(args[i].as_str(), "--model=") {
            return true;
        }
        i = i + 1;
    }
    false
}

/// `blindcoder/` and the alias: the model as a launched CLI shows it.
pub open spec fn shown_model(alias: Seq<char>) -> Seq<char> {
    "blindcoder/"@ + alias
}

/// `blindcoder/` and the alias.
fn model_name(alias: &str) -> (r: String)
    ensures
        r@ == shown_model(alias@),
{
    let mut out: String = "blindcoder/".to_owned();
    out.append(alias);
    out
}

/// The OpenCode config that points it at the proxy, with the alias as its only model.
pub open spec fn opencode_config(base_url: Seq<char>, alias: Seq<char>) -> JsonView {
    JsonView::Object(
        map![
            "provider"@ => JsonView::Object(
                map![
                    "blindcoder"@ => JsonView::Object(
                        map![
                            "npm"@ => JsonView::Text("@ai-sdk/openai-compatible"@),
                            "name"@ => JsonView::Text("blindcoder (blind router)"@),
                            "options"@ => JsonView::Object(
                                map![
                                    "baseURL"@ => JsonView::Text(base_url),
                                    "apiKey"@ => JsonView::Text("blindcoder"@)
                                ],
                            ),
                            "models"@ => JsonView::Object(
                                map![
                                    alias => JsonView::Object(map!["name"@ => JsonView::Text(alias)])
                                ],
                            )
                        ],
                    )
                ],
            ),
            "model"@ => JsonView::Text(shown_model(alias))
        ],
    )
}

/// The OpenCode config, as text.
pub fn opencode_config_content(base_url: &str, alias: &str) -> (r: String)
    ensures
        r@ == json::json_text(opencode_config(base_url@, alias@)),
{
    opencode_document(base_url, alias).to_text()
}

/// The OpenCode config that points it at the proxy, with the alias as its only model.
pub fn opencode_document(base_url: &str, alias: &str) -> (r: Json)
    ensures
        r@ == opencode_config(base_url@, alias@),
{
    let mut options: Json = Json::Object(Vec::new());
    options.insert("baseURL", Json::Text(base_url.to_owned()));
    options.insert("apiKey", Json::Text("blindcoder".to_owned()));
    let mut entry: Json = Json::Object(Vec::new());
    entry.insert("name", Json::Text(alias.to_owned()));
    let mut models: Json = Json::Object(Vec::new());
    models.insert(alias, entry);
    let mut ours: Json = Json::Object(Vec::new());
    ours.insert("npm", Json::Text("@ai-sdk/openai-compatible".to_owned()));
    ours.insert("name", Json::Text("blindcoder (blind router)".to_owned()));
    ours.insert("options", options);
    ours.insert("models", models);
    let mut provider: Json = Json::Object(Vec::new());
    provider.insert("blindcoder", ours);
    let mut root: Json = Json::Object(Vec::new());
    root.insert("provider", provider);
    root.insert("model", Json::Text(model_name(alias)));
    root
}

/// The proxy as a pi provider, with the alias as its only model. The output limit is kept well
/// below pi's default, because some gateways count it against their per-minute token gates.
pub open spec fn pi_provider(base_url: Seq<char>, alias: Seq<char>) -> JsonView {
    JsonView::Object(
        map![
            "baseUrl"@ => JsonView::Text(base_url),
            "api"@ => JsonView::Text("openai-completions"@),
            "apiKey"@ => JsonView::Text("blindcoder"@),
            "models"@ => JsonView::Array(
                seq![
                    JsonView::Object(
                        map![
                            "id"@ => JsonView::Text(alias),
                            "contextWindow"@ => JsonView::Number(Number::Unsigned(128000)),
                            "maxTokens"@ => JsonView::Number(Number::Unsigned(4096))
                        ],
                    ),
                ],
            )
        ],
    )
}

/// The members of an optional document; none where it is no object.
pub open spec fn members_or_none(v: Option<JsonView>) -> Map<Seq<char>, JsonView> {
    match v {
        Some(JsonView::Object(members)) => members,
        _ => Map::empty(),
    }
}

/// The user's pi models with the proxy's provider merged in.
pub open spec fn pi_models(existing: Option<JsonView>, base_url: Seq<char>, alias: Seq<char>) -> JsonView {
    let root = members_or_none(existing);
    let providers = members_or_none(JsonView::Object(root).get("providers"@));
    JsonView::Object(
        root.insert(
            "providers"@,
            JsonView::Object(providers.insert("blindcoder"@, pi_provider(base_url, alias))),
        ),
    )
}

/// The user's other providers, and everything else in the file, survive the merge.
pub proof fn lemma_pi_merge_preserves(
    existing: JsonView,
    base_url: Seq<char>,
    alias: Seq<char>,
    key: Seq<char>,
)
    requires
        existing is Object,
    ensures
        key != "providers"@ ==> pi_models(Some(existing), base_url, alias).get(key) == existing.get(
            key,
        ),
        key != "blindcoder"@ && (existing.get("providers"@) matches Some(p) && p is Object)
            ==> pi_models(Some(existing), base_url, alias).get("providers"@)->Some_0.get(key)
            == existing.get("providers"@)->Some_0.get(key),
        pi_models(Some(existing), base_url, alias).get("providers"@)->Some_0.get("blindcoder"@)
            == Some(pi_provider(base_url, alias)),
{
}

/// Merges the proxy's provider into the user's pi models. What is not an object is replaced.
pub fn merge_pi_models(existing: Option<Json>, base_url: &str, alias: &str) -> (r: Json)
    ensures
        r@ == pi_models(
            match existing {
                Some(j) => Some(j@),
                None => None,
            },
            base_url@,
            alias@,
        ),
{
    let mut root: Json = match existing {
        Some(j) => if j.is_object() {
            j
        } else {
            Json::Object(Vec::new())
        },
        None => Json::Object(Vec::new()),
    };
    let mut providers: Json = match root.get("providers") {
        Some(p) => if p.is_object() {
            p.duplicate()
        } else {
            Json::Object(Vec::new())
        },
        None => Json::Object(Vec::new()),
    };
    let mut entry: Json = Json::Object(Vec::new());
    entry.insert("id", Json::Text(alias.to_owned()));
    entry.insert("contextWindow", Json::Number(Number::Unsigned(128000)));
    entry.insert("maxTokens", Json::Number(Number::Unsigned(4096)));
    let mut models: Vec<Json> = Vec::new();
    models.push(entry);
    proof {
        json::lemma_items(models@);
        assert(json::items_view(models@) =~= seq![entry@]);
    }
    let mut ours: Json = Json::Object(Vec::new());
    ours.insert("baseUrl", Json::Text(base_url.to_owned()));
    ours.insert("api", Json::Text("openai-completions".to_owned()));
    ours.insert("apiKey", Json::Text("blindcoder".to_owned()));
    ours.insert("models", Json::Array(models));
    providers.insert("blindcoder", ours);
    root.insert("providers", providers);
    root
}

/// What an optional file holds, where it is JSON.
pub open spec fn file_document(file: Option<Seq<char>>) -> Option<JsonView> {
    match file {
        Some(t) => json::json_read(vstd::utf8::encode_utf8(t)),
        None => None,
    }
}

/// The user's pi models file with the proxy's provider merged in, as text. A file that is not JSON
/// counts as none.
pub fn pi_models_json(existing: Option<&str>, base_url: &str, alias: &str) -> (r: String)
    ensures
        r@ == json::json_pretty_text(
            pi_models(file_document(config::text_of(existing)), base_url@, alias@),
        ),
{
    let document: Option<Json> = match existing {
        Some(t) => json::parse(t.as_bytes()),
        None => None,
    };
    merge_pi_models(document, base_url, alias).to_pretty_text()
}

/// A letter stands for the points of the first shortcut that has it.
pub proof fn lemma_first_shortcut_counts(shortcuts: Seq<Shortcut>, letter: char, i: int)
    requires
        0 <= i <= shortcuts.len(),
        forall|k: int| 0 <= k < i ==> (#[trigger] shortcuts[k]).letter != letter,
        i < shortcuts.len() ==> shortcuts[i].letter == letter,
    ensures
        i < shortcuts.len() ==> points_of(shortcuts, letter) == Some(shortcuts[i].points),
        i == shortcuts.len() ==> points_of(shortcuts, letter) is None,
    decreases i,
{
    if i > 0 {
        let rest = shortcuts.skip(1);
        assert(shortcuts[0].letter != letter);
        assert forall|k: int| 0 <= k < i - 1 implies (#[trigger] rest[k]).letter != letter by {
            assert(rest[k] == shortcuts[k + 1]);
        }
        lemma_first_shortcut_counts(rest, letter, i - 1);
    }
}

/// A number in range is the rating it writes, and one out of range is none.
pub proof fn lemma_number_is_its_rating(n: int, lo: i64, hi: i64, shortcuts: Seq<Shortcut>)
    ensures
        lo <= n <= hi ==> rating_of(text::decimal(n), lo, hi, shortcuts) == Some(n as i64),
        (n < lo || n > hi) && !(0 <= n <= 9) ==> rating_of(
            text::decimal(n),
            lo,
            hi,
            shortcuts,
        ) is None,
{
    text::lemma_decimal_reads_back(n);
    if n < 0 {
        text::lemma_digits_read_back((-n) as nat);
    } else if n > 9 {
        text::lemma_digits_read_back((n as nat) / 10);
    }
}

/// One letter is the points of its shortcut in either case, and a longer text that is no number is
/// no rating.
pub proof fn lemma_letters_in_either_case(
    c: char,
    upper: char,
    t: Seq<char>,
    lo: i64,
    hi: i64,
    shortcuts: Seq<Shortcut>,
)
    requires
        'a' <= c <= 'z',
        'A' <= upper <= 'Z',
        upper as u32 - 'A' as u32 == c as u32 - 'a' as u32,
    ensures
        rating_of(seq![c], lo, hi, shortcuts) == points_of(shortcuts, c),
        rating_of(seq![upper], lo, hi, shortcuts) == points_of(shortcuts, c),
        t.len() != 1 && text::integer_of(t) is None ==> rating_of(t, lo, hi, shortcuts) is None,
{
    assert(!text::is_digit(seq![c][0]));
    assert(!text::is_digit(seq![upper][0]));
    text::lemma_lowered(upper);
    text::lemma_lowered(c);
}

/// Whatever is read as a rating is a number in range or the points of a shortcut.
pub proof fn lemma_rating_is_in_range_or_a_shortcut(
    t: Seq<char>,
    lo: i64,
    hi: i64,
    shortcuts: Seq<Shortcut>,
)
    requires
        forall|k: int|
            0 <= k < shortcuts.len() ==> lo <= (#[trigger] shortcuts[k]).points <= hi,
    ensures
        rating_of(t, lo, hi, shortcuts) matches Some(n) ==> lo <= n <= hi,
{
    if t.len() == 1 {
        lemma_points_are_a_shortcuts(shortcuts, text::lowered(t[0]));
    }
}

/// The points of a letter are those of some shortcut.
proof fn lemma_points_are_a_shortcuts(shortcuts: Seq<Shortcut>, letter: char)
    ensures
        points_of(shortcuts, letter) matches Some(n) ==> exists|k: int|
            0 <= k < shortcuts.len() && (#[trigger] shortcuts[k]).points == n,
    decreases shortcuts.len(),
{
    if shortcuts.len() > 0 {
        if shortcuts[0].letter == letter {
            assert(shortcuts[0].points == points_of(shortcuts, letter)->Some_0);
        } else {
            let rest = shortcuts.skip(1);
            lemma_points_are_a_shortcuts(rest, letter);
            if let Some(n) = points_of(rest, letter) {
                let k = choose|k: int| 0 <= k < rest.len() && (#[trigger] rest[k]).points == n;
                assert(shortcuts[k + 1].points == n);
            }
        }
    }
}

/// The directory has no say in the name of a file, nor has a slash at the end.
pub proof fn lemma_file_behind_its_directory(dir: Seq<char>, name: Seq<char>)
    requires
        name.len() > 0,
        forall|i: int| 0 <= i < name.len() ==> #[trigger] name[i] != '/',
        name != "."@ && name != ".."@,
    ensures
        file_name(name) == Some(name),
        file_name(dir + seq!['/'] + name) == Some(name),
        file_name(dir + seq!['/'] + name + seq!['/']) == Some(name),
{
    reveal_strlit(".");
    let path = dir + seq!['/'] + name;
    lemma_segment_behind_a_slash(dir, name);
    lemma_segment_alone(name);
    assert(name.last() == name[name.len() - 1]);
    assert(path.last() == name.last());
    if path.last() == '.' && path[path.len() - 2] == '/' {
        if name.len() > 1 {
            assert(path[path.len() - 2] == name[name.len() - 2]);
        } else {
            assert(name =~= "."@);
        }
    }
    assert((path + seq!['/']).drop_last() =~= path);
}

/// A text without a slash is its own last segment.
proof fn lemma_segment_alone(name: Seq<char>)
    requires
        forall|i: int| 0 <= i < name.len() ==> #[trigger] name[i] != '/',
    ensures
        last_segment(name) == name,
    decreases name.len(),
{
    if name.len() > 0 {
        assert(name.last() == name[name.len() - 1]);
        lemma_segment_alone(name.drop_last());
        assert(name.drop_last().push(name.last()) =~= name);
    } else {
        assert(name =~= Seq::empty());
    }
}

/// The last segment is what stands behind the last slash.
proof fn lemma_segment_behind_a_slash(dir: Seq<char>, name: Seq<char>)
    requires
        forall|i: int| 0 <= i < name.len() ==> #[trigger] name[i] != '/',
    ensures
        last_segment(dir + seq!['/'] + name) == name,
    decreases name.len(),
{
    let path = dir + seq!['/'] + name;
    if name.len() > 0 {
        assert(name.last() == name[name.len() - 1]);
        assert(path.drop_last() =~= dir + seq!['/'] + name.drop_last());
        lemma_segment_behind_a_slash(dir, name.drop_last());
        assert(name.drop_last().push(name.last()) =~= name);
    } else {
        assert(path.last() == '/');
        assert(name =~= Seq::empty());
    }
}

/// A command has its adapter wherever it is installed.
pub proof fn lemma_adapter_by_the_file_alone(dir: Seq<char>, other: Seq<char>)
    requires
        other.len() > 0,
        forall|i: int| 0 <= i < other.len() ==> #[trigger] other[i] != '/',
        other != "."@ && other != ".."@,
        other != "opencode"@ && other != "pi"@,
    ensures
        CliAdapter::of("opencode"@) == CliAdapter::OpenCode,
        CliAdapter::of(dir + seq!['/'] + "opencode"@) == CliAdapter::OpenCode,
        CliAdapter::of("pi"@) == CliAdapter::Pi,
        CliAdapter::of(dir + seq!['/'] + "pi"@) == CliAdapter::Pi,
        CliAdapter::of(other) == CliAdapter::Generic,
        CliAdapter::of(dir + seq!['/'] + other) == CliAdapter::Generic,
{
    reveal_strlit("opencode");
    reveal_strlit("pi");
    reveal_strlit(".");
    reveal_strlit("..");
    assert("opencode"@.len() == 8 && "pi"@.len() == 2 && "."@.len() == 1 && ".."@.len() == 2);
    assert("pi"@[0] == 'p' && ".."@[0] == '.');
    lemma_file_behind_its_directory(dir, "opencode"@);
    lemma_file_behind_its_directory(dir, "pi"@);
    lemma_file_behind_its_directory(dir, other);
}

/// A model is picked by the long option, alone or with a value behind an equals sign, and by no
/// other argument.
pub proof fn lemma_options_that_pick_a_model(arg: Seq<char>, value: Seq<char>)
    ensures
        picks_model("--model"@),
        picks_model("--model="@ + value),
        picks_model(arg) && arg != "--model"@ ==> arg.len() >= 8 && arg.take(8) == "--model="@,
{
    reveal_strlit("--model=");
    assert(("--model="@ + value).subrange(0, 8) =~= "--model="@);
    if picks_model(arg) && arg != "--model"@ {
        assert(arg.take(8) =~= arg.subrange(0, 8));
    }
}

/// The configs that point a command at the proxy hold its address, and the alias as their one
/// model.
pub proof fn lemma_configs_hold_address_and_alias(
    existing: Option<JsonView>,
    base_url: Seq<char>,
    alias: Seq<char>,
    other: Seq<char>,
)
    ensures
        ({
            let c = opencode_config(base_url, alias);
            let provider = c.get("provider"@)->Some_0.get("blindcoder"@)->Some_0;
            &&& c.get("model"@) == Some(JsonView::Text("blindcoder/"@ + alias))
            &&& provider.get("options"@)->Some_0.get("baseURL"@) == Some(JsonView::Text(base_url))
            &&& provider.get("models"@)->Some_0.get(alias) is Some
            &&& other != alias ==> provider.get("models"@)->Some_0.get(other) is None
        }),
        ({
            let p = pi_models(existing, base_url, alias).get("providers"@)->Some_0.get(
                "blindcoder"@,
            )->Some_0;
            &&& p.get("baseUrl"@) == Some(JsonView::Text(base_url))
            &&& p.get("models"@)->Some_0.item(0)->Some_0.get("id"@) == Some(JsonView::Text(alias))
            &&& p.get("models"@)->Some_0.item(1) is None
        }),
        !(existing matches Some(v) && v is Object) && other != "providers"@ ==> pi_models(
            existing,
            base_url,
            alias,
        ).get(other) is None,
{
    reveal_strlit("provider");
    reveal_strlit("model");
    reveal_strlit("npm");
    reveal_strlit("name");
    reveal_strlit("options");
    reveal_strlit("models");
    reveal_strlit("baseURL");
    reveal_strlit("apiKey");
    reveal_strlit("baseUrl");
    reveal_strlit("api");
    reveal_strlit("id");
    reveal_strlit("contextWindow");
    reveal_strlit("maxTokens");
    assert("provider"@.len() == 8 && "model"@.len() == 5 && "npm"@.len() == 3 && "name"@.len() == 4
        && "options"@.len() == 7 && "models"@.len() == 6 && "baseURL"@.len() == 7 && "apiKey"@.len()
        == 6 && "baseUrl"@.len() == 7 && "api"@.len() == 3 && "id"@.len() == 2
        && "contextWindow"@.len() == 13 && "maxTokens"@.len() == 9);
    assert("models"@[0] == 'm' && "apiKey"@[0] == 'a');
}

} // verus!
