//! The decisions of the forwarding proxy: how a call is answered or forwarded, how responses are
//! masked and accounted, and what a session's outcome is. The sockets are the program's part.

use vstd::prelude::*;

use crate::backend::{AbortReason, ErrorKind, SessionEvent, SessionOutcome, Totals, UsageSnapshot};
use crate::backend::{Pick, VettedEndpoint, VettedRequest};
use crate::config;
use crate::config::Privacy;
use crate::dates;
use crate::dates::{day_of, format_expiry, format_hour};
use crate::json;
use crate::json::{Json, JsonView};
use crate::rewrite;
use crate::rewrite::{mask_sse_line, parse_usage, sse_payload};
use crate::text;
use crate::text::{chars_of, char_match, has_suffix, has_text, same_text, string_of};

verus! {

/// The kind of failure that an upstream status stands for.
pub open spec fn status_kind(status: u16) -> ErrorKind {
    if status == 429 {
        ErrorKind::RateLimit
    } else if status == 401 || status == 403 {
        ErrorKind::Auth
    } else if status == 413 {
        ErrorKind::TooLarge
    } else if status == 404 {
        ErrorKind::Unavailable
    } else if 500 <= status <= 599 {
        ErrorKind::Http5xx
    } else if 400 <= status <= 499 {
        ErrorKind::BadRequest
    } else {
        ErrorKind::Unknown
    }
}

/// Maps an upstream status to the kind of failure that it stands for.
pub fn classify_http(status: u16) -> (r: ErrorKind)
    ensures
        r == status_kind(status),
{
    match status {
        429 => ErrorKind::RateLimit,
        401 | 403 => ErrorKind::Auth,
        413 => ErrorKind::TooLarge,
        404 => ErrorKind::Unavailable,
        s => if 500 <= s && s <= 599 {
            ErrorKind::Http5xx
        } else if 400 <= s && s <= 499 {
            ErrorKind::BadRequest
        } else {
            ErrorKind::Unknown
        },
    }
}

/// Whether `status` is one that an HTTP response can carry.
pub open spec fn valid_status(status: int) -> bool {
    100 <= status <= 999
}

/// A transport or body failure of a session.
#[derive(Clone, Copy, Debug, PartialEq, Eq, Structural)]
pub enum Failure {
    /// No response from upstream.
    Network,
    /// A success whose body carried an error.
    BodyError,
    /// An upstream error status.
    Http(u16),
}

/// The numeric form of a failure; 0 stands for none.
pub open spec fn failure_code(f: Failure) -> u64 {
    match f {
        Failure::Network => 1,
        Failure::BodyError => 2,
        Failure::Http(status) => status as u64,
    }
}

/// The failure of a numeric form, where it is one.
pub open spec fn failure_of(code: u64) -> Option<Failure> {
    if code == 1 {
        Some(Failure::Network)
    } else if code == 2 {
        Some(Failure::BodyError)
    } else if code != 0 && valid_status(code as int % 0x1_0000) {
        Some(Failure::Http((code % 0x1_0000) as u16))
    } else {
        None
    }
}

impl Failure {
    /// Whether an HTTP failure carries a status that a response can carry.
    pub open spec fn valid(self) -> bool {
        self matches Failure::Http(status) ==> valid_status(status as int)
    }

    /// The numeric form of the failure.
    pub fn encode(self) -> (r: u64)
        ensures
            r == failure_code(self),
    {
        match self {
            Failure::Network => 1,
            Failure::BodyError => 2,
            Failure::Http(status) => status as u64,
        }
    }

    /// The failure of a numeric form, where it is one.
    pub fn decode(v: u64) -> (r: Option<Failure>)
        ensures
            r == failure_of(v),
    {
        if v == 1 {
            return Some(Failure::Network);
        }
        if v == 2 {
            return Some(Failure::BodyError);
        }
        let status: u16 = (v % 0x1_0000) as u16;
        if v != 0 && 100 <= status && status <= 999 {
            Some(Failure::Http(status))
        } else {
            None
        }
    }

    /// The kind that a failure is learned as.
    pub open spec fn tag(self) -> ErrorKind {
        match self {
            Failure::Network => ErrorKind::Network,
            Failure::BodyError => ErrorKind::BadRequest,
            Failure::Http(status) => status_kind(status),
        }
    }

    /// The upstream status of a failure that has one.
    pub open spec fn code(self) -> Option<u16> {
        match self {
            Failure::Http(status) => Some(status),
            _ => None,
        }
    }

    /// The kind that the failure is learned as.
    pub fn kind(self) -> (r: ErrorKind)
        ensures
            r == self.tag(),
    {
        match self {
            Failure::Network => ErrorKind::Network,
            Failure::BodyError => ErrorKind::BadRequest,
            Failure::Http(status) => classify_http(status),
        }
    }

    /// The upstream status, where the failure has one.
    pub fn status(self) -> (r: Option<u16>)
        ensures
            r == self.code(),
    {
        match self {
            Failure::Http(status) => Some(status),
            _ => None,
        }
    }
}

/// Decoding undoes encoding, and no failure has the code of "none".
pub proof fn lemma_failure_round_trips(f: Failure)
    requires
        f.valid(),
    ensures
        failure_of(failure_code(f)) == Some(f),
        failure_code(f) != 0,
        failure_of(0) is None,
        f is Http ==> failure_code(f) >= 100,
{
}

/// A completion that ended badly without failing.
#[derive(Clone, Copy, Debug, PartialEq, Eq, Structural)]
pub enum ContentIssue {
    /// Cut off at the output limit.
    Truncated,
    /// Refused by the content filter.
    Refused,
}

/// The content issue that a finish reason reports.
pub open spec fn issue_of(reason: Seq<char>) -> Option<ContentIssue> {
    if reason == "length"@ {
        Some(ContentIssue::Truncated)
    } else if reason == "content_filter"@ {
        Some(ContentIssue::Refused)
    } else {
        None
    }
}

/// A sum that wraps at 64 bits.
pub open spec fn wrapped(a: u64, b: u64) -> u64 {
    ((a + b) % 0x1_0000_0000_0000_0000) as u64
}

/// Usage and failure signals of one session. Every clean completion and every failure gets a stamp
/// from one counter, and the session's tag goes by whichever stamp is newer.
#[derive(Clone, Copy, Debug, PartialEq, Eq, Structural)]
pub struct Cumulative {
    pub prompt: u64,
    pub completion: u64,
    pub cached_prompt: u64,
    /// In billionths of a dollar.
    pub cost_nano: u64,
    pub has_cost: bool,
    /// The last stamp given out.
    pub seq: u64,
    /// The stamp of the last clean completion; 0 where there is none.
    pub last_success_seq: u64,
    /// The stamp of the last failure; 0 where there is none.
    pub last_failure_seq: u64,
    /// The last failure, encoded.
    pub last_failure: u64,
    pub content_issue: Option<ContentIssue>,
}

impl Default for Cumulative {
    /// A session before its first response.
    fn default() -> (r: Cumulative)
        ensures
            r == Cumulative::fresh(),
    {
        Cumulative {
            prompt: 0,
            completion: 0,
            cached_prompt: 0,
            cost_nano: 0,
            has_cost: false,
            seq: 0,
            last_success_seq: 0,
            last_failure_seq: 0,
            last_failure: 0,
            content_issue: None,
        }
    }
}

impl Cumulative {
    /// A session before its first response.
    pub open spec fn fresh() -> Cumulative {
        Cumulative {
            prompt: 0,
            completion: 0,
            cached_prompt: 0,
            cost_nano: 0,
            has_cost: false,
            seq: 0,
            last_success_seq: 0,
            last_failure_seq: 0,
            last_failure: 0,
            content_issue: None,
        }
    }

    /// No stamp lies ahead of the counter.
    pub open spec fn wf(self) -> bool {
        self.last_success_seq <= self.seq && self.last_failure_seq <= self.seq
    }

    /// The session after one more failure.
    pub open spec fn failed(self, f: Failure) -> Cumulative {
        Cumulative {
            last_failure: failure_code(f),
            seq: (self.seq + 1) as u64,
            last_failure_seq: (self.seq + 1) as u64,
            ..self
        }
    }

    /// The session after one more clean completion.
    pub open spec fn completed(self) -> Cumulative {
        Cumulative {
            seq: (self.seq + 1) as u64,
            last_success_seq: (self.seq + 1) as u64,
            ..self
        }
    }

    /// The session after a completion that gave `reason`.
    pub open spec fn finished(self, reason: Seq<char>) -> Cumulative {
        match issue_of(reason) {
            Some(issue) => Cumulative { content_issue: Some(issue), ..self },
            None => self,
        }
    }

    /// The session after `u` more usage, with `cost_nano` more cost where one was reported.
    pub open spec fn used(self, u: UsageSnapshot, cost_nano: Option<u64>) -> Cumulative {
        Cumulative {
            prompt: wrapped(self.prompt, u.prompt_tokens),
            completion: wrapped(self.completion, u.completion_tokens),
            cached_prompt: wrapped(self.cached_prompt, u.cached_prompt_tokens),
            cost_nano: match cost_nano {
                Some(c) => wrapped(self.cost_nano, c),
                None => self.cost_nano,
            },
            has_cost: self.has_cost || cost_nano is Some,
            ..self
        }
    }

    /// The cost so far, once a response has reported one.
    pub open spec fn spent(self) -> Option<u64> {
        if self.has_cost {
            Some(self.cost_nano)
        } else {
            None
        }
    }

    /// What the session has used so far.
    pub open spec fn sums(self) -> Totals {
        Totals {
            prompt_tokens: self.prompt,
            completion_tokens: self.completion,
            cached_prompt_tokens: self.cached_prompt,
            cost_nano: self.spent(),
        }
    }

    /// The last failure, where no clean completion came after it.
    pub open spec fn terminal(self) -> Option<Failure> {
        if self.last_failure_seq != 0 && self.last_failure_seq > self.last_success_seq {
            failure_of(self.last_failure)
        } else {
            None
        }
    }

    /// The kind that the session is tagged with.
    pub open spec fn tagged(self) -> Option<ErrorKind> {
        match self.terminal() {
            Some(f) => Some(f.tag()),
            None => match self.content_issue {
                Some(ContentIssue::Truncated) => Some(ErrorKind::Truncated),
                Some(ContentIssue::Refused) => Some(ErrorKind::Refused),
                None => None,
            },
        }
    }

    /// The upstream status of the terminal failure, where it has one.
    pub open spec fn terminal_status(self) -> Option<u16> {
        match self.terminal() {
            Some(f) => f.code(),
            None => None,
        }
    }

    /// Adds one response's usage and returns the new totals.
    pub fn add(&mut self, u: &UsageSnapshot, cost_nano: Option<u64>) -> (r: Totals)
        ensures
            *final(self) == old(self).used(*u, cost_nano),
            r == final(self).sums(),
    {
        self.prompt = self.prompt.wrapping_add(u.prompt_tokens);
        self.completion = self.completion.wrapping_add(u.completion_tokens);
        self.cached_prompt = self.cached_prompt.wrapping_add(u.cached_prompt_tokens);
        if let Some(c) = cost_nano {
            self.cost_nano = self.cost_nano.wrapping_add(c);
            self.has_cost = true;
        }
        Totals {
            prompt_tokens: self.prompt,
            completion_tokens: self.completion,
            cached_prompt_tokens: self.cached_prompt,
            cost_nano: self.cost(),
        }
    }

    /// The provider-reported cost so far, in billionths of a dollar, once there is one.
    pub fn cost(&self) -> (r: Option<u64>)
        ensures
            r == self.spent(),
    {
        if self.has_cost {
            Some(self.cost_nano)
        } else {
            None
        }
    }

    /// The prompt, completion and cached prompt tokens so far.
    pub fn totals(&self) -> (r: (u64, u64, u64))
        ensures
            r == (self.prompt, self.completion, self.cached_prompt),
    {
        (self.prompt, self.completion, self.cached_prompt)
    }

    /// Gives out the next stamp; 0 stays for "none yet".
    pub fn next_seq(&mut self) -> (r: u64)
        requires
            old(self).seq < u64::MAX,
        ensures
            r == old(self).seq + 1,
            *final(self) == (Cumulative { seq: r, ..*old(self) }),
    {
        self.seq = self.seq + 1;
        self.seq
    }

    /// Records a failure.
    pub fn note_failure(&mut self, failure: Failure)
        requires
            old(self).seq < u64::MAX,
        ensures
            *final(self) == old(self).failed(failure),
    {
        self.last_failure = failure.encode();
        self.last_failure_seq = self.next_seq();
    }

    /// Records that upstream did not respond.
    pub fn note_network(&mut self)
        requires
            old(self).seq < u64::MAX,
        ensures
            *final(self) == old(self).failed(Failure::Network),
    {
        self.note_failure(Failure::Network);
    }

    /// Records an upstream error status.
    pub fn note_http_error(&mut self, status: u16)
        requires
            old(self).seq < u64::MAX,
        ensures
            *final(self) == old(self).failed(Failure::Http(status)),
    {
        self.note_failure(Failure::Http(status));
    }

    /// Records a clean completion.
    pub fn note_success(&mut self)
        requires
            old(self).seq < u64::MAX,
        ensures
            *final(self) == old(self).completed(),
    {
        self.last_success_seq = self.next_seq();
    }

    /// Records a success whose body carried an error.
    pub fn note_body_error(&mut self)
        requires
            old(self).seq < u64::MAX,
        ensures
            *final(self) == old(self).failed(Failure::BodyError),
    {
        self.note_failure(Failure::BodyError);
    }

    /// Records the finish reason of a completion.
    pub fn note_finish_reason(&mut self, reason: &str)
        ensures
            *final(self) == old(self).finished(reason@),
    {
        if same_text(reason, "length") {
            self.content_issue = Some(ContentIssue::Truncated);
        } else if same_text(reason, "content_filter") {
            self.content_issue = Some(ContentIssue::Refused);
        }
    }

    /// The session's tag: its last failure where that was its last outcome, else a content issue
    /// of a completion, else nothing.
    pub fn error_kind(&self) -> (r: Option<ErrorKind>)
        ensures
            r == self.tagged(),
    {
        if let Some(f) = self.terminal_failure() {
            return Some(f.kind());
        }
        match self.content_issue {
            Some(ContentIssue::Truncated) => Some(ErrorKind::Truncated),
            Some(ContentIssue::Refused) => Some(ErrorKind::Refused),
            None => None,
        }
    }

    /// The upstream status of the terminal failure, where it has one.
    pub fn error_status(&self) -> (r: Option<u16>)
        ensures
            r == self.terminal_status(),
    {
        match self.terminal_failure() {
            Some(f) => f.status(),
            None => None,
        }
    }

    /// The last failure, where no clean completion came after it.
    pub fn terminal_failure(&self) -> (r: Option<Failure>)
        ensures
            r == self.terminal(),
    {
        if self.last_failure_seq != 0 && self.last_failure_seq > self.last_success_seq {
            Failure::decode(self.last_failure)
        } else {
            None
        }
    }
}

/// One thing that happens to a session.
pub enum Happening {
    Failed(Failure),
    Completed,
    Finished(Seq<char>),
    Used(UsageSnapshot, Option<u64>),
}

/// A session after a history of happenings.
pub open spec fn session_after(history: Seq<Happening>) -> Cumulative
    decreases history.len(),
{
    if history.len() == 0 {
        Cumulative::fresh()
    } else {
        let before = session_after(history.drop_last());
        match history.last() {
            Happening::Failed(f) => before.failed(f),
            Happening::Completed => before.completed(),
            Happening::Finished(reason) => before.finished(reason),
            Happening::Used(u, c) => before.used(u, c),
        }
    }
}

/// What the responses of a history add up to.
pub struct HistorySums {
    pub prompt: nat,
    pub completion: nat,
    pub cached_prompt: nat,
    /// In billionths of a dollar.
    pub cost: nat,
    /// Whether some response reported a cost.
    pub reported: bool,
}

/// What the responses of a history add up to.
pub open spec fn history_sums(history: Seq<Happening>) -> HistorySums
    decreases history.len(),
{
    if history.len() == 0 {
        HistorySums { prompt: 0, completion: 0, cached_prompt: 0, cost: 0, reported: false }
    } else {
        let before = history_sums(history.drop_last());
        match history.last() {
            Happening::Used(u, c) => HistorySums {
                prompt: before.prompt + u.prompt_tokens as nat,
                completion: before.completion + u.completion_tokens as nat,
                cached_prompt: before.cached_prompt + u.cached_prompt_tokens as nat,
                cost: before.cost + (match c {
                    Some(n) => n as nat,
                    None => 0,
                }),
                reported: before.reported || c is Some,
            },
            _ => before,
        }
    }
}

/// A sum that fits does not wrap.
proof fn lemma_sum_fits(a: u64, b: u64)
    requires
        a + b <= u64::MAX,
    ensures
        wrapped(a, b) == a + b,
{
}

/// The totals of a session are the sums over all its responses, however many failures and
/// completions lie between them, and there is a cost exactly where some response reported one. This
/// holds as long as the sums fit 64 bits.
pub proof fn lemma_totals_are_sums(history: Seq<Happening>)
    requires
        history_sums(history).prompt <= u64::MAX,
        history_sums(history).completion <= u64::MAX,
        history_sums(history).cached_prompt <= u64::MAX,
        history_sums(history).cost <= u64::MAX,
    ensures
        session_after(history).sums() == (Totals {
            prompt_tokens: history_sums(history).prompt as u64,
            completion_tokens: history_sums(history).completion as u64,
            cached_prompt_tokens: history_sums(history).cached_prompt as u64,
            cost_nano: if history_sums(history).reported {
                Some(history_sums(history).cost as u64)
            } else {
                None
            },
        }),
        session_after(history).cost_nano == history_sums(history).cost,
        history_sums(history).reported <==> exists|i: int|
            0 <= i < history.len() && reports_cost(#[trigger] history[i]),
    decreases history.len(),
{
    if history.len() > 0 {
        let before = history.drop_last();
        lemma_totals_are_sums(before);
        if let Happening::Used(u, c) = history.last() {
            let sums = history_sums(before);
            lemma_sum_fits(sums.prompt as u64, u.prompt_tokens);
            lemma_sum_fits(sums.completion as u64, u.completion_tokens);
            lemma_sum_fits(sums.cached_prompt as u64, u.cached_prompt_tokens);
            if let Some(n) = c {
                lemma_sum_fits(sums.cost as u64, n);
            }
        }
        if history_sums(before).reported {
            let i = choose|i: int| 0 <= i < before.len() && reports_cost(#[trigger] before[i]);
            assert(reports_cost(history[i]));
        }
        if reports_cost(history.last()) {
            assert(reports_cost(history[history.len() - 1]));
        }
        if exists|i: int| 0 <= i < history.len() && reports_cost(#[trigger] history[i]) {
            let i = choose|i: int| 0 <= i < history.len() && reports_cost(#[trigger] history[i]);
            if i < before.len() {
                assert(reports_cost(before[i]));
            }
        }
    }
}

/// Whether a happening is a response that reported a cost.
pub open spec fn reports_cost(h: Happening) -> bool {
    h matches Happening::Used(_, c) && c is Some
}

/// The last failure of a history, where no completion came after it.
pub open spec fn unrecovered(history: Seq<Happening>) -> Option<Failure>
    decreases history.len(),
{
    if history.len() == 0 {
        None
    } else {
        match history.last() {
            Happening::Failed(f) => Some(f),
            Happening::Completed => None,
            _ => unrecovered(history.drop_last()),
        }
    }
}

/// The session's tag goes by its last outcome: a failure tags it however many completions came
/// before, and one completion after the failure clears it. Usage and finish reasons change neither.
pub proof fn lemma_last_outcome_decides(history: Seq<Happening>)
    requires
        history.len() < u64::MAX,
        forall|i: int|
            0 <= i < history.len() ==> ((#[trigger] history[i]) matches Happening::Failed(f)
                ==> f.valid()),
    ensures
        session_after(history).terminal() == unrecovered(history),
        session_after(history).wf(),
        session_after(history).seq <= history.len(),
    decreases history.len(),
{
    if history.len() > 0 {
        let rest = history.drop_last();
        assert forall|i: int| 0 <= i < rest.len() implies ((#[trigger] rest[i]) matches Happening::Failed(
            f,
        ) ==> f.valid()) by {
            assert(rest[i] == history[i]);
        }
        lemma_last_outcome_decides(rest);
        if let Happening::Failed(f) = history.last() {
            assert(history[history.len() - 1] == history.last());
            lemma_failure_round_trips(f);
        }
    }
}

/// Signals read from a completed response body.
#[derive(Debug)]
pub struct Signals {
    pub usage: Option<UsageSnapshot>,
    /// The last finish reason.
    pub finish_reason: Option<String>,
    /// Whether an error was present.
    pub has_error: bool,
}

/// What the signals say.
pub struct SignalsView {
    pub usage: Option<UsageSnapshot>,
    pub finish_reason: Option<Seq<char>>,
    pub has_error: bool,
}

impl Signals {
    /// What the signals say.
    pub open spec fn view(self) -> SignalsView {
        SignalsView {
            usage: self.usage,
            finish_reason: config::owned_text(self.finish_reason),
            has_error: self.has_error,
        }
    }
}

/// The finish reason of a response's first choice, where it has one.
pub open spec fn finish_reason_of(v: JsonView) -> Option<Seq<char>> {
    match v.get("choices"@) {
        Some(choices) => match choices.item(0) {
            Some(choice) => match choice.get("finish_reason"@) {
                Some(reason) => reason.text(),
                None => None,
            },
            None => None,
        },
        None => None,
    }
}

/// The signals of one response document.
pub open spec fn document_signals(v: JsonView) -> SignalsView {
    SignalsView {
        usage: rewrite::usage_of(v),
        finish_reason: finish_reason_of(v),
        has_error: v.get("error"@) is Some,
    }
}

/// The signals of one response document.
pub fn signals_from_value(v: &Json) -> (r: Signals)
    ensures
        r@ == document_signals(v@),
{
    let finish_reason: Option<String> = match v.get("choices") {
        Some(choices) => match choices.item(0) {
            Some(choice) => match choice.get("finish_reason") {
                Some(reason) => match reason.text() {
                    Some(t) => Some(t.to_owned()),
                    None => None,
                },
                None => None,
            },
            None => None,
        },
        None => None,
    };
    Signals { usage: parse_usage(v), finish_reason, has_error: v.get("error").is_some() }
}

/// The signals so far with those of one more document: the last usage and the last finish reason
/// count, and an error anywhere counts.
pub open spec fn merged(acc: SignalsView, s: SignalsView) -> SignalsView {
    SignalsView {
        usage: if s.usage is Some {
            s.usage
        } else {
            acc.usage
        },
        finish_reason: if s.finish_reason is Some {
            s.finish_reason
        } else {
            acc.finish_reason
        },
        has_error: acc.has_error || s.has_error,
    }
}

/// The signals so far with those of one more line of an event stream.
pub open spec fn after_line(acc: SignalsView, line: Seq<char>) -> SignalsView {
    match rewrite::data_payload(line) {
        Some(p) => if p == "[DONE]"@ {
            acc
        } else {
            match json::json_read(vstd::utf8::encode_utf8(p)) {
                Some(v) => merged(acc, document_signals(v)),
                None => acc,
            }
        },
        None => acc,
    }
}

/// The signals so far with those of the lines of `t`. A carriage return before the newline is white
/// space at the end of a payload.
pub open spec fn after_lines(acc: SignalsView, t: Seq<char>) -> SignalsView
    decreases t.len(),
{
    let i = text::first_of(t, '\n');
    if 0 <= i < t.len() {
        after_lines(after_line(acc, t.take(i)), t.skip(i + 1))
    } else {
        after_line(acc, t)
    }
}

/// No signal at all.
pub open spec fn no_signals() -> SignalsView {
    SignalsView { usage: None, finish_reason: None, has_error: false }
}

/// The signals of a response body: a document, or else an event stream where it is UTF-8.
pub open spec fn body_signals(body: Seq<u8>) -> SignalsView {
    match json::json_read(body) {
        Some(v) => document_signals(v),
        None => if vstd::utf8::valid_utf8(body) {
            after_lines(no_signals(), vstd::utf8::decode_utf8(body))
        } else {
            no_signals()
        },
    }
}

/// `std::str::from_utf8`: the text that the bytes encode, where they are UTF-8.
#[verifier::external_body]
fn utf8_text(bytes: &[u8]) -> (r: Option<String>)
    ensures
        match r {
            Some(t) => vstd::utf8::valid_utf8(bytes@) && t@ == vstd::utf8::decode_utf8(bytes@),
            None => !vstd::utf8::valid_utf8(bytes@),
        },
{
    std::str::from_utf8(bytes).ok().map(|t| t.to_owned())
}

/// The text of bytes, with a replacement character for what is not UTF-8.
pub uninterp spec fn lossy_text(bytes: Seq<u8>) -> Seq<char>;

/// `String::from_utf8_lossy`: the text depends on the bytes alone, and bytes that are UTF-8 give
/// the text that they encode.
#[verifier::external_body]
fn decode_lossy(bytes: &[u8]) -> (r: String)
    ensures
        r@ == lossy_text(bytes@),
        vstd::utf8::valid_utf8(bytes@) ==> r@ == vstd::utf8::decode_utf8(bytes@),
{
    String::from_utf8_lossy(bytes).into_owned()
}

/// The text of bytes: what they encode where they are UTF-8.
pub open spec fn read_text(bytes: Seq<u8>) -> Seq<char> {
    if vstd::utf8::valid_utf8(bytes) {
        vstd::utf8::decode_utf8(bytes)
    } else {
        lossy_text(bytes)
    }
}

/// Takes in one line of an event stream.
pub fn read_stream_line(acc: Signals, line: &str) -> (r: Signals)
    ensures
        r@ == after_line(acc@, line@),
{
    match sse_payload(line) {
        Some(p) => {
            if same_text(p.as_str(), "[DONE]") {
                return acc;
            }
            match json::parse(p.as_str().as_bytes()) {
                Some(v) => {
                    let s: Signals = signals_from_value(&v);
                    Signals {
                        usage: if s.usage.is_some() {
                            s.usage
                        } else {
                            acc.usage
                        },
                        finish_reason: if s.finish_reason.is_some() {
                            s.finish_reason
                        } else {
                            acc.finish_reason
                        },
                        has_error: acc.has_error || s.has_error,
                    }
                },
                None => acc,
            }
        },
        None => acc,
    }
}

/// Takes in the lines of an event stream.
pub fn read_stream(stream: &str) -> (r: Signals)
    ensures
        r@ == after_lines(no_signals(), stream@),
{
    let t: Vec<char> = chars_of(stream);
    let mut out: Signals = Signals { usage: None, finish_reason: None, has_error: false };
    let mut from: usize = 0;
    proof {
        assert(t@.skip(0) =~= t@);
    }
    loop
        invariant
            from <= t@.len(),
            t@ == stream@,
            after_lines(out@, t@.skip(from as int)) == after_lines(no_signals(), t@),
        decreases t@.len() - from,
    {
        let to: usize = text::find_char(&t, from, '\n');
        let line: String = string_of(&t, from, to);
        let ghost rest = t@.skip(from as int);
        proof {
            text::lemma_first_of(rest, '\n');
            assert(rest.take(to - from) =~= t@.subrange(from as int, to as int));
        }
        out = read_stream_line(out, line.as_str());
        if to == t.len() {
            proof {
                assert(t@.subrange(from as int, to as int) =~= rest);
            }
            return out;
        }
        proof {
            assert(rest.skip(to - from + 1) =~= t@.skip(to + 1));
        }
        from = to + 1;
    }
}

/// Reads failure and usage signals from a completed response body: a plain document, or an event
/// stream, whose usage and final finish reason arrive in its last frames.
pub fn response_signals(body: &[u8]) -> (r: Signals)
    ensures
        r@ == body_signals(body@),
{
    match json::parse(body) {
        Some(v) => signals_from_value(&v),
        None => match utf8_text(body) {
            Some(t) => read_stream(t.as_str()),
            None => Signals { usage: None, finish_reason: None, has_error: false },
        },
    }
}

/// The session after a whole response.
pub open spec fn accounted(
    c: Cumulative,
    succeeded: bool,
    sig: SignalsView,
    cost_nano: Option<u64>,
) -> Cumulative {
    let ended = if !succeeded {
        c
    } else if sig.has_error {
        c.failed(Failure::BodyError)
    } else {
        match sig.finish_reason {
            Some(reason) => c.completed().finished(reason),
            None => c.completed(),
        }
    };
    match sig.usage {
        Some(u) => ended.used(u, cost_nano),
        None => ended,
    }
}

/// Accounts a whole response, once its body has been passed on: a success without an error is a
/// clean completion, a success with one is a failure, and an error status was recorded before the
/// body. `cost_nano` is the reported cost in billionths of a dollar. Returns the new totals where
/// the response reported usage.
pub fn account_response(
    c: &mut Cumulative,
    succeeded: bool,
    sig: &Signals,
    cost_nano: Option<u64>,
) -> (r: Option<Totals>)
    requires
        old(c).seq < u64::MAX,
    ensures
        *final(c) == accounted(*old(c), succeeded, sig@, cost_nano),
        r == (if sig.usage is Some {
            Some(final(c).sums())
        } else {
            None
        }),
{
    if succeeded {
        if sig.has_error {
            c.note_body_error();
        } else {
            c.note_success();
            if let Some(reason) = &sig.finish_reason {
                c.note_finish_reason(reason.as_str());
            }
        }
    }
    match &sig.usage {
        Some(u) => Some(c.add(u, cost_nano)),
        None => None,
    }
}

/// The position of the first newline in `b`, or the length of `b` where there is none.
pub open spec fn newline_at(b: Seq<u8>) -> int
    decreases b.len(),
{
    if b.len() == 0 || b[0] == 10u8 {
        0
    } else {
        1 + newline_at(b.skip(1))
    }
}

/// `t` without the characters `c` at its end.
pub open spec fn without_trailing(t: Seq<char>, c: char) -> Seq<char>
    decreases t.len(),
{
    if t.len() > 0 && t.last() == c {
        without_trailing(t.drop_last(), c)
    } else {
        t
    }
}

/// One complete line of a stream, newline included, as the client receives it.
pub open spec fn framed(raw: Seq<u8>, slug: Seq<char>, alias: Seq<char>) -> Seq<u8> {
    let core = without_trailing(without_trailing(read_text(raw), '\n'), '\r');
    vstd::utf8::encode_utf8(rewrite::masked_line(core, slug, alias) + seq!['\n'])
}

/// What has been passed on once `b` has arrived: its complete lines, masked.
pub open spec fn emitted(b: Seq<u8>, slug: Seq<char>, alias: Seq<char>) -> Seq<u8>
    decreases b.len(),
{
    let i = newline_at(b);
    if 0 <= i < b.len() {
        framed(b.take(i + 1), slug, alias) + emitted(b.skip(i + 1), slug, alias)
    } else {
        Seq::empty()
    }
}

/// What is held back once `b` has arrived: the line that is not complete.
pub open spec fn held(b: Seq<u8>) -> Seq<u8>
    decreases b.len(),
{
    let i = newline_at(b);
    if 0 <= i < b.len() {
        held(b.skip(i + 1))
    } else {
        b
    }
}

/// The first newline is where it is said to be.
proof fn lemma_newline_at(b: Seq<u8>)
    ensures
        0 <= newline_at(b) <= b.len(),
        newline_at(b) < b.len() ==> b[newline_at(b)] == 10u8,
        forall|i: int| 0 <= i < newline_at(b) ==> b[i] != 10u8,
    decreases b.len(),
{
    if b.len() > 0 && b[0] != 10u8 {
        lemma_newline_at(b.skip(1));
        assert forall|i: int| 0 <= i < newline_at(b) implies b[i] != 10u8 by {
            if i > 0 {
                assert(b[i] == b.skip(1)[i - 1]);
            }
        }
    }
}

/// A position with a newline and none before it is the first.
pub proof fn lemma_newline_is(b: Seq<u8>, k: int)
    requires
        0 <= k <= b.len(),
        forall|i: int| 0 <= i < k ==> b[i] != 10u8,
        k < b.len() ==> b[k] == 10u8,
    ensures
        newline_at(b) == k,
{
    lemma_newline_at(b);
    let n = newline_at(b);
    if n < k {
        assert(b[n] != 10u8);
    } else if k < n {
        assert(b[k] != 10u8);
    }
}

/// How the upstream cuts its stream into chunks does not show: what is passed on, and what is held
/// back, is the same as if the bytes had come at once.
pub proof fn lemma_chunking_does_not_show(
    a: Seq<u8>,
    b: Seq<u8>,
    slug: Seq<char>,
    alias: Seq<char>,
)
    ensures
        emitted(a + b, slug, alias) == emitted(a, slug, alias) + emitted(held(a) + b, slug, alias),
        held(a + b) == held(held(a) + b),
    decreases a.len(),
{
    lemma_newline_at(a);
    let i = newline_at(a);
    if i < a.len() {
        let rest = a.skip(i + 1);
        lemma_chunking_does_not_show(rest, b, slug, alias);
        assert forall|k: int| 0 <= k < i implies (a + b)[k] != 10u8 by {
            assert((a + b)[k] == a[k]);
        }
        lemma_newline_is(a + b, i);
        assert((a + b).take(i + 1) =~= a.take(i + 1));
        assert((a + b).skip(i + 1) =~= rest + b);
        assert(emitted(a + b, slug, alias) =~= emitted(a, slug, alias) + emitted(
            held(a) + b,
            slug,
            alias,
        ));
    } else {
        assert(emitted(a, slug, alias) + emitted(a + b, slug, alias) =~= emitted(
            a + b,
            slug,
            alias,
        ));
    }
}

/// Masks an event stream line by line as it arrives.
#[derive(Debug)]
pub struct SseMasker {
    buffer: Vec<u8>,
}

/// `t` without the characters `c` at its end.
fn strip_trailing(t: &str, c: char) -> (r: String)
    ensures
        r@ == without_trailing(t@, c),
{
    let chars: Vec<char> = chars_of(t);
    let mut end: usize = chars.len();
    proof {
        assert(chars@.subrange(0, end as int) =~= chars@);
    }
    while end > 0 && chars[end - 1] == c
        invariant
            end <= chars@.len(),
            without_trailing(chars@.subrange(0, end as int), c) == without_trailing(chars@, c),
        decreases end,
    {
        proof {
            assert(chars@.subrange(0, end as int).drop_last() =~= chars@.subrange(0, end - 1));
        }
        end = end - 1;
    }
    string_of(&chars, 0, end)
}

impl SseMasker {
    /// The line that is not complete yet.
    pub closed spec fn pending(self) -> Seq<u8> {
        self.buffer@
    }

    /// A masker that has seen nothing.
    pub fn new() -> (r: SseMasker)
        ensures
            r.pending() == Seq::<u8>::empty(),
    {
        SseMasker { buffer: Vec::new() }
    }

    /// Takes in a chunk and returns what can be passed on: the lines that it completes, masked.
    pub fn feed(&mut self, chunk: &[u8], real_slug: &str, alias: &str) -> (r: Vec<u8>)
        ensures
            r@ == emitted(old(self).pending() + chunk@, real_slug@, alias@),
            final(self).pending() == held(old(self).pending() + chunk@),
    {
        let ghost before = self.buffer@;
        self.buffer.extend_from_slice(chunk);
        let ghost all = self.buffer@;
        let mut out: Vec<u8> = Vec::new();
        proof {
            assert(all =~= before + chunk@);
            assert(all.skip(0) =~= all);
            assert(out@ + emitted(all, real_slug@, alias@) =~= emitted(all, real_slug@, alias@));
        }
        let mut from: usize = 0;
        let mut at: usize = 0;
        let count: usize = self.buffer.len();
        while at < count
            invariant
                self.buffer@ == all,
                count == all.len(),
                from <= at <= all.len(),
                forall|k: int| from <= k < at ==> all[k] != 10u8,
                out@ + emitted(all.skip(from as int), real_slug@, alias@) == emitted(
                    all,
                    real_slug@,
                    alias@,
                ),
                held(all.skip(from as int)) == held(all),
            decreases all.len() - at,
        {
            if self.buffer[at] == 10u8 {
                let mut raw: Vec<u8> = Vec::new();
                let mut k: usize = from;
                while k <= at
                    invariant
                        self.buffer@ == all,
                        from <= k <= at + 1,
                        at < count,
                        count == all.len(),
                        raw@ == all.subrange(from as int, k as int),
                    decreases at + 1 - k,
                {
                    raw.push(self.buffer[k]);
                    proof {
                        assert(all.subrange(from as int, k + 1) =~= all.subrange(
                            from as int,
                            k as int,
                        ).push(all[k as int]));
                    }
                    k = k + 1;
                }
                let piece: Vec<u8> = mask_frame(&raw, real_slug, alias);
                let ghost sofar = out@;
                out.extend_from_slice(&piece);
                proof {
                    let rest = all.skip(from as int);
                    assert forall|j: int| 0 <= j < at - from implies rest[j] != 10u8 by {
                        assert(rest[j] == all[from + j]);
                    }
                    lemma_newline_is(rest, at - from);
                    assert(rest.take(at - from + 1) =~= raw@);
                    assert(rest.skip(at - from + 1) =~= all.skip(at + 1));
                    assert(out@ + emitted(all.skip(at + 1), real_slug@, alias@) =~= sofar
                        + emitted(rest, real_slug@, alias@));
                }
                from = at + 1;
            }
            at = at + 1;
        }
        let tail: Vec<u8> = self.buffer.split_off(from);
        proof {
            let rest = all.skip(from as int);
            assert(tail@ =~= rest);
            assert forall|j: int| 0 <= j < rest.len() implies rest[j] != 10u8 by {
                assert(rest[j] == all[from + j]);
            }
            lemma_newline_is(rest, rest.len() as int);
            assert(out@ + emitted(rest, real_slug@, alias@) =~= out@);
        }
        self.buffer = tail;
        out
    }

    /// Returns what is left once the stream has ended: a last line without a newline, masked.
    pub fn finish(self, real_slug: &str, alias: &str) -> (r: Vec<u8>)
        ensures
            r@ == vstd::utf8::encode_utf8(last_text(self.pending(), real_slug@, alias@)),
    {
        let mut out: Vec<u8> = Vec::new();
        proof {
            assert(vstd::utf8::encode_utf8(Seq::<char>::empty()) =~= out@);
        }
        if self.buffer.len() > 0 {
            let masked: String = mask_sse_line(decode_lossy(&self.buffer).as_str(), real_slug, alias);
            out.extend_from_slice(masked.as_str().as_bytes());
        }
        out
    }
}

/// One complete line of a stream, newline included, as the client receives it.
pub fn mask_frame(raw: &[u8], real_slug: &str, alias: &str) -> (r: Vec<u8>)
    ensures
        r@ == framed(raw@, real_slug@, alias@),
{
    let whole: String = decode_lossy(raw);
    let line: String = strip_trailing(whole.as_str(), '\n');
    let core: String = strip_trailing(line.as_str(), '\r');
    let mut masked: String = mask_sse_line(core.as_str(), real_slug, alias);
    masked.push('\n');
    proof {
        let m = rewrite::masked_line(core@, real_slug@, alias@);
        assert(m.push('\n') =~= m + seq!['\n']);
    }
    let mut out: Vec<u8> = Vec::new();
    out.extend_from_slice(masked.as_str().as_bytes());
    out
}

/// The text of what has been passed on once `b` has arrived.
pub open spec fn emitted_text(b: Seq<u8>, slug: Seq<char>, alias: Seq<char>) -> Seq<char>
    decreases b.len(),
{
    let i = newline_at(b);
    if 0 <= i < b.len() {
        let core = without_trailing(without_trailing(read_text(b.take(i + 1)), '\n'), '\r');
        rewrite::masked_line(core, slug, alias) + seq!['\n'] + emitted_text(
            b.skip(i + 1),
            slug,
            alias,
        )
    } else {
        Seq::empty()
    }
}

/// The text that is passed on last, of a line that was never completed.
pub open spec fn last_text(rest: Seq<u8>, slug: Seq<char>, alias: Seq<char>) -> Seq<char> {
    if rest.len() == 0 {
        Seq::empty()
    } else {
        rewrite::masked_line(read_text(rest), slug, alias)
    }
}

/// Encoding goes piece by piece.
pub proof fn lemma_encoded_pieces(a: Seq<char>, b: Seq<char>)
    ensures
        vstd::utf8::encode_utf8(a + b) == vstd::utf8::encode_utf8(a) + vstd::utf8::encode_utf8(b),
    decreases a.len(),
{
    if a.len() == 0 {
        assert(a + b =~= b);
        assert(vstd::utf8::encode_utf8(a) =~= Seq::empty());
    } else {
        lemma_encoded_pieces(a.drop_first(), b);
        assert((a + b).drop_first() =~= a.drop_first() + b);
        assert(vstd::utf8::encode_utf8(a + b) =~= vstd::utf8::encode_utf8(a)
            + vstd::utf8::encode_utf8(b));
    }
}

/// A text that cannot span a line break does not occur in two lines where it occurs in neither.
proof fn lemma_lines_apart(a: Seq<char>, b: Seq<char>, needle: Seq<char>)
    requires
        needle.len() > 0,
        !needle.contains('\n'),
        !text::occurs(a, needle),
        !text::occurs(b, needle),
    ensures
        !text::occurs(a + seq!['\n'] + b, needle),
{
    let whole = a + seq!['\n'] + b;
    assert forall|at: int| !#[trigger] text::matches_at(whole, at, needle) by {
        if text::matches_at(whole, at, needle) {
            let n = needle.len() as int;
            assert forall|k: int| 0 <= k < n implies whole[at + k] == #[trigger] needle[k] by {
                assert(whole.subrange(at, at + n)[k] == whole[at + k]);
            }
            if at + n <= a.len() {
                assert(a.subrange(at, at + n) =~= needle);
                assert(text::matches_at(a, at, needle));
            } else if at > a.len() {
                let from = at - a.len() - 1;
                assert(b.subrange(from, from + n) =~= needle);
                assert(text::matches_at(b, from, needle));
            } else {
                assert(needle[a.len() - at] == '\n');
            }
        }
    }
}

/// The lines that are passed on do not hold the slug, taken together.
proof fn lemma_emitted_hides_the_slug(
    b: Seq<u8>,
    tail: Seq<char>,
    slug: Seq<char>,
    alias: Seq<char>,
)
    requires
        slug.len() > 0,
        alias.len() > 0,
        !slug.contains('\n'),
        rewrite::no_overlay(slug, alias),
        !text::occurs(tail, slug),
    ensures
        emitted(b, slug, alias) == vstd::utf8::encode_utf8(emitted_text(b, slug, alias)),
        !text::occurs(emitted_text(b, slug, alias) + tail, slug),
    decreases b.len(),
{
    let i = newline_at(b);
    if 0 <= i < b.len() {
        let rest = b.skip(i + 1);
        let core = without_trailing(without_trailing(read_text(b.take(i + 1)), '\n'), '\r');
        let line = rewrite::masked_line(core, slug, alias);
        lemma_emitted_hides_the_slug(rest, tail, slug, alias);
        rewrite::lemma_masked_line_hides_the_slug(core, slug, alias);
        lemma_encoded_pieces(line + seq!['\n'], emitted_text(rest, slug, alias));
        lemma_lines_apart(line, emitted_text(rest, slug, alias) + tail, slug);
        assert(emitted_text(b, slug, alias) + tail =~= line + seq!['\n'] + (emitted_text(
            rest,
            slug,
            alias,
        ) + tail));
    } else {
        assert(emitted_text(b, slug, alias) + tail =~= tail);
        assert(vstd::utf8::encode_utf8(Seq::<char>::empty()) =~= Seq::empty());
    }
}

/// Whatever a stream holds, and however it is cut into chunks, the slug is nowhere in the text that
/// the client receives, given an alias that cannot form part of it.
pub proof fn lemma_masked_stream_hides_the_slug(b: Seq<u8>, slug: Seq<char>, alias: Seq<char>)
    requires
        slug.len() > 0,
        alias.len() > 0,
        !slug.contains('\n'),
        rewrite::no_overlay(slug, alias),
    ensures
        emitted(b, slug, alias) + vstd::utf8::encode_utf8(last_text(held(b), slug, alias))
            == vstd::utf8::encode_utf8(
            emitted_text(b, slug, alias) + last_text(held(b), slug, alias),
        ),
        !text::occurs(emitted_text(b, slug, alias) + last_text(held(b), slug, alias), slug),
{
    let tail = last_text(held(b), slug, alias);
    if held(b).len() > 0 {
        rewrite::lemma_masked_line_hides_the_slug(read_text(held(b)), slug, alias);
    } else {
        assert forall|at: int| !#[trigger] text::matches_at(tail, at, slug) by {}
    }
    lemma_emitted_hides_the_slug(b, tail, slug, alias);
    lemma_encoded_pieces(emitted_text(b, slug, alias), tail);
}

/// Where `needle` stands in `t` for the last time, at or before `upto`; -1 where it does not.
pub open spec fn last_match(t: Seq<char>, needle: Seq<char>, upto: int) -> int
    decreases upto + 1,
{
    if upto < 0 {
        -1
    } else if text::matches_at(t, upto, needle) {
        upto
    } else {
        last_match(t, needle, upto - 1)
    }
}

/// The part of a request path that the provider's base URL does not already carry: what stands
/// behind the caller's own version prefix, or all of it where there is none.
pub open spec fn path_suffix(path: Seq<char>) -> Seq<char> {
    let at = last_match(path, "/v1"@, path.len() as int);
    if at < 0 {
        path
    } else {
        path.skip(at + 3)
    }
}

/// The URL that a call is forwarded to.
pub open spec fn target(base: Seq<char>, path: Seq<char>, query: Option<Seq<char>>) -> Seq<char> {
    base + path_suffix(path) + (match query {
        Some(q) => seq!['?'] + q,
        None => Seq::empty(),
    })
}

/// The URL that a call is forwarded to: the provider's base URL, then everything after the
/// caller's own `/v1`, then the query.
pub fn target_url(base: &str, path: &str, query: Option<&str>) -> (r: String)
    ensures
        r@ == target(base@, path@, config::text_of(query)),
{
    let t: Vec<char> = chars_of(path);
    let mark: Vec<char> = chars_of("/v1");
    proof {
        reveal_strlit("/v1");
    }
    let mut out: String = base.to_owned();
    let mut at: usize = t.len();
    let mut hit: bool = char_match(&t, at, &mark);
    while at > 0 && !hit
        invariant
            t@ == path@,
            mark@ == "/v1"@,
            mark@.len() == 3,
            at <= t@.len(),
            hit == text::matches_at(t@, at as int, "/v1"@),
            last_match(path@, "/v1"@, path@.len() as int) == last_match(
                path@,
                "/v1"@,
                at as int,
            ),
        decreases at,
    {
        at = at - 1;
        hit = char_match(&t, at, &mark);
    }
    let from: usize = if hit {
        at + 3
    } else {
        0
    };
    proof {
        reveal_with_fuel(last_match, 2);
        assert(t@.skip(0) =~= t@);
        assert(t@.subrange(from as int, t@.len() as int) =~= t@.skip(from as int));
    }
    let suffix: String = string_of(&t, from, t.len());
    out.append(suffix.as_str());
    if let Some(q) = query {
        out.push('?');
        out.append(q);
        proof {
            assert(out@ =~= base@ + path_suffix(path@) + (seq!['?'] + q@));
        }
    } else {
        proof {
            assert(out@ =~= base@ + path_suffix(path@) + Seq::empty());
        }
    }
    out
}

/// The model catalog of a session: the alias alone.
pub open spec fn catalog(alias: Seq<char>) -> JsonView {
    JsonView::Object(
        map!["object"@ => JsonView::Text("list"@), "data"@ => JsonView::Array(
            seq![
                JsonView::Object(
                    map![
                        "id"@ => JsonView::Text(alias),
                        "object"@ => JsonView::Text("model"@),
                        "owned_by"@ => JsonView::Text("blindcoder"@)
                    ],
                ),
            ],
        )],
    )
}

/// The model catalog of a session: the alias alone, never the provider's real list.
pub fn models_list(alias: &str) -> (r: Json)
    ensures
        r@ == catalog(alias@),
{
    let mut entry: Json = Json::Object(Vec::new());
    entry.insert("id", Json::Text(alias.to_owned()));
    entry.insert("object", Json::Text("model".to_owned()));
    entry.insert("owned_by", Json::Text("blindcoder".to_owned()));
    let mut data: Vec<Json> = Vec::new();
    data.push(entry);
    let ghost items = json::items_view(data@);
    proof {
        json::lemma_items(data@);
        assert(items =~= seq![entry@]);
    }
    let mut list: Json = Json::Object(Vec::new());
    list.insert("object", Json::Text("list".to_owned()));
    list.insert("data", Json::Array(data));
    list
}

/// One header: its name and its bytes.
pub struct HeaderView {
    pub name: Seq<char>,
    pub value: Seq<u8>,
}

/// A header of an outgoing request.
#[derive(Debug)]
pub struct Header {
    pub name: String,
    pub value: Vec<u8>,
}

impl Header {
    /// What the header says.
    pub open spec fn view(self) -> HeaderView {
        HeaderView { name: self.name@, value: self.value@ }
    }
}

/// What a list of headers says.
pub open spec fn headers_view(list: Seq<Header>) -> Seq<HeaderView> {
    list.map_values(|h: Header| h@)
}

/// A header with a text value.
pub open spec fn text_header(name: Seq<char>, value: Seq<char>) -> HeaderView {
    HeaderView { name, value: vstd::utf8::encode_utf8(value) }
}

/// The bytes of an optional header value.
pub open spec fn bytes_of(v: Option<&Vec<u8>>) -> Option<Seq<u8>> {
    match v {
        Some(b) => Some(b@),
        None => None,
    }
}

/// The headers of a forwarded request: the caller's content type (JSON where it gave none), the
/// caller's accept header where it gave one, the provider's key, then the provider's own headers.
pub open spec fn outgoing(
    content_type: Option<Seq<u8>>,
    accept: Option<Seq<u8>>,
    api_key: Option<Seq<char>>,
    extra: Seq<(String, String)>,
) -> Seq<HeaderView> {
    let first = match content_type {
        Some(value) => HeaderView { name: "content-type"@, value },
        None => text_header("content-type"@, "application/json"@),
    };
    let accepted = match accept {
        Some(value) => seq![HeaderView { name: "accept"@, value }],
        None => Seq::empty(),
    };
    let auth = match api_key {
        Some(key) => seq![text_header("authorization"@, "Bearer "@ + key)],
        None => Seq::empty(),
    };
    seq![first] + accepted + auth + extra.map_values(
        |h: (String, String)| text_header(h.0@, h.1@),
    )
}

/// A header with a text value.
fn header_of(name: &str, value: &str) -> (r: Header)
    ensures
        r@ == text_header(name@, value@),
{
    let mut bytes: Vec<u8> = Vec::new();
    bytes.extend_from_slice(value.as_bytes());
    proof {
        assert(bytes@ =~= vstd::utf8::encode_utf8(value@));
    }
    Header { name: name.to_owned(), value: bytes }
}

/// A header with the bytes of one that came in.
fn header_from(name: &str, value: &Vec<u8>) -> (r: Header)
    ensures
        r@ == (HeaderView { name: name@, value: value@ }),
{
    let mut bytes: Vec<u8> = Vec::new();
    bytes.extend_from_slice(value);
    proof {
        assert(bytes@ =~= value@);
    }
    Header { name: name.to_owned(), value: bytes }
}

/// The headers of a forwarded request.
pub fn outgoing_headers(
    content_type: Option<&Vec<u8>>,
    accept: Option<&Vec<u8>>,
    api_key: &Option<String>,
    extra: &Vec<(String, String)>,
) -> (r: Vec<Header>)
    ensures
        headers_view(r@) == outgoing(
            bytes_of(content_type),
            bytes_of(accept),
            config::owned_text(*api_key),
            extra@,
        ),
{
    let mut out: Vec<Header> = Vec::new();
    match content_type {
        Some(ct) => out.push(header_from("content-type", ct)),
        None => out.push(header_of("content-type", "application/json")),
    }
    if let Some(a) = accept {
        out.push(header_from("accept", a));
    }
    if let Some(key) = api_key {
        let mut bearer: String = "Bearer ".to_owned();
        bearer.append(key.as_str());
        out.push(header_of("authorization", bearer.as_str()));
    }
    let ghost fixed = out@;
    let ghost texts = extra@.map_values(|h: (String, String)| text_header(h.0@, h.1@));
    proof {
        assert(headers_view(fixed) =~= outgoing(
            bytes_of(content_type),
            bytes_of(accept),
            config::owned_text(*api_key),
            Seq::<(String, String)>::empty(),
        ));
        assert(texts.take(0) =~= Seq::empty());
    }
    let mut i: usize = 0;
    while i < extra.len()
        invariant
            i <= extra@.len(),
            texts == extra@.map_values(|h: (String, String)| text_header(h.0@, h.1@)),
            headers_view(out@) == headers_view(fixed) + texts.take(i as int),
        decreases extra@.len() - i,
    {
        let ghost before = out@;
        out.push(header_of(extra[i].0.as_str(), extra[i].1.as_str()));
        proof {
            assert(headers_view(out@) =~= headers_view(before).push(texts[i as int]));
            assert(texts.take(i + 1) =~= texts.take(i as int).push(texts[i as int]));
        }
        i = i + 1;
    }
    proof {
        assert(texts.take(i as int) =~= texts);
        assert(headers_view(out@) =~= outgoing(
            bytes_of(content_type),
            bytes_of(accept),
            config::owned_text(*api_key),
            extra@,
        ));
    }
    out
}

/// Why the audit trail refused to witness a request. In every case the request must not go out.
#[derive(Debug)]
pub enum AuditRefusal {
    /// The attestation carries no bounded lifetime.
    Unbounded,
    /// The attestation's window has ended on this date.
    Expired(String),
    /// The record could not be written.
    Io(String),
    /// The writer died before proving a durable record.
    Join,
}

impl AuditRefusal {
    /// The refusal as text.
    pub open spec fn text(self) -> Seq<char> {
        match self {
            AuditRefusal::Unbounded => "attestation carries no bounded lifetime"@,
            AuditRefusal::Expired(date) => "attestation expired on "@ + date@,
            AuditRefusal::Io(e) => e@,
            AuditRefusal::Join => "audit worker terminated"@,
        }
    }

    /// The refusal as text.
    pub fn message(&self) -> (r: String)
        ensures
            r@ == self.text(),
    {
        match self {
            AuditRefusal::Unbounded => "attestation carries no bounded lifetime".to_owned(),
            AuditRefusal::Expired(date) => {
                let mut out: String = "attestation expired on ".to_owned();
                out.append(date.as_str());
                out
            },
            AuditRefusal::Io(e) => e.clone(),
            AuditRefusal::Join => "audit worker terminated".to_owned(),
        }
    }
}

/// The answer to a request that the audit trail refused.
pub open spec fn refusal_answer(why: Seq<char>) -> Seq<char> {
    "non-ZDR audit refused ("@ + why + "); refusing to forward without a durable record"@
}

/// The answer to a request that the audit trail refused.
pub fn refuse(why: &AuditRefusal) -> (r: String)
    ensures
        r@ == refusal_answer(why.text()),
{
    let mut out: String = "non-ZDR audit refused (".to_owned();
    out.append(why.message().as_str());
    out.append("); refusing to forward without a durable record");
    out
}

/// The fail-closed accountability trail of the no-ZDR path: one line per forwarded request, with
/// the hour and the real slug. It carries no session id and no finer time, so it cannot be joined
/// onto the ratings. The expiry is checked for every request, so that a standing proxy does not
/// outlive its attestation.
#[derive(Debug)]
pub struct NonZdrAudit {
    pub path: String,
    /// The last day of the attestation; without one every request is refused.
    pub expires_epoch_days: Option<i64>,
}

/// One record of the audit trail: the hour, a tab, the slug and a newline.
pub open spec fn audit_record(hour: Seq<char>, slug: Seq<char>) -> Seq<char> {
    hour + seq!['\t'] + slug + seq!['\n']
}

impl NonZdrAudit {
    /// Why a request of the day `today` must be refused, if it must.
    pub open spec fn refusal(self, today: i64) -> Option<Seq<char>> {
        match self.expires_epoch_days {
            None => Some("attestation carries no bounded lifetime"@),
            Some(last) => if today > last {
                Some("attestation expired on "@ + dates::expiry_text(last))
            } else {
                None
            },
        }
    }

    /// The record to write before a request of the moment `now` goes out, or why it must not. The
    /// record carries the UTC hour of the request, and no finer time.
    pub fn witness(&self, now: i64, real_slug: &str) -> (r: Result<String, AuditRefusal>)
        ensures
            match r {
                Ok(line) => self.refusal(dates::day_count(now)) is None && line@ == audit_record(
                    dates::hour_text(now),
                    real_slug@,
                ) && (forall|year: int, month: int, day: int|
                    0 <= year <= 9999 && dates::valid_date(year, month, day)
                        && #[trigger] dates::epoch_days(year, month, day) == dates::day_count(now)
                        ==> line@ == audit_record(
                        dates::date_text(year, month, day) + seq!['T'] + dates::two_digits(
                            dates::hour_of_day(now as int),
                        ),
                        real_slug@,
                    )),
                Err(e) => self.refusal(dates::day_count(now)) == Some(e.text()),
            },
            r is Err ==> (r->Err_0 is Unbounded <==> self.expires_epoch_days is None),
            r is Err ==> (r->Err_0 is Expired <==> self.expires_epoch_days is Some),
    {
        let last: i64 = match self.expires_epoch_days {
            None => {
                return Err(AuditRefusal::Unbounded);
            },
            Some(d) => d,
        };
        if day_of(now) > last {
            return Err(AuditRefusal::Expired(format_expiry(last)));
        }
        let mut line: String = format_hour(now);
        let ghost hour = line@;
        line.push('\t');
        line.append(real_slug);
        line.push('\n');
        proof {
            assert(line@ =~= audit_record(hour, real_slug@));
        }
        Ok(line)
    }
}

/// A record tells the hour of a request and no finer time: of two requests to one model within an
/// hour nobody can say which came first.
pub proof fn lemma_records_tell_the_hour_alone(a: i64, b: i64, slug: Seq<char>)
    requires
        (a as int) / (dates::HOUR_SECONDS as int) == (b as int) / (dates::HOUR_SECONDS as int),
    ensures
        audit_record(dates::hour_text(a), slug) == audit_record(dates::hour_text(b), slug),
{
    dates::lemma_same_hour_same_text(a, b);
}

/// Once an attestation's last day is over, every later request is refused.
pub proof fn lemma_expiry_is_final(audit: NonZdrAudit, day: i64, later: i64)
    requires
        audit.refusal(day) is Some,
        day <= later,
    ensures
        audit.refusal(later) == audit.refusal(day),
{
}

/// A forwarding proxy before it is started: the provider's credentials and passthrough hooks.
#[derive(Debug)]
pub struct ProxyBackend {
    pub bind_addr: String,
    pub api_key: Option<String>,
    pub extra_headers: Vec<(String, String)>,
    pub extra_body: Vec<(String, Json)>,
    pub privacy: Privacy,
    /// Where the raw wire archive goes, at the replay capture level.
    pub capture_path: Option<String>,
    /// The audit trail, where the session routes to a no-ZDR model.
    pub non_zdr_audit: Option<NonZdrAudit>,
}

impl ProxyBackend {
    /// A proxy that will listen on `bind_addr`, without an audit trail.
    pub fn new(
        bind_addr: String,
        api_key: Option<String>,
        extra_headers: Vec<(String, String)>,
        extra_body: Vec<(String, Json)>,
        privacy: Privacy,
        capture_path: Option<String>,
    ) -> (r: ProxyBackend)
        ensures
            r == (ProxyBackend {
                bind_addr,
                api_key,
                extra_headers,
                extra_body,
                privacy,
                capture_path,
                non_zdr_audit: None,
            }),
    {
        ProxyBackend {
            bind_addr,
            api_key,
            extra_headers,
            extra_body,
            privacy,
            capture_path,
            non_zdr_audit: None,
        }
    }

    /// The same proxy with an audit trail at `path` that ends with the day `expires_epoch_days`.
    pub fn with_non_zdr_audit(self, path: String, expires_epoch_days: Option<i64>) -> (r: Self)
        ensures
            r == (ProxyBackend {
                non_zdr_audit: Some(NonZdrAudit { path, expires_epoch_days }),
                ..self
            }),
    {
        ProxyBackend {
            bind_addr: self.bind_addr,
            api_key: self.api_key,
            extra_headers: self.extra_headers,
            extra_body: self.extra_body,
            privacy: self.privacy,
            capture_path: self.capture_path,
            non_zdr_audit: Some(NonZdrAudit { path, expires_epoch_days }),
        }
    }

    /// What the request handlers of a session need, for the picked target under its alias.
    pub fn start(self, pick: &Pick, alias: &str) -> (r: ProxyState)
        ensures
            r.endpoint.address() == without_trailing(pick.endpoint.address(), '/'),
            r.privacy == self.privacy,
            r.real_slug@ == pick.real_slug@,
            r.alias@ == alias@,
            r.api_key == self.api_key,
            r.extra_headers == self.extra_headers,
            r.extra_body == self.extra_body,
            r.non_zdr_audit == self.non_zdr_audit,
    {
        let base: String = strip_trailing(pick.endpoint.url(), '/');
        ProxyState {
            endpoint: VettedEndpoint::new(base.as_str()),
            privacy: self.privacy,
            real_slug: pick.real_slug.clone(),
            alias: alias.to_owned(),
            api_key: self.api_key,
            extra_headers: self.extra_headers,
            extra_body: self.extra_body,
            non_zdr_audit: self.non_zdr_audit,
        }
    }
}

/// Everything that a request handler needs to answer or forward one call.
#[derive(Debug)]
pub struct ProxyState {
    pub endpoint: VettedEndpoint,
    pub privacy: Privacy,
    pub real_slug: String,
    pub alias: String,
    pub api_key: Option<String>,
    pub extra_headers: Vec<(String, String)>,
    pub extra_body: Vec<(String, Json)>,
    pub non_zdr_audit: Option<NonZdrAudit>,
}

/// One call from the client.
#[derive(Debug)]
pub struct Call {
    /// Whether the method is GET.
    pub is_get: bool,
    pub path: String,
    pub query: Option<String>,
    pub content_type: Option<Vec<u8>>,
    pub accept: Option<Vec<u8>>,
    pub body: Vec<u8>,
}

/// A call on its way to the provider.
#[derive(Debug)]
pub struct Outgoing {
    pub url: String,
    pub request: VettedRequest,
    pub headers: Vec<Header>,
    /// The record that must be on disk before the request goes out.
    pub audit_line: Option<String>,
}

/// How a call is handled.
#[derive(Debug)]
pub enum Handling {
    /// Answered here with this model catalog.
    Catalog(String),
    /// Refused with this text: the request must not go out.
    Refused(String),
    /// Forwarded.
    Forward(Outgoing),
}

impl Call {
    /// Whether the call asks for the model catalog.
    pub open spec fn asks_for_models(self) -> bool {
        self.is_get && text::ends_with(self.path@, "/models"@)
    }
}

impl ProxyState {
    /// Why a request of the day `today` must be refused, if it must.
    pub open spec fn refusal(self, today: i64) -> Option<Seq<char>> {
        match self.non_zdr_audit {
            Some(audit) => audit.refusal(today),
            None => None,
        }
    }

    /// Decides how one call is handled. The catalog is answered here, so that the provider's real
    /// list is never shown. With an audit trail, a request either carries its record or is refused.
    /// Whatever goes out has been through the privacy gate.
    pub fn handle(&self, call: &Call, now: i64) -> (r: Handling)
        ensures
            match r {
                Handling::Catalog(t) => call.asks_for_models() && t@ == json::json_text(
                    catalog(self.alias@),
                ),
                Handling::Refused(t) => !call.asks_for_models() && (self.refusal(
                    dates::day_count(now),
                ) matches Some(why) && t@ == refusal_answer(why)),
                Handling::Forward(out) => {
                    &&& !call.asks_for_models()
                    &&& self.refusal(dates::day_count(now)) is None
                    &&& out.url@ == target(
                        self.endpoint.address(),
                        call.path@,
                        config::owned_text(call.query),
                    )
                    &&& out.request@ == crate::backend::prepared(
                        call.body@,
                        self.real_slug@,
                        json::members_view(self.extra_body@),
                        self.privacy,
                    )
                    &&& headers_view(out.headers@) == outgoing(
                        owned_bytes(call.content_type),
                        owned_bytes(call.accept),
                        config::owned_text(self.api_key),
                        self.extra_headers@,
                    )
                    &&& config::owned_text(out.audit_line) == (if self.non_zdr_audit is Some {
                        Some(audit_record(dates::hour_text(now), self.real_slug@))
                    } else {
                        None
                    })
                },
            },
    {
        if call.is_get && has_suffix(call.path.as_str(), "/models") {
            return Handling::Catalog(models_list(self.alias.as_str()).to_text());
        }
        let query: Option<&str> = match &call.query {
            Some(q) => Some(q.as_str()),
            None => None,
        };
        let url: String = target_url(self.endpoint.url(), call.path.as_str(), query);
        let request: VettedRequest = self.endpoint.prepare(
            &call.body,
            self.real_slug.as_str(),
            &self.extra_body,
            self.privacy,
        );
        let audit_line: Option<String> = match &self.non_zdr_audit {
            Some(audit) => match audit.witness(now, self.real_slug.as_str()) {
                Ok(line) => Some(line),
                Err(e) => {
                    return Handling::Refused(refuse(&e));
                },
            },
            None => None,
        };
        let headers: Vec<Header> = outgoing_headers(
            call.content_type.as_ref(),
            call.accept.as_ref(),
            &self.api_key,
            &self.extra_headers,
        );
        Handling::Forward(Outgoing { url, request, headers, audit_line })
    }
}

/// The bytes of an optional owned header value.
pub open spec fn owned_bytes(v: Option<Vec<u8>>) -> Option<Seq<u8>> {
    match v {
        Some(b) => Some(b@),
        None => None,
    }
}

/// Whether a response of this content type is an event stream, to be masked line by line.
pub fn is_event_stream(content_type: Option<&str>) -> (r: bool)
    ensures
        r == (config::text_of(content_type) matches Some(t) && text::occurs(t, "event-stream"@)),
{
    match content_type {
        Some(t) => has_text(t, "event-stream"),
        None => false,
    }
}

/// One of the four legs of an exchange in the wire archive.
#[derive(Clone, Copy, Debug, PartialEq, Eq, Structural)]
pub enum Leg {
    CliRequest,
    ProviderRequest,
    ProviderResponse,
    CliResponse,
}

impl Leg {
    /// The name of the leg in the archive.
    pub fn as_str(&self) -> (r: &'static str)
        ensures
            r@ == (match self {
                Leg::CliRequest => "cli_request"@,
                Leg::ProviderRequest => "provider_request"@,
                Leg::ProviderResponse => "provider_response"@,
                Leg::CliResponse => "cli_response"@,
            }),
    {
        match self {
            Leg::CliRequest => "cli_request",
            Leg::ProviderRequest => "provider_request",
            Leg::ProviderResponse => "provider_response",
            Leg::CliResponse => "cli_response",
        }
    }

    /// Whether the leg is archived as a request.
    pub fn is_request(&self) -> (r: bool)
        ensures
            r == (*self is CliRequest || *self is ProviderRequest),
    {
        match self {
            Leg::CliRequest | Leg::ProviderRequest => true,
            Leg::ProviderResponse | Leg::CliResponse => false,
        }
    }
}

/// A session was asked for another event after it had ended.
#[derive(Clone, Copy, Debug, PartialEq, Eq, Structural)]
pub enum SessionError {
    AlreadyEnded,
}

impl SessionError {
    /// The error as text.
    pub fn message(&self) -> (r: String)
        ensures
            r@ == "next_event called after Ended"@,
    {
        "next_event called after Ended".to_owned()
    }
}

/// The lifecycle of a session: it ends once, and the first reason to stop it counts.
#[derive(Clone, Copy, Debug, PartialEq, Eq, Structural)]
pub struct ProxySession {
    pub aborted: Option<AbortReason>,
    pub ended: bool,
    /// Whether the transport has been told to shut down.
    pub stopping: bool,
}

impl ProxySession {
    /// A running session.
    pub fn new() -> (r: ProxySession)
        ensures
            r == (ProxySession { aborted: None, ended: false, stopping: false }),
    {
        ProxySession { aborted: None, ended: false, stopping: false }
    }

    /// The next event, from what the usage feed delivered: totals, or its end. After the end there
    /// is no further event.
    pub fn next_event(&mut self, feed: Option<Totals>) -> (r: Result<SessionEvent, SessionError>)
        ensures
            r == (if old(self).ended {
                Err::<SessionEvent, SessionError>(SessionError::AlreadyEnded)
            } else {
                match feed {
                    Some(t) => Ok(SessionEvent::Usage(t)),
                    None => Ok(SessionEvent::Ended),
                }
            }),
            *final(self) == (ProxySession { ended: old(self).ended || feed is None, ..*old(self) }),
    {
        if self.ended {
            return Err(SessionError::AlreadyEnded);
        }
        match feed {
            Some(t) => Ok(SessionEvent::Usage(t)),
            None => {
                self.ended = true;
                Ok(SessionEvent::Ended)
            },
        }
    }

    /// Asks the session to stop. The first reason is kept; returns whether the transport still has
    /// to be told.
    pub fn abort(&mut self, reason: AbortReason) -> (r: bool)
        ensures
            r == !old(self).stopping,
            *final(self) == (ProxySession {
                aborted: if old(self).aborted is Some {
                    old(self).aborted
                } else {
                    Some(reason)
                },
                stopping: true,
                ..*old(self)
            }),
    {
        if self.aborted.is_none() {
            self.aborted = Some(reason);
        }
        let tell: bool = !self.stopping;
        self.stopping = true;
        tell
    }

    /// What the finished session reports.
    pub fn finish(&self, c: &Cumulative) -> (r: SessionOutcome)
        ensures
            r == (SessionOutcome {
                realized_cost_nano: c.spent(),
                prompt_tokens: Some(c.prompt),
                completion_tokens: Some(c.completion),
                cached_prompt_tokens: Some(c.cached_prompt),
                error_kind: c.tagged(),
                error_status: c.terminal_status(),
                terminated_by: self.aborted,
            }),
    {
        let (prompt, completion, cached): (u64, u64, u64) = c.totals();
        SessionOutcome {
            realized_cost_nano: c.cost(),
            prompt_tokens: Some(prompt),
            completion_tokens: Some(completion),
            cached_prompt_tokens: Some(cached),
            error_kind: c.error_kind(),
            error_status: c.error_status(),
            terminated_by: self.aborted,
        }
    }

    /// What the session has used so far.
    pub fn usage(&self, c: &Cumulative) -> (r: Totals)
        ensures
            r == c.sums(),
    {
        let (prompt, completion, cached): (u64, u64, u64) = c.totals();
        Totals {
            prompt_tokens: prompt,
            completion_tokens: completion,
            cached_prompt_tokens: cached,
            cost_nano: c.cost(),
        }
    }
}

} // verus!
