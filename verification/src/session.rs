//! One session from its pick to its record: how the command is launched, when it is stopped, and
//! what is written down and said at its end.

use vstd::prelude::*;

use crate::backend::{AbortReason, CostSource, SessionOutcome};
use crate::cli;
use crate::cli::{has_model_arg, opencode_config_content, CliAdapter};
use crate::config;
use crate::double::Double;
use crate::json;
use crate::store::SessionEnd;
use crate::text;
use crate::text::{decimal_of, digits_of};

verus! {

/// An environment variable of a launched command.
#[derive(Debug)]
pub struct EnvVar {
    pub name: String,
    pub value: String,
}

/// What an environment variable says.
pub struct EnvVarView {
    pub name: Seq<char>,
    pub value: Seq<char>,
}

impl EnvVar {
    /// What the variable says.
    pub open spec fn view(self) -> EnvVarView {
        EnvVarView { name: self.name@, value: self.value@ }
    }
}

/// How a command is launched against the proxy.
#[derive(Debug)]
pub struct LaunchPlan {
    pub adapter: CliAdapter,
    pub args: Vec<String>,
    pub env: Vec<EnvVar>,
}

/// The variables of a launched command: the universal contract, then the adapter's own.
pub open spec fn launch_env(
    adapter: CliAdapter,
    base_url: Seq<char>,
    alias: Seq<char>,
    pi_dir: Option<Seq<char>>,
) -> Seq<EnvVarView> {
    let universal = seq![
        EnvVarView { name: "OPENAI_BASE_URL"@, value: base_url },
        EnvVarView { name: "OPENAI_API_KEY"@, value: "blindcoder"@ },
    ];
    match (adapter, pi_dir) {
        (CliAdapter::OpenCode, _) => universal.push(
            EnvVarView {
                name: "OPENCODE_CONFIG_CONTENT"@,
                value: json::json_text(cli::opencode_config(base_url, alias)),
            },
        ),
        (CliAdapter::Pi, Some(dir)) => universal.push(
            EnvVarView { name: "PI_CODING_AGENT_DIR"@, value: dir },
        ),
        _ => universal,
    }
}

/// Whether some argument picks a model.
pub open spec fn model_picked(args: Seq<Seq<char>>) -> bool {
    exists|i: int| 0 <= i < args.len() && cli::picks_model(#[trigger] args[i])
}

/// The arguments of a launched command: the user's, and for pi, once its config is in place, the
/// alias as the model where the user has picked none.
pub open spec fn launch_args(
    adapter: CliAdapter,
    given: Seq<Seq<char>>,
    alias: Seq<char>,
    pi_dir: Option<Seq<char>>,
) -> Seq<Seq<char>> {
    if adapter == CliAdapter::Pi && pi_dir is Some && !model_picked(given) {
        given.push("--model"@).push(cli::shown_model(alias))
    } else {
        given
    }
}

/// Plans how a command is launched. `pi_dir` is the injected pi config directory, where it could be
/// made: without it pi gets only the universal contract.
pub fn plan_launch(command: &Vec<String>, base_url: &str, alias: &str, pi_dir: Option<&str>) -> (r:
    LaunchPlan)
    requires
        command@.len() > 0,
    ensures
        r.adapter == CliAdapter::of(command@[0]@),
        r.env@.map_values(|v: EnvVar| v@) == launch_env(
            r.adapter,
            base_url@,
            alias@,
            config::text_of(pi_dir),
        ),
        text::texts(r.args@) == launch_args(
            r.adapter,
            text::texts(command@.skip(1)),
            alias@,
            config::text_of(pi_dir),
        ),
{
    let adapter: CliAdapter = CliAdapter::detect(command[0].as_str());
    let mut args: Vec<String> = Vec::new();
    let ghost given = text::texts(command@.skip(1));
    let mut i: usize = 1;
    while i < command.len()
        invariant
            1 <= i <= command@.len(),
            given == text::texts(command@.skip(1)),
            text::texts(args@) == given.take(i - 1),
        decreases command@.len() - i,
    {
        let ghost before = args@;
        args.push(command[i].clone());
        proof {
            assert(text::texts(args@) =~= text::texts(before).push(command@[i as int]@));
            assert(given[i - 1] == command@[i as int]@);
            assert(given.take(i as int) =~= given.take(i - 1).push(given[i - 1]));
        }
        i = i + 1;
    }
    proof {
        assert(given.take(i - 1) =~= given);
    }
    let mut env: Vec<EnvVar> = Vec::new();
    env.push(EnvVar { name: "OPENAI_BASE_URL".to_owned(), value: base_url.to_owned() });
    env.push(EnvVar { name: "OPENAI_API_KEY".to_owned(), value: "blindcoder".to_owned() });
    match adapter {
        CliAdapter::OpenCode => {
            env.push(
                EnvVar {
                    name: "OPENCODE_CONFIG_CONTENT".to_owned(),
                    value: opencode_config_content(base_url, alias),
                },
            );
        },
        CliAdapter::Pi => {
            if let Some(dir) = pi_dir {
                env.push(EnvVar { name: "PI_CODING_AGENT_DIR".to_owned(), value: dir.to_owned() });
                let picked: bool = has_model_arg(&args);
                proof {
                    if picked {
                        let k = choose|k: int|
                            0 <= k < args@.len() && cli::picks_model((#[trigger] args@[k])@);
                        assert(cli::picks_model(given[k]));
                    }
                    if model_picked(given) {
                        let k = choose|k: int|
                            0 <= k < given.len() && cli::picks_model(#[trigger] given[k]);
                        assert(given[k] == args@[k]@);
                    }
                }
                if !picked {
                    args.push("--model".to_owned());
                    let mut model: String = "blindcoder/".to_owned();
                    model.append(alias);
                    args.push(model);
                    proof {
                        assert(text::texts(args@) =~= given.push("--model"@).push(
                            cli::shown_model(alias@),
                        ));
                    }
                }
            }
        },
        CliAdapter::Generic => {},
    }
    proof {
        assert(env@.map_values(|v: EnvVar| v@) =~= launch_env(
            adapter,
            base_url@,
            alias@,
            config::text_of(pi_dir),
        ));
    }
    LaunchPlan { adapter, args, env }
}

/// The user's own model choice is never overridden, and their arguments always come first.
pub proof fn lemma_launch_respects_the_user(
    adapter: CliAdapter,
    given: Seq<Seq<char>>,
    alias: Seq<char>,
    pi_dir: Option<Seq<char>>,
)
    ensures
        model_picked(given) ==> launch_args(adapter, given, alias, pi_dir) == given,
        launch_args(adapter, given, alias, pi_dir).take(given.len() as int) == given,
{
    assert(launch_args(adapter, given, alias, pi_dir).take(given.len() as int) =~= given);
}

/// What a session is told about a standing proxy.
pub open spec fn standing_lines(
    pool_size: nat,
    base_url: Seq<char>,
    alias: Seq<char>,
    cap: Option<Seq<char>>,
) -> Seq<Seq<char>> {
    let opening = seq![
        "blindcoder: routing a blinded session (picked from a pool of "@ + text::digits(pool_size)
            + ")."@,
        "  point your OpenAI-compatible CLI at:  "@ + base_url,
        "  model to request:  "@ + alias + "   (any value works; the proxy rewrites it)"@,
    ];
    let capped = match cap {
        Some(c) => opening.push(
            "  cost cap:  $"@ + c + " (session is halted if the estimate reaches it)"@,
        ),
        None => opening,
    };
    capped.push("  press Ctrl-C to end the session and record it."@)
}

/// The lines printed when a standing proxy is up. `cap` is the cost cap as text, where there is one.
pub fn standing_banner(pool_size: usize, base_url: &str, alias: &str, cap: Option<&str>) -> (r: Vec<
    String,
>)
    ensures
        text::texts(r@) == standing_lines(
            pool_size as nat,
            base_url@,
            alias@,
            config::text_of(cap),
        ),
{
    let mut out: Vec<String> = Vec::new();
    let mut a: String = "blindcoder: routing a blinded session (picked from a pool of ".to_owned();
    a.append(digits_of(pool_size as u128).as_str());
    a.append(").");
    out.push(a);
    let mut b: String = "  point your OpenAI-compatible CLI at:  ".to_owned();
    b.append(base_url);
    out.push(b);
    let mut c: String = "  model to request:  ".to_owned();
    c.append(alias);
    c.append("   (any value works; the proxy rewrites it)");
    out.push(c);
    if let Some(t) = cap {
        let mut d: String = "  cost cap:  $".to_owned();
        d.append(t);
        d.append(" (session is halted if the estimate reaches it)");
        out.push(d);
    }
    out.push("  press Ctrl-C to end the session and record it.".to_owned());
    proof {
        assert(text::texts(out@) =~= standing_lines(
            pool_size as nat,
            base_url@,
            alias@,
            config::text_of(cap),
        ));
    }
    out
}

/// What a session is told about a launched command.
pub open spec fn launch_lines(
    program: Seq<char>,
    adapter: CliAdapter,
    pool_size: nat,
    alias: Seq<char>,
    cap: Option<Seq<char>>,
) -> Seq<Seq<char>> {
    let opening = seq![
        "blindcoder: launched `"@ + program + "` on a blinded session (pool of "@ + text::digits(
            pool_size,
        ) + "); ends when it exits."@,
        if adapter == CliAdapter::Generic {
            "  model to request:  "@ + alias + "   (any value works; the proxy rewrites it)"@
        } else {
            "  model shown in the CLI:  "@ + cli::shown_model(alias)
        },
    ];
    match cap {
        Some(c) => opening.push("  cost cap:  $"@ + c),
        None => opening,
    }
}

/// The lines printed when a command has been launched.
pub fn launch_banner(
    program: &str,
    adapter: CliAdapter,
    pool_size: usize,
    alias: &str,
    cap: Option<&str>,
) -> (r: Vec<String>)
    ensures
        text::texts(r@) == launch_lines(
            program@,
            adapter,
            pool_size as nat,
            alias@,
            config::text_of(cap),
        ),
{
    let mut out: Vec<String> = Vec::new();
    let mut a: String = "blindcoder: launched `".to_owned();
    a.append(program);
    a.append("` on a blinded session (pool of ");
    a.append(digits_of(pool_size as u128).as_str());
    a.append("); ends when it exits.");
    out.push(a);
    if adapter == CliAdapter::Generic {
        let mut b: String = "  model to request:  ".to_owned();
        b.append(alias);
        b.append("   (any value works; the proxy rewrites it)");
        out.push(b);
    } else {
        let mut shown: String = "blindcoder/".to_owned();
        shown.append(alias);
        let mut b: String = "  model shown in the CLI:  ".to_owned();
        b.append(shown.as_str());
        out.push(b);
    }
    if let Some(t) = cap {
        let mut c: String = "  cost cap:  $".to_owned();
        c.append(t);
        out.push(c);
    }
    proof {
        assert(text::texts(out@) =~= launch_lines(
            program@,
            adapter,
            pool_size as nat,
            alias@,
            config::text_of(cap),
        ));
    }
    out
}

/// Whether a session runs a standing proxy or a launched command.
#[derive(Clone, Copy, Debug, PartialEq, Eq, Structural)]
pub enum Mode {
    Standing,
    Launched,
}

/// What a session's driver is told.
#[derive(Clone, Copy, Debug, PartialEq, Eq, Structural)]
pub enum DriveEvent {
    /// Usage advanced: this many dollars are spent so far.
    Spent(Double),
    /// The transport has ended the session.
    Ended,
    /// The user asked to stop.
    Interrupted,
    /// The launched command has exited.
    Exited,
}

/// What a session's driver does next.
#[derive(Clone, Copy, Debug, PartialEq, Eq, Structural)]
pub enum DriveAction {
    Wait,
    /// Ask the transport to stop, and end a launched command.
    Abort(AbortReason),
    /// Leave the loop and finish the session.
    Finish,
}

/// Whether the cost cap is reached. A cap that is not above zero is off.
pub open spec fn over_cap(cap: Double, spent: Double) -> bool {
    (Double { bits: 0 }).below(cap) && spent.reaches(cap)
}

/// Whether the cost cap is reached.
pub fn cap_reached(cap: &Double, spent: &Double) -> (r: bool)
    ensures
        r == over_cap(*cap, *spent),
{
    let zero: Double = Double { bits: 0 };
    zero.less(cap) && spent.at_least(cap)
}

/// The driver of a session.
#[derive(Clone, Copy, Debug, PartialEq, Eq, Structural)]
pub struct Driver {
    pub mode: Mode,
    pub cap: Double,
    /// Whether the session has been asked to stop.
    pub aborting: bool,
}

impl Driver {
    /// What the driver does on an event.
    pub open spec fn action(self, event: DriveEvent) -> DriveAction {
        match event {
            DriveEvent::Spent(spent) => if !self.aborting && over_cap(self.cap, spent) {
                DriveAction::Abort(AbortReason::CostCap)
            } else {
                DriveAction::Wait
            },
            DriveEvent::Ended => DriveAction::Finish,
            DriveEvent::Interrupted => if self.mode == Mode::Standing && !self.aborting {
                DriveAction::Abort(AbortReason::User)
            } else {
                DriveAction::Wait
            },
            DriveEvent::Exited => if self.mode == Mode::Launched {
                DriveAction::Finish
            } else {
                DriveAction::Wait
            },
        }
    }

    /// The driver after an event.
    pub open spec fn after(self, event: DriveEvent) -> Driver {
        Driver { aborting: self.aborting || self.action(event) is Abort, ..self }
    }

    /// Whether the user's word to stop is listened for: whether it would stop the session.
    pub fn listens(&self) -> (r: bool)
        ensures
            r == (self.action(DriveEvent::Interrupted) is Abort),
    {
        self.mode == Mode::Standing && !self.aborting
    }

    /// Decides what to do on an event: stop at the cost cap in either mode, stop a standing proxy
    /// on the user's word, and finish when the transport or a launched command has ended.
    pub fn step(&mut self, event: DriveEvent) -> (r: DriveAction)
        ensures
            r == old(self).action(event),
            *final(self) == old(self).after(event),
    {
        match event {
            DriveEvent::Spent(spent) => {
                if !self.aborting && cap_reached(&self.cap, &spent) {
                    self.aborting = true;
                    DriveAction::Abort(AbortReason::CostCap)
                } else {
                    DriveAction::Wait
                }
            },
            DriveEvent::Ended => DriveAction::Finish,
            DriveEvent::Interrupted => {
                if self.mode == Mode::Standing && !self.aborting {
                    self.aborting = true;
                    DriveAction::Abort(AbortReason::User)
                } else {
                    DriveAction::Wait
                }
            },
            DriveEvent::Exited => if self.mode == Mode::Launched {
                DriveAction::Finish
            } else {
                DriveAction::Wait
            },
        }
    }
}

/// The driver after a script of events.
pub open spec fn driven(d: Driver, script: Seq<DriveEvent>) -> Driver
    decreases script.len(),
{
    if script.len() == 0 {
        d
    } else {
        driven(d, script.drop_last()).after(script.last())
    }
}

/// What the driver does on the event at a position of a script.
pub open spec fn action_at(d: Driver, script: Seq<DriveEvent>, i: int) -> DriveAction {
    driven(d, script.take(i)).action(script[i])
}

/// Once stopping, a driver goes on stopping, and neither its mode nor its cap changes.
proof fn lemma_driver_keeps(d: Driver, script: Seq<DriveEvent>, i: int, j: int)
    requires
        0 <= i <= j <= script.len(),
    ensures
        driven(d, script.take(i)).aborting ==> driven(d, script.take(j)).aborting,
        driven(d, script.take(j)).mode == d.mode,
        driven(d, script.take(j)).cap == d.cap,
    decreases j,
{
    if j > 0 {
        assert(script.take(j).drop_last() =~= script.take(j - 1));
        if i < j {
            lemma_driver_keeps(d, script, i, j - 1);
        } else {
            lemma_driver_keeps(d, script, j - 1, j - 1);
        }
    }
}

/// A session is stopped once at most: of all the events of a session only one is answered with an
/// abort.
pub proof fn lemma_aborts_once(d: Driver, script: Seq<DriveEvent>, i: int, j: int)
    requires
        0 <= i < j < script.len(),
        action_at(d, script, i) is Abort,
    ensures
        !(action_at(d, script, j) is Abort),
{
    assert(script.take(i + 1).drop_last() =~= script.take(i));
    assert(script.take(i + 1).last() == script[i]);
    lemma_driver_keeps(d, script, i + 1, j);
}

/// A cap of zero, or below, never stops a session.
pub proof fn lemma_no_cap_never_aborts(d: Driver, script: Seq<DriveEvent>, i: int)
    requires
        0 <= i < script.len(),
        d.cap.rank() <= 0,
    ensures
        action_at(d, script, i) != DriveAction::Abort(AbortReason::CostCap),
{
    lemma_driver_keeps(d, script, i, i);
}

/// The first time that spending reaches the cap, the session is stopped, unless it already is.
pub proof fn lemma_cap_stops_the_session(d: Driver, script: Seq<DriveEvent>, i: int)
    requires
        0 <= i < script.len(),
        script[i] matches DriveEvent::Spent(spent) && over_cap(d.cap, spent),
        !d.aborting,
    ensures
        exists|k: int| 0 <= k <= i && #[trigger] action_at(d, script, k) is Abort,
{
    lemma_driver_keeps(d, script, i, i);
    if driven(d, script.take(i)).aborting {
        lemma_some_abort(d, script, i);
    } else {
        assert(action_at(d, script, i) is Abort);
    }
}

/// A driver that is stopping has been told to stop by some event.
proof fn lemma_some_abort(d: Driver, script: Seq<DriveEvent>, i: int)
    requires
        0 <= i <= script.len(),
        !d.aborting,
        driven(d, script.take(i)).aborting,
    ensures
        exists|k: int| 0 <= k < i && #[trigger] action_at(d, script, k) is Abort,
    decreases i,
{
    if i > 0 {
        assert(script.take(i).drop_last() =~= script.take(i - 1));
        assert(script.take(i).last() == script[i - 1]);
        if driven(d, script.take(i - 1)).aborting {
            lemma_some_abort(d, script, i - 1);
        } else {
            assert(action_at(d, script, i - 1) is Abort);
        }
    } else {
        assert(script.take(0) =~= Seq::empty());
    }
}

/// What is recorded of a session's end: the provider's cost where it reported one, else the
/// estimate.
pub fn session_end_of(outcome: &SessionOutcome, reported: Option<Double>, estimate: Double) -> (r:
    SessionEnd)
    ensures
        r == (SessionEnd {
            realized_cost: match reported {
                Some(c) => Some(c),
                None => Some(estimate),
            },
            cost_source: Some(
                if reported is Some {
                    CostSource::Provider
                } else {
                    CostSource::Estimate
                },
            ),
            prompt_tokens: Some(
                match outcome.prompt_tokens {
                    Some(n) => n,
                    None => 0,
                },
            ),
            completion_tokens: Some(
                match outcome.completion_tokens {
                    Some(n) => n,
                    None => 0,
                },
            ),
            cached_prompt_tokens: outcome.cached_prompt_tokens,
            error_kind: outcome.error_kind,
            error_status: outcome.error_status,
            terminated_by: outcome.terminated_by,
        }),
{
    SessionEnd {
        realized_cost: match reported {
            Some(c) => Some(c),
            None => Some(estimate),
        },
        cost_source: Some(
            if reported.is_some() {
                CostSource::Provider
            } else {
                CostSource::Estimate
            },
        ),
        prompt_tokens: Some(
            match outcome.prompt_tokens {
                Some(n) => n,
                None => 0,
            },
        ),
        completion_tokens: Some(
            match outcome.completion_tokens {
                Some(n) => n,
                None => 0,
            },
        ),
        cached_prompt_tokens: outcome.cached_prompt_tokens,
        error_kind: outcome.error_kind,
        error_status: outcome.error_status,
        terminated_by: outcome.terminated_by,
    }
}

/// How a session's end is said.
pub open spec fn ending(terminated_by: Option<AbortReason>) -> Seq<char> {
    match terminated_by {
        Some(AbortReason::CostCap) => "stopped at the cost cap"@,
        Some(AbortReason::User) => "stopped by you"@,
        None => "ended"@,
    }
}

/// How a session's failure is said, where it has one.
pub open spec fn failure_note(outcome: SessionOutcome) -> Seq<char> {
    match (outcome.error_kind, outcome.error_status) {
        (Some(kind), Some(code)) => " [error: "@ + kind.name() + " ("@ + text::digits(code as nat)
            + ")]"@,
        (Some(kind), None) => " [error: "@ + kind.name() + "]"@,
        _ => Seq::empty(),
    }
}

/// A count that may be missing, as 0.
pub open spec fn count(n: Option<u64>) -> nat {
    match n {
        Some(k) => k as nat,
        None => 0,
    }
}

/// The line that sums a session up. `cost` is the recorded cost as text.
pub fn summary(sid: i64, outcome: &SessionOutcome, cost: &str, source: CostSource) -> (r: String)
    ensures
        r@ == "\nsession #"@ + text::decimal(sid as int) + " "@ + ending(outcome.terminated_by)
            + failure_note(*outcome) + ": "@ + text::digits(count(outcome.prompt_tokens))
            + " in + "@ + text::digits(count(outcome.completion_tokens)) + " out tokens, $"@ + cost@
            + " ("@ + source.name() + ")."@,
{
    let mut out: String = "\nsession #".to_owned();
    out.append(decimal_of(sid).as_str());
    out.append(" ");
    match outcome.terminated_by {
        Some(AbortReason::CostCap) => out.append("stopped at the cost cap"),
        Some(AbortReason::User) => out.append("stopped by you"),
        None => out.append("ended"),
    }
    let mut note: String = String::new();
    if let Some(kind) = outcome.error_kind {
        let mut t: String = " [error: ".to_owned();
        t.append(kind.as_str());
        match outcome.error_status {
            Some(code) => {
                t.append(" (");
                t.append(digits_of(code as u128).as_str());
                t.append(")]");
            },
            None => t.append("]"),
        }
        note = t;
    }
    out.append(note.as_str());
    out.append(": ");
    let prompt: u64 = match outcome.prompt_tokens {
        Some(n) => n,
        None => 0,
    };
    out.append(digits_of(prompt as u128).as_str());
    out.append(" in + ");
    let completion: u64 = match outcome.completion_tokens {
        Some(n) => n,
        None => 0,
    };
    out.append(digits_of(completion as u128).as_str());
    out.append(" out tokens, $");
    out.append(cost);
    out.append(" (");
    out.append(source.as_str());
    out.append(").");
    out
}

/// Whether the rating is asked for right after a session: a launched command, unless the user
/// declined.
pub fn asks_for_rating(args: &cli::RunArgs) -> (r: bool)
    ensures
        r == (args.command@.len() > 0 && !args.no_rate),
{
    args.command.len() > 0 && !args.no_rate
}

/// How to rate a session later on.
pub fn rate_hint(lead: &str, sid: i64) -> (r: String)
    ensures
        r@ == "  "@ + lead@ + ":  blindcoder rate --session "@ + text::decimal(sid as int)
            + " --performance <-2..2> --difficulty <0..4>"@,
{
    let mut out: String = "  ".to_owned();
    out.append(lead);
    out.append(":  blindcoder rate --session ");
    out.append(decimal_of(sid).as_str());
    out.append(" --performance <-2..2> --difficulty <0..4>");
    out
}

/// What is said once a rating is recorded.
pub fn rating_recorded(id: i64, session: i64, supersedes: Option<i64>) -> (r: String)
    ensures
        r@ == "recorded rating #"@ + text::decimal(id as int) + " for session #"@ + text::decimal(
            session as int,
        ) + (match supersedes {
            Some(old) => " (supersedes #"@ + text::decimal(old as int) + ")"@,
            None => Seq::empty(),
        }),
{
    let mut out: String = "recorded rating #".to_owned();
    out.append(decimal_of(id).as_str());
    out.append(" for session #");
    out.append(decimal_of(session).as_str());
    let mut tail: String = String::new();
    if let Some(old) = supersedes {
        let mut t: String = " (supersedes #".to_owned();
        t.append(decimal_of(old).as_str());
        t.append(")");
        tail = t;
    }
    out.append(tail.as_str());
    out
}

/// Every launched command is told the proxy's address, under the name that all of them know, and a
/// key that is no secret; beyond these it is told at most one thing more, and only what its own
/// adapter needs.
pub proof fn lemma_launch_points_at_the_proxy(
    adapter: CliAdapter,
    base_url: Seq<char>,
    alias: Seq<char>,
    pi_dir: Option<Seq<char>>,
)
    ensures
        ({
            let env = launch_env(adapter, base_url, alias, pi_dir);
            &&& env.len() >= 2
            &&& env[0].name == "OPENAI_BASE_URL"@ && env[0].value == base_url
            &&& env[1].name == "OPENAI_API_KEY"@ && env[1].value == "blindcoder"@
            &&& adapter == CliAdapter::Generic ==> env.len() == 2
            &&& adapter == CliAdapter::OpenCode ==> env.len() == 3 && env[2].name
                == "OPENCODE_CONFIG_CONTENT"@ && env[2].value == json::json_text(
                cli::opencode_config(base_url, alias),
            )
            &&& adapter == CliAdapter::Pi ==> (match pi_dir {
                Some(dir) => env.len() == 3 && env[2].name == "PI_CODING_AGENT_DIR"@ && env[2].value
                    == dir,
                None => env.len() == 2,
            })
        }),
{
}

/// Pi is told the alias as its model exactly where its config is in place and the user has picked
/// none; no other command gets an argument of ours.
pub proof fn lemma_only_pi_is_told_its_model(
    adapter: CliAdapter,
    given: Seq<Seq<char>>,
    alias: Seq<char>,
    pi_dir: Option<Seq<char>>,
)
    ensures
        ({
            let args = launch_args(adapter, given, alias, pi_dir);
            &&& adapter != CliAdapter::Pi || pi_dir is None ==> args == given
            &&& adapter == CliAdapter::Pi && pi_dir is Some && (forall|i: int|
                0 <= i < given.len() ==> !cli::picks_model(#[trigger] given[i])) ==> args.len()
                == given.len() + 2 && args[given.len() as int] == "--model"@ && args[given.len() as int
                + 1] == "blindcoder/"@ + alias
        }),
{
}

/// A cap above zero stops a session from the moment that as much is spent, and no cap does so
/// before; a cap that is zero, below it or no number stops none.
pub proof fn lemma_cap_by_value(cap: Double, spent: Double)
    ensures
        !cap.nan() && !spent.nan() ==> (over_cap(cap, spent) <==> cap.value() > 0 && spent.value()
            >= cap.value()),
        cap.nan() || spent.nan() ==> !over_cap(cap, spent),
{
    let zero = Double { bits: 0 };
    crate::double::lemma_rank_orders(zero, cap);
    crate::double::lemma_rank_orders(spent, cap);
    crate::double::lemma_rank_orders(cap, spent);
    assert(zero.value() == 0);
}

/// What each event does to a session that is not yet stopping: spending stops it at the cap, an
/// interrupt stops a standing proxy but not a launched command, the end of the proxy ends it, and
/// so does the exit of a launched command.
pub proof fn lemma_events_of_a_running_session(d: Driver, spent: Double)
    requires
        !d.aborting,
    ensures
        over_cap(d.cap, spent) ==> d.action(DriveEvent::Spent(spent)) == DriveAction::Abort(
            AbortReason::CostCap,
        ),
        !over_cap(d.cap, spent) ==> d.action(DriveEvent::Spent(spent)) == DriveAction::Wait,
        d.mode == Mode::Standing ==> d.action(DriveEvent::Interrupted) == DriveAction::Abort(
            AbortReason::User,
        ) && d.action(DriveEvent::Exited) == DriveAction::Wait,
        d.mode == Mode::Launched ==> d.action(DriveEvent::Interrupted) == DriveAction::Wait
            && d.action(DriveEvent::Exited) == DriveAction::Finish,
        d.action(DriveEvent::Ended) == DriveAction::Finish,
{
}

/// A session that is stopping is not stopped again, and still ends.
pub proof fn lemma_events_of_a_stopping_session(d: Driver, event: DriveEvent)
    requires
        d.aborting,
    ensures
        !(d.action(event) is Abort),
        event == DriveEvent::Ended ==> d.action(event) == DriveAction::Finish,
        d.after(event).aborting,
{
}

/// No two ways to end are said alike.
pub proof fn lemma_endings_differ(a: Option<AbortReason>, b: Option<AbortReason>)
    ensures
        ending(a) == ending(b) ==> a == b,
{
    reveal_strlit("stopped at the cost cap");
    reveal_strlit("stopped by you");
    reveal_strlit("ended");
    assert("stopped at the cost cap"@.len() == 23 && "stopped by you"@.len() == 14
        && "ended"@.len() == 5);
}

/// A session that did not fail has no note; one that did is noted with its kind, and with its status
/// where it has one.
pub proof fn lemma_failures_are_noted(outcome: SessionOutcome)
    ensures
        outcome.error_kind is None ==> failure_note(outcome).len() == 0,
        outcome.error_kind matches Some(kind) ==> {
            let status = match outcome.error_status {
                Some(code) => " ("@ + text::digits(code as nat) + ")"@,
                None => Seq::empty(),
            };
            failure_note(outcome) == " [error: "@ + kind.name() + status + "]"@
        },
{
    reveal_strlit(")]");
    reveal_strlit(")");
    reveal_strlit("]");
    if let Some(kind) = outcome.error_kind {
        if let Some(code) = outcome.error_status {
            let digits = text::digits(code as nat);
            assert(")]"@ =~= ")"@ + "]"@);
            assert(" [error: "@ + kind.name() + " ("@ + digits + (")"@ + "]"@) =~= " [error: "@
                + kind.name() + (" ("@ + digits + ")"@) + "]"@);
        } else {
            assert(" [error: "@ + kind.name() + Seq::<char>::empty() + "]"@ =~= " [error: "@
                + kind.name() + "]"@);
        }
    }
}

/// A standing proxy tells its address, its alias and the size of its pool, and its cap where it has
/// one; the last line tells how to end it.
pub proof fn lemma_standing_proxy_tells(
    pool_size: nat,
    base_url: Seq<char>,
    alias: Seq<char>,
    cap: Option<Seq<char>>,
)
    ensures
        ({
            let lines = standing_lines(pool_size, base_url, alias, cap);
            &&& lines.len() == (if cap is Some {
                5int
            } else {
                4
            })
            &&& text::occurs(lines[0], text::digits(pool_size))
            &&& text::ends_with(lines[1], base_url)
            &&& text::occurs(lines[2], alias)
            &&& cap matches Some(c) ==> text::occurs(lines[3], seq!['$'] + c)
            &&& lines.last() == "  press Ctrl-C to end the session and record it."@
        }),
{
    let lines = standing_lines(pool_size, base_url, alias, cap);
    let a = "blindcoder: routing a blinded session (picked from a pool of "@;
    lemma_stands_inside(a, text::digits(pool_size), ")."@);
    let b = "  point your OpenAI-compatible CLI at:  "@;
    assert(lines[1].subrange(b.len() as int, b.len() as int + base_url.len()) =~= base_url);
    let c = "  model to request:  "@;
    lemma_stands_inside(c, alias, "   (any value works; the proxy rewrites it)"@);
    if let Some(limit) = cap {
        reveal_strlit("  cost cap:  $");
        reveal_strlit("  cost cap:  ");
        let behind = " (session is halted if the estimate reaches it)"@;
        assert("  cost cap:  $"@ + limit + behind =~= "  cost cap:  "@ + (seq!['$'] + limit)
            + behind);
        lemma_stands_inside("  cost cap:  "@, seq!['$'] + limit, behind);
    }
}

/// A launched command is named, with the size of its pool and the model as the command shows it, and
/// its cap where it has one.
pub proof fn lemma_launched_command_tells(
    program: Seq<char>,
    adapter: CliAdapter,
    pool_size: nat,
    alias: Seq<char>,
    cap: Option<Seq<char>>,
)
    ensures
        ({
            let lines = launch_lines(program, adapter, pool_size, alias, cap);
            &&& lines.len() == (if cap is Some {
                3int
            } else {
                2
            })
            &&& text::occurs(lines[0], program)
            &&& text::occurs(lines[0], text::digits(pool_size))
            &&& adapter == CliAdapter::Generic ==> text::occurs(lines[1], alias)
            &&& adapter != CliAdapter::Generic ==> text::ends_with(
                lines[1],
                "blindcoder/"@ + alias,
            )
            &&& cap matches Some(c) ==> text::ends_with(lines[2], seq!['$'] + c)
        }),
{
    let lines = launch_lines(program, adapter, pool_size, alias, cap);
    let a = "blindcoder: launched `"@;
    let b = "` on a blinded session (pool of "@;
    let size = text::digits(pool_size);
    let end = "); ends when it exits."@;
    assert(lines[0] =~= a + program + (b + size + end));
    lemma_stands_inside(a, program, b + size + end);
    assert(lines[0] =~= (a + program + b) + size + end);
    lemma_stands_inside(a + program + b, size, end);
    if adapter == CliAdapter::Generic {
        lemma_stands_inside(
            "  model to request:  "@,
            alias,
            "   (any value works; the proxy rewrites it)"@,
        );
    } else {
        let shown = "blindcoder/"@ + alias;
        let lead = "  model shown in the CLI:  "@;
        assert(lines[1].subrange(lead.len() as int, lead.len() as int + shown.len()) =~= shown);
    }
    if let Some(c) = cap {
        reveal_strlit("  cost cap:  $");
        let priced = seq!['$'] + c;
        assert(lines[2].subrange(lines[2].len() - priced.len(), lines[2].len() as int) =~= priced);
    }
}

/// What stands between two texts occurs in the whole.
proof fn lemma_stands_inside(front: Seq<char>, inside: Seq<char>, behind: Seq<char>)
    ensures
        text::occurs(front + inside + behind, inside),
{
    let whole = front + inside + behind;
    let at = front.len() as int;
    assert(whole.subrange(at, at + inside.len()) =~= inside);
    assert(text::matches_at(whole, at, inside));
}

} // verus!
