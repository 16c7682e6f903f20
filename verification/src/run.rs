//! `run`, step by step: the gates, the pool, and the session that the pick opens. Drawing the pick
//! and moving the bytes are the program's part.

use vstd::prelude::*;

use crate::alias::{Alias, RevealGate, RevealReason};
use crate::backend::{Pick, VettedEndpoint};
use crate::config;
use crate::config::{join_path, CaptureLevel, Config, Privacy, ProviderConfig};
use crate::dates;
use crate::dates::date_to_epoch_days;
use crate::gates;
use crate::gates::{validate_non_zdr_gates, validate_pool_privacy};
use crate::json;
use crate::json::Json;
use crate::pool;
use crate::pool::{build_pool, find_provider, resolve_api_key, seed_pool, PoolEntry};
use crate::proxy::ProxyBackend;
use crate::store;
use crate::store::{Route, Store, StoreError, Tables};
use crate::text;
use crate::text::decimal_of;

verus! {

/// Why a run was refused before anything was written.
#[derive(Debug)]
pub enum GateRefusal {
    Pool(gates::PoolRefusal),
    Consent(gates::ConsentRefusal),
}

/// What an admitted pool is: its config, and whether no-ZDR routing is armed.
pub ghost struct Admission {
    pub config: Config,
    pub armed: bool,
}

impl Admission {
    /// Whether the whole pool passes the gates on some day, under some consent.
    pub open spec fn passes(self) -> bool {
        let ps = self.config.providers@;
        &&& forall|i: int| 0 <= i < ps.len() ==> gates::pool_fault(#[trigger] ps[i]) is None
        &&& exists|built: bool, flag_passed: bool, env_present: bool, today: i64| #[trigger]
            gates::consent(ps, built, flag_passed, env_present, today)
                == gates::ConsentView::Armed(self.armed)
    }
}

/// A config whose whole pool has passed the gates. Only [`admit_pool`] makes one, and no pool is
/// gathered and no session opened without one.
#[derive(Debug)]
pub struct AdmittedPool<'a> {
    cfg: &'a Config,
    armed: bool,
}

impl<'a> View for AdmittedPool<'a> {
    type V = Admission;

    closed spec fn view(&self) -> Admission {
        Admission { config: *self.cfg, armed: self.armed }
    }
}

impl<'a> AdmittedPool<'a> {
    #[verifier::type_invariant]
    spec fn inv(self) -> bool {
        self@.passes()
    }

    /// The config.
    pub fn config(&self) -> (r: &'a Config)
        ensures
            *r == self@.config,
            self@.passes(),
    {
        proof {
            use_type_invariant(self);
        }
        self.cfg
    }

    /// Whether no-ZDR routing is armed.
    pub fn armed(&self) -> (r: bool)
        ensures
            r == self@.armed,
            self@.passes(),
    {
        proof {
            use_type_invariant(self);
        }
        self.armed
    }
}

/// Passes the whole configured pool through the gates: privacy first, then the no-ZDR consent
/// chain. Nothing is read or written before this.
pub fn admit_pool<'a>(
    cfg: &'a Config,
    built: bool,
    flag_passed: bool,
    env_present: bool,
    today: i64,
) -> (r: Result<AdmittedPool<'a>, GateRefusal>)
    ensures
        match r {
            Ok(admitted) => admitted@.config == *cfg && (forall|i: int|
                0 <= i < cfg.providers@.len() ==> gates::pool_fault(
                    #[trigger] cfg.providers@[i],
                ) is None) && gates::consent(
                cfg.providers@,
                built,
                flag_passed,
                env_present,
                today,
            ) == gates::ConsentView::Armed(admitted@.armed),
            Err(GateRefusal::Pool(e)) => e.provider < cfg.providers@.len() && (forall|i: int|
                0 <= i < e.provider ==> gates::pool_fault(#[trigger] cfg.providers@[i]) is None)
                && gates::pool_fault(cfg.providers@[e.provider as int]) == Some(e.fault)
                && e.message@ == gates::pool_fault_text(
                cfg.providers@[e.provider as int],
                e.fault,
            ),
            Err(GateRefusal::Consent(e)) => (forall|i: int|
                0 <= i < cfg.providers@.len() ==> gates::pool_fault(
                    #[trigger] cfg.providers@[i],
                ) is None) && gates::consent(
                cfg.providers@,
                built,
                flag_passed,
                env_present,
                today,
            ) == gates::ConsentView::Refused(
                match e.provider {
                    Some(i) => Some(i as int),
                    None => None,
                },
                e.fault,
            ) && gates::says_consent_fault(
                e.message@,
                match e.provider {
                    Some(i) => Some(cfg.providers@[i as int]),
                    None => None,
                },
                e.fault,
            ),
        },
{
    if let Err(e) = validate_pool_privacy(cfg) {
        return Err(GateRefusal::Pool(e));
    }
    match validate_non_zdr_gates(cfg, built, flag_passed, env_present, today) {
        Ok(armed) => Ok(AdmittedPool { cfg, armed }),
        Err(e) => Err(GateRefusal::Consent(e)),
    }
}

/// Why a run failed.
#[derive(Debug)]
pub enum RunError {
    /// The store refused.
    Store(StoreError),
    /// There is no pool.
    Pool(pool::PoolError),
    /// The picked provider is not configured.
    ProviderMissing,
    /// The picked alias leads nowhere.
    NoRoute,
    /// The provider's key cannot be had.
    Key(pool::KeyError),
    /// There is no place for the session's files.
    NoStateDir,
    /// The picked provider declares no privacy protocol. An admitted pool has no such provider.
    NoPrivacy(String),
}

/// What is said of a picked provider without a privacy protocol.
pub open spec fn no_privacy_text(p: ProviderConfig) -> Seq<char> {
    "picked provider "@ + gates::quoted_text(p.slug@)
        + " has no `privacy` declaration (should have been excluded)"@
}

impl RunError {
    /// The error as text.
    pub open spec fn text(self) -> Seq<char> {
        match self {
            RunError::Store(e) => e.text(),
            RunError::Pool(e) => e.text(),
            RunError::ProviderMissing => "picked provider is missing from config"@,
            RunError::NoRoute => "route must resolve for the picked alias"@,
            RunError::Key(e) => e.message@,
            RunError::NoStateDir => "cannot determine state dir (set XDG_STATE_HOME or HOME)"@,
            RunError::NoPrivacy(t) => t@,
        }
    }

    /// The error as text.
    pub fn message(&self) -> (r: String)
        ensures
            r@ == self.text(),
    {
        match self {
            RunError::Store(e) => e.message().to_owned(),
            RunError::Pool(e) => e.message(),
            RunError::ProviderMissing => "picked provider is missing from config".to_owned(),
            RunError::NoRoute => "route must resolve for the picked alias".to_owned(),
            RunError::Key(e) => e.message.clone(),
            RunError::NoStateDir =>
                "cannot determine state dir (set XDG_STATE_HOME or HOME)".to_owned(),
            RunError::NoPrivacy(t) => t.clone(),
        }
    }
}

/// Seeds the store from an admitted config and gathers the pool.
pub fn gather_pool(
    s: &mut Store,
    admitted: &AdmittedPool,
    rng: &mut rand::rngs::StdRng,
    now: i64,
) -> (r: Result<Vec<PoolEntry>, RunError>)
    ensures
        admitted@.passes(),
        final(s)@.wf(),
        final(s)@.extends(old(s)@),
        pool::same_events(final(s)@, old(s)@),
        match r {
            Ok(entries) => {
                let ps = admitted@.config.providers@;
                &&& entries@.len() > 0
                &&& pool::is_pool(entries@, final(s)@, admitted@.config, now)
                &&& pool::pool_reflected(old(s)@, final(s)@, ps, now)
                &&& pool::distinct_pool(admitted@.config) ==> forall|k: int|
                    0 <= k < entries@.len() ==> pool::leads_to(
                        #[trigger] entries@[k],
                        final(s)@,
                        ps,
                        pool::pool_places(ps)[k],
                    )
            },
            Err(RunError::Store(e)) => e == StoreError::AliasTaken && !pool::all_masked(
                old(s)@,
                admitted@.config,
            ) && exists|i: int, j: int| #[trigger]
                pool::pool_refused_at(old(s)@, final(s)@, admitted@.config.providers@, i, j, now),
            Err(e) => e == RunError::Pool(pool::PoolError::Empty) && pool::pool_places(
                admitted@.config.providers@,
            ).len() == 0 && pool::pool_reflected(
                old(s)@,
                final(s)@,
                admitted@.config.providers@,
                now,
            ),
        },
{
    let cfg: &Config = admitted.config();
    let ghost s0 = s@;
    if let Err(e) = seed_pool(s, cfg, rng, now) {
        return Err(RunError::Store(e));
    }
    proof {
        assert forall|pi: int, mi: int| pool::in_pool(*cfg, pi, mi) implies #[trigger] pool::masked(
            s@,
            *cfg,
            pi,
            mi,
        ) by {}
    }
    match build_pool(s, cfg, now) {
        Ok(entries) => {
            proof {
                if pool::distinct_pool(*cfg) {
                    assert forall|k: int| 0 <= k < entries@.len() implies pool::leads_to(
                        #[trigger] entries@[k],
                        s@,
                        cfg.providers@,
                        pool::pool_places(cfg.providers@)[k],
                    ) by {
                        pool::lemma_pool_leads_to_the_config(s0, s@, *cfg, now, entries@, now, k);
                    }
                }
            }
            Ok(entries)
        },
        Err(e) => Err(RunError::Pool(e)),
    }
}

/// The same headers again.
fn copy_headers(list: &Vec<(String, String)>) -> (r: Vec<(String, String)>)
    ensures
        same_headers(r@, list@),
{
    let mut out: Vec<(String, String)> = Vec::new();
    let mut i: usize = 0;
    while i < list.len()
        invariant
            i <= list@.len(),
            out@.len() == i,
            forall|k: int|
                0 <= k < i ==> (#[trigger] out@[k]).0@ == list@[k].0@ && out@[k].1@ == list@[k].1@,
        decreases list@.len() - i,
    {
        out.push((list[i].0.clone(), list[i].1.clone()));
        i = i + 1;
    }
    out
}

/// Whether two lists hold the same headers.
pub open spec fn same_headers(a: Seq<(String, String)>, b: Seq<(String, String)>) -> bool {
    a.len() == b.len() && forall|k: int|
        0 <= k < a.len() ==> (#[trigger] a[k]).0@ == b[k].0@ && a[k].1@ == b[k].1@
}

/// The same members again.
fn copy_members(list: &Vec<(String, Json)>) -> (r: Vec<(String, Json)>)
    ensures
        json::members_view(r@) == json::members_view(list@),
{
    let mut out: Vec<(String, Json)> = Vec::new();
    let mut i: usize = 0;
    proof {
        assert(list@.take(0) =~= Seq::empty());
    }
    while i < list.len()
        invariant
            i <= list@.len(),
            json::members_view(out@) == json::members_view(list@.take(i as int)),
        decreases list@.len() - i,
    {
        let ghost before = out@;
        out.push((list[i].0.clone(), list[i].1.duplicate()));
        proof {
            assert(out@.drop_last() =~= before);
            assert(list@.take(i + 1).drop_last() =~= list@.take(i as int));
        }
        i = i + 1;
    }
    proof {
        assert(list@.take(i as int) =~= list@);
    }
    out
}

/// A session that is about to start: its id, its target and the proxy that will serve it.
#[derive(Debug)]
pub struct Opened {
    pub session_id: i64,
    pub alias_display: String,
    pub pick: Pick,
    pub backend: ProxyBackend,
}

/// What the environment contributes to opening a session.
#[derive(Clone, Copy, Debug)]
pub struct Surroundings<'a> {
    /// What the variable that the provider's `key_env` names holds.
    pub key_value: Option<&'a str>,
    /// The program's state directory.
    pub state_dir: Option<&'a str>,
    /// In seconds since the epoch.
    pub now: i64,
}

/// The label of a session's client: the launched command, or the proxy itself.
pub open spec fn client_label(command: Seq<String>) -> Seq<char> {
    if command.len() == 0 {
        "proxy"@
    } else {
        command[0]@
    }
}

/// Where the wire archive of a session goes.
pub open spec fn archive_path(state_dir: Seq<char>, sid: i64) -> Seq<char> {
    config::below_dir(
        config::below_dir(state_dir, "wire"@),
        text::decimal(sid as int) + ".warc"@,
    )
}

/// Where the audit trail goes.
pub open spec fn audit_path(state_dir: Seq<char>) -> Seq<char> {
    config::below_dir(state_dir, "non-zdr-audit.log"@)
}

/// The last day of a provider's attestation, where it names one.
pub open spec fn attested_until(p: ProviderConfig) -> Option<int> {
    match config::owned_text(p.expires) {
        Some(t) => dates::day_named(t),
        None => None,
    }
}

/// Whether `next` is the store with a session started under an alias, its log of reveals aside.
pub open spec fn session_started(
    s: Tables,
    next: Tables,
    alias: Seq<char>,
    cfg: Config,
    command: Seq<String>,
    now: i64,
) -> bool {
    &&& next == (Tables { sessions: next.sessions, reveals: next.reveals, ..s })
    &&& next.sessions@.len() == s.sessions@.len() + 1
    &&& store::next_id(s.last_session_id()) matches Some(sid) && Tables::is_session(
        next.sessions@.last(),
        sid,
        alias,
        Some(client_label(command)),
        None,
        cfg.capture_level,
        now,
    )
}

/// Whether the log of reveals of `next` has gained the unmasking of an alias for a session.
pub open spec fn crossing_journaled(
    s: Tables,
    next: Tables,
    sid: Option<i64>,
    alias: Seq<char>,
    now: i64,
) -> bool {
    &&& next.reveals@.len() == s.reveals@.len() + 1
    &&& store::next_id(s.last_reveal_id()) matches Some(id) && Tables::is_reveal(
        next.reveals@.last(),
        id,
        alias,
        sid,
        RevealReason::Routing,
        now,
    )
}

/// Whether a proxy is set up for a provider as configured.
pub open spec fn backend_of(
    b: ProxyBackend,
    p: ProviderConfig,
    cfg: Config,
    sid: i64,
    around: Surroundings,
) -> bool {
    &&& b.bind_addr@ == cfg.proxy_addr@
    &&& same_headers(b.extra_headers@, p.extra_headers@)
    &&& json::members_view(b.extra_body@) == json::members_view(p.extra_body@)
    &&& p.privacy == Some(b.privacy)
    &&& config::owned_text(b.capture_path) == (if cfg.capture_level == CaptureLevel::Replay {
        Some(archive_path(config::text_of(around.state_dir)->Some_0, sid))
    } else {
        None
    })
    &&& match b.non_zdr_audit {
        Some(audit) => b.privacy == Privacy::NoZdr && audit.path@ == audit_path(
            config::text_of(around.state_dir)->Some_0,
        ) && (match audit.expires_epoch_days {
            Some(d) => attested_until(p) == Some(d as int),
            None => attested_until(p) is None,
        }),
        None => b.privacy != Privacy::NoZdr,
    }
}

/// How far opening a session gets.
pub enum Opening {
    NoProvider,
    NoSessionId,
    NoRoute,
    NoRevealId,
    NoKey,
    NoStateDir,
    NoPrivacy,
    Open,
}

/// How far setting up the proxy for a provider gets: the archive and the audit trail need the state
/// directory.
pub open spec fn setting_up(p: ProviderConfig, cfg: Config, around: Surroundings) -> Opening {
    if cfg.capture_level == CaptureLevel::Replay && around.state_dir is None {
        Opening::NoStateDir
    } else if p.privacy is None {
        Opening::NoPrivacy
    } else if p.privacy == Some(Privacy::NoZdr) && around.state_dir is None {
        Opening::NoStateDir
    } else {
        Opening::Open
    }
}

/// How far opening the session of a picked entry gets.
pub open spec fn opening(
    s: Tables,
    cfg: Config,
    entry: PoolEntry,
    around: Surroundings,
) -> Opening {
    match pool::provider_named(cfg.providers@, entry.provider_slug@) {
        None => Opening::NoProvider,
        Some(i) => if store::next_id(s.last_session_id()) is None {
            Opening::NoSessionId
        } else if s.route_of(entry.alias.name()) is None {
            Opening::NoRoute
        } else if store::next_id(s.last_reveal_id()) is None {
            Opening::NoRevealId
        } else if pool::key_of(cfg.providers@[i], config::text_of(around.key_value))
            == pool::KeyView::Missing {
            Opening::NoKey
        } else {
            setting_up(cfg.providers@[i], cfg, around)
        },
    }
}

/// Whether an error is what is answered where opening a session gets no further.
pub open spec fn refused_at(e: RunError, at: Opening, cfg: Config, entry: PoolEntry) -> bool {
    let p = cfg.providers@[pool::provider_named(cfg.providers@, entry.provider_slug@)->Some_0];
    match at {
        Opening::NoProvider => e is ProviderMissing,
        Opening::NoSessionId | Opening::NoRevealId => e == RunError::Store(StoreError::OutOfIds),
        Opening::NoRoute => e is NoRoute,
        Opening::NoKey => e matches RunError::Key(k) && k.message@ == pool::key_error_text(p),
        Opening::NoStateDir => e is NoStateDir,
        Opening::NoPrivacy => e matches RunError::NoPrivacy(t) && t@ == no_privacy_text(p),
        Opening::Open => false,
    }
}

/// The proxy for a provider as configured, for a session.
fn set_up_backend(
    p: &ProviderConfig,
    cfg: &Config,
    sid: i64,
    api_key: Option<String>,
    around: &Surroundings,
) -> (r: Result<ProxyBackend, RunError>)
    ensures
        match r {
            Ok(b) => setting_up(*p, *cfg, *around) == Opening::Open && backend_of(
                b,
                *p,
                *cfg,
                sid,
                *around,
            ) && b.api_key == api_key,
            Err(RunError::NoStateDir) => setting_up(*p, *cfg, *around) == Opening::NoStateDir,
            Err(RunError::NoPrivacy(t)) => setting_up(*p, *cfg, *around) == Opening::NoPrivacy && t@
                == no_privacy_text(*p),
            Err(_) => false,
        },
{
    let capture_path: Option<String> = if cfg.capture_level.at_least(CaptureLevel::Replay) {
        match around.state_dir {
            Some(dir) => {
                let mut file: String = decimal_of(sid);
                file.append(".warc");
                Some(join_path(join_path(dir, "wire").as_str(), file.as_str()))
            },
            None => {
                return Err(RunError::NoStateDir);
            },
        }
    } else {
        None
    };
    let privacy: Privacy = match p.privacy {
        Some(v) => v,
        None => {
            let mut t: String = "picked provider ".to_owned();
            t.append(gates::quoted(p.slug.as_str()).as_str());
            t.append(" has no `privacy` declaration (should have been excluded)");
            return Err(RunError::NoPrivacy(t));
        },
    };
    let backend: ProxyBackend = ProxyBackend::new(
        cfg.proxy_addr.clone(),
        api_key,
        copy_headers(p.extra_headers.pairs()),
        copy_members(p.extra_body.pairs()),
        privacy,
        capture_path,
    );
    if privacy != Privacy::NoZdr {
        return Ok(backend);
    }
    match around.state_dir {
        Some(dir) => {
            let expires: Option<i64> = match &p.expires {
                Some(t) => date_to_epoch_days(t.as_str()),
                None => None,
            };
            Ok(backend.with_non_zdr_audit(join_path(dir, "non-zdr-audit.log"), expires))
        },
        None => Err(RunError::NoStateDir),
    }
}

/// Resolves an alias through the reveal gate, for routing.
fn route_through_gate(s: &Store, alias: &Alias) -> (r: Option<Route>)
    ensures
        match r {
            Some(t) => s@.route_of(alias.name()) == Some(t@),
            None => s@.route_of(alias.name()) is None,
        },
{
    let lookup = |a: &Alias| -> (found: Option<Route>)
        ensures
            match found {
                Some(t) => s@.route_of(a.name()) == Some(t@),
                None => s@.route_of(a.name()) is None,
            },
        { s.resolve_route(a.display().as_str()) };
    RevealGate.reveal_alias(alias, RevealReason::Routing, lookup)
}

/// Opens the session of a picked entry of an admitted pool: records its start, crosses from the
/// alias to the real target through the reveal gate and journals that, resolves the provider's key
/// and sets the proxy up. A no-ZDR provider gets its audit trail.
pub fn open_session(
    s: &mut Store,
    admitted: &AdmittedPool,
    entry: &PoolEntry,
    command: &Vec<String>,
    around: &Surroundings,
) -> (r: Result<Opened, RunError>)
    ensures
        admitted@.passes(),
        opening(old(s)@, admitted@.config, *entry, *around) != Opening::NoPrivacy,
        final(s)@.wf(),
        final(s)@.extends(old(s)@),
        match opening(old(s)@, admitted@.config, *entry, *around) {
            Opening::NoProvider | Opening::NoSessionId => final(s)@ == old(s)@,
            Opening::NoRoute | Opening::NoRevealId => session_started(
                old(s)@,
                final(s)@,
                entry.alias.name(),
                admitted@.config,
                command@,
                around.now,
            ) && final(s)@.reveals == old(s)@.reveals,
            _ => session_started(
                old(s)@,
                final(s)@,
                entry.alias.name(),
                admitted@.config,
                command@,
                around.now,
            ) && crossing_journaled(
                old(s)@,
                final(s)@,
                store::next_id(old(s)@.last_session_id()),
                entry.alias.name(),
                around.now,
            ),
        },
        match r {
            Ok(o) => {
                let p = admitted@.config.providers@[pool::provider_named(
                    admitted@.config.providers@,
                    entry.provider_slug@,
                )->Some_0];
                &&& opening(old(s)@, admitted@.config, *entry, *around) == Opening::Open
                &&& Some(o.session_id) == store::next_id(old(s)@.last_session_id())
                &&& o.alias_display@ == entry.alias.name()
                &&& old(s)@.route_of(entry.alias.name()) matches Some(route)
                    && o.pick.canonical_key@ == route.canonical_key && o.pick.real_slug@
                    == route.real_slug && o.pick.endpoint.address() == route.base_url
                &&& backend_of(o.backend, p, admitted@.config, o.session_id, *around)
                &&& o.backend.privacy == Privacy::NoZdr ==> admitted@.armed
                &&& pool::key_of(p, config::text_of(around.key_value)) == pool::KeyView::Key(
                    config::owned_text(o.backend.api_key),
                )
            },
            Err(e) => refused_at(
                e,
                opening(old(s)@, admitted@.config, *entry, *around),
                admitted@.config,
                *entry,
            ),
        },
{
    let cfg: &Config = admitted.config();
    let ghost s0 = s@;
    proof {
        use_type_invariant(&*s);
        store::lemma_logs_begin(s0);
    }
    let i: usize = match find_provider(cfg, entry.provider_slug.as_str()) {
        Some(i) => i,
        None => {
            return Err(RunError::ProviderMissing);
        },
    };
    let p: &ProviderConfig = &cfg.providers[i];
    proof {
        lemma_sessions_are_admitted(admitted@, i as int);
    }
    let alias_display: String = entry.alias.display();
    let label: &str = if command.len() == 0 {
        "proxy"
    } else {
        command[0].as_str()
    };
    let sid: i64 = match s.record_session_start(
        alias_display.as_str(),
        Some(label),
        None,
        cfg.capture_level,
        around.now,
    ) {
        Ok(id) => id,
        Err(e) => {
            return Err(RunError::Store(e));
        },
    };
    let ghost s1 = s@;
    let route: Route = match route_through_gate(s, &entry.alias) {
        Some(t) => t,
        None => {
            return Err(RunError::NoRoute);
        },
    };
    proof {
        let last = s1.sessions@.len() - 1;
        lemma_recorded_session_is_found(s1, sid, last);
    }
    match s.record_reveal(alias_display.as_str(), Some(sid), RevealReason::Routing, around.now) {
        Ok(_) => {},
        Err(e) => {
            return Err(RunError::Store(e));
        },
    }
    proof {
        store::lemma_history_is_kept(s0, s1, s@);
    }
    let api_key: Option<String> = match resolve_api_key(p, around.key_value) {
        Ok(key) => key,
        Err(e) => {
            return Err(RunError::Key(e));
        },
    };
    let backend: ProxyBackend = match set_up_backend(p, cfg, sid, api_key, around) {
        Ok(b) => b,
        Err(e) => {
            return Err(e);
        },
    };
    let endpoint: VettedEndpoint = VettedEndpoint::new(route.base_url.as_str());
    Ok(
        Opened {
            session_id: sid,
            alias_display,
            pick: Pick {
                canonical_key: route.canonical_key,
                real_slug: route.real_slug,
                endpoint,
            },
            backend,
        },
    )
}

/// A session that was just recorded is there.
proof fn lemma_recorded_session_is_found(s: Tables, id: i64, last: int)
    requires
        s.wf(),
        last == s.sessions@.len() - 1,
        0 <= last,
        s.sessions@[last].id == id,
    ensures
        s.session_at(id) is Some,
{
    crate::tables::lemma_first_where(s.sessions@, store::with_id(id));
    if s.session_at(id) is None {
        assert(!store::with_id(id)(s.sessions@[last]));
    }
}

/// A session on a no-ZDR provider always has its audit trail, and no other session has one.
pub proof fn lemma_no_zdr_sessions_are_audited(
    b: ProxyBackend,
    p: ProviderConfig,
    cfg: Config,
    sid: i64,
    around: Surroundings,
)
    requires
        backend_of(b, p, cfg, sid, around),
    ensures
        p.privacy == Some(Privacy::NoZdr) <==> b.non_zdr_audit is Some,
{
}

/// Whatever a session of an admitted pool is opened on has passed the gates: its provider declares
/// its privacy, and a no-ZDR provider is there only where the pool is armed and the provider attests
/// exactly its models.
pub proof fn lemma_sessions_are_admitted(admission: Admission, i: int)
    requires
        admission.passes(),
        0 <= i < admission.config.providers@.len(),
    ensures
        admission.config.providers@[i].privacy is Some,
        admission.config.providers@[i].privacy == Some(Privacy::NoZdr) ==> {
            &&& admission.armed
            &&& gates::attested_slugs(admission.config.providers@[i]) == gates::model_slugs(
                admission.config.providers@[i],
            )
            &&& attested_until(admission.config.providers@[i]) is Some
        },
{
    let ps = admission.config.providers@;
    let (built, flag_passed, env_present, today) = choose|
        built: bool,
        flag_passed: bool,
        env_present: bool,
        today: i64,
    | #[trigger]
        gates::consent(ps, built, flag_passed, env_present, today) == gates::ConsentView::Armed(
            admission.armed,
        );
    gates::lemma_first_non_zdr(ps, 0);
    if admission.armed {
        gates::lemma_armed_takes_every_gate(ps, built, flag_passed, env_present, today);
    }
}

/// A session goes where the gates looked: the provider whose privacy its proxy enforces is the one
/// that the entry was gathered for, and the address that the alias leads to is that provider's, within
/// the domain of the protocol that it declares.
pub proof fn lemma_sessions_stay_with_their_provider(
    admission: Admission,
    e: PoolEntry,
    s: Tables,
    place: (int, int),
)
    requires
        admission.passes(),
        pool::distinct_pool(admission.config),
        pool::leads_to(e, s, admission.config.providers@, place),
    ensures
        pool::provider_named(admission.config.providers@, e.provider_slug@) == Some(place.0),
        s.route_of(e.alias.name()) matches Some(route) && (
        admission.config.providers@[place.0].privacy matches Some(privacy) && privacy.admits(
            route.base_url,
        )),
{
    let ps = admission.config.providers@;
    let fits = pool::of_slug(e.provider_slug@);
    assert forall|k: int| 0 <= k < place.0 implies !fits(#[trigger] ps[k]) by {
        assert(ps[k].slug@ != ps[place.0].slug@);
    }
    crate::tables::lemma_first_is(ps, fits, place.0);
    assert(gates::pool_fault(ps[place.0]) is None);
}

/// No two sessions share an archive, and each lies in the directory of the archives.
pub proof fn lemma_archives_are_apart(state_dir: Seq<char>, a: i64, b: i64)
    ensures
        archive_path(state_dir, a) == archive_path(state_dir, b) ==> a == b,
        text::begins_with(archive_path(state_dir, a), state_dir),
        text::ends_with(archive_path(state_dir, a), "wire/"@ + text::decimal(a as int) + ".warc"@),
{
    reveal_strlit("wire");
    reveal_strlit("wire/");
    reveal_strlit(".warc");
    let dir = config::below_dir(state_dir, "wire"@);
    config::lemma_part_stands_below_its_base(state_dir, "wire"@);
    let leaf = text::decimal(a as int) + ".warc"@;
    config::lemma_part_stands_below_its_base(dir, leaf);
    let path = archive_path(state_dir, a);
    assert(dir.last() == dir.skip(dir.len() - 4)[3]);
    assert(path =~= dir + seq!['/'] + leaf);
    assert(path.subrange(0, state_dir.len() as int) =~= dir.take(state_dir.len() as int));
    let whole = "wire/"@ + text::decimal(a as int) + ".warc"@;
    let at = path.len() - whole.len();
    assert(dir.skip(dir.len() - 4) == "wire"@);
    assert forall|i: int| 0 <= i < whole.len() implies path[at + i] == whole[i] by {
        if i < 4 {
            assert(path[at + i] == dir.skip(dir.len() - 4)[i]);
        }
    }
    assert(path.subrange(at, at + whole.len()) =~= whole);
    let other = archive_path(state_dir, b);
    if path == other {
        let n = text::decimal(a as int);
        let m = text::decimal(b as int);
        assert(other =~= dir + seq!['/'] + (m + ".warc"@));
        assert(n.len() == m.len());
        assert forall|i: int| 0 <= i < n.len() implies n[i] == m[i] by {
            assert(path[dir.len() + 1 + i] == n[i]);
            assert(other[dir.len() + 1 + i] == m[i]);
        }
        assert(n =~= m);
        text::lemma_decimal_reads_back(a as int);
        text::lemma_decimal_reads_back(b as int);
    }
}

/// A session is labelled by the program that it launched, whatever its arguments.
pub proof fn lemma_label_is_the_program(program: String, args: Seq<String>)
    ensures
        client_label(seq![program] + args) == program@,
        client_label(Seq::<String>::empty()) == "proxy"@,
{
}

/// A started session is on record as it was started: a new row under the next id, with the alias, the
/// program, the level of capture and the time; nothing else changes but the log of reveals.
pub proof fn lemma_start_is_on_record(
    s: Tables,
    next: Tables,
    alias: Seq<char>,
    cfg: Config,
    command: Seq<String>,
    now: i64,
)
    requires
        session_started(s, next, alias, cfg, command, now),
    ensures
        ({
            let row = next.sessions@[s.sessions@.len() as int];
            &&& next.sessions@.len() == s.sessions@.len() + 1
            &&& row.id == (if s.sessions@.len() == 0 {
                1int
            } else {
                s.sessions@.last().id + 1
            })
            &&& row.alias@ == alias
            &&& row.cli matches Some(label) && label@ == client_label(command)
            &&& row.tuneables_json is None
            &&& row.capture_level == cfg.capture_level
            &&& row.started_at == now
        }),
        next.ratings == s.ratings && next.session_end == s.session_end && next.aliases == s.aliases
            && next.catalog == s.catalog && next.providers == s.providers && next.price_history
            == s.price_history,
{
}

/// The unmasking that a session needs is on record with the session, as one for routing.
pub proof fn lemma_crossing_is_on_record(
    s: Tables,
    next: Tables,
    sid: Option<i64>,
    alias: Seq<char>,
    now: i64,
)
    requires
        crossing_journaled(s, next, sid, alias, now),
    ensures
        ({
            let row = next.reveals@[s.reveals@.len() as int];
            &&& next.reveals@.len() == s.reveals@.len() + 1
            &&& row.id == (if s.reveals@.len() == 0 {
                1int
            } else {
                s.reveals@.last().id + 1
            })
            &&& row.alias@ == alias
            &&& row.session_id == sid
            &&& row.reason == RevealReason::Routing
            &&& row.revealed_at == now
        }),
{
}

/// A session opens exactly where its provider is configured and declares its privacy, its alias
/// leads somewhere, its key can be had, ids are left, and there is a place for what it must keep: an
/// archive for a replay, an audit trail for a provider that may train.
pub proof fn lemma_what_opens_a_session(
    s: Tables,
    cfg: Config,
    entry: PoolEntry,
    around: Surroundings,
    i: int,
)
    requires
        pool::provider_named(cfg.providers@, entry.provider_slug@) == Some(i),
        s.sessions@.len() > 0 ==> s.sessions@.last().id < i64::MAX,
        s.reveals@.len() > 0 ==> s.reveals@.last().id < i64::MAX,
    ensures
        opening(s, cfg, entry, around) == Opening::Open <==> s.route_of(
            entry.alias.name(),
        ) is Some && !(pool::key_of(cfg.providers@[i], config::text_of(around.key_value)) is Missing)
            && cfg.providers@[i].privacy is Some && (cfg.capture_level == CaptureLevel::Replay
            || cfg.providers@[i].privacy == Some(Privacy::NoZdr) ==> around.state_dir is Some),
        s.route_of(entry.alias.name()) is None ==> opening(s, cfg, entry, around)
            == Opening::NoRoute,
        s.route_of(entry.alias.name()) is Some && (pool::key_of(
            cfg.providers@[i],
            config::text_of(around.key_value),
        ) is Missing) ==> opening(s, cfg, entry, around) == Opening::NoKey,
{
}

/// A proxy is set up with what its provider is configured with, and keeps an archive exactly for a
/// replay.
pub proof fn lemma_proxy_is_the_providers(
    b: ProxyBackend,
    p: ProviderConfig,
    cfg: Config,
    sid: i64,
    around: Surroundings,
    k: int,
)
    requires
        backend_of(b, p, cfg, sid, around),
    ensures
        b.bind_addr@ == cfg.proxy_addr@,
        p.privacy == Some(b.privacy),
        b.extra_headers@.len() == p.extra_headers@.len(),
        0 <= k < p.extra_headers@.len() ==> b.extra_headers@[k].0@ == p.extra_headers@[k].0@
            && b.extra_headers@[k].1@ == p.extra_headers@[k].1@,
        json::members_view(b.extra_body@) == json::members_view(p.extra_body@),
        b.capture_path is Some <==> cfg.capture_level == CaptureLevel::Replay,
        b.capture_path matches Some(path) ==> path@ == archive_path(
            config::text_of(around.state_dir)->Some_0,
            sid,
        ),
        b.non_zdr_audit matches Some(audit) ==> (audit.expires_epoch_days matches Some(d)
            ==> p.expires is Some && dates::day_named(p.expires->Some_0@) == Some(d as int)) && (
        audit.expires_epoch_days is None ==> p.expires is None || dates::day_named(
            p.expires->Some_0@,
        ) is None),
{
}

/// The audit trail lies right in the state directory, apart from every archive.
pub proof fn lemma_audit_trail_has_its_place(state_dir: Seq<char>, sid: i64)
    requires
        state_dir.len() > 0,
    ensures
        text::begins_with(audit_path(state_dir), state_dir),
        text::ends_with(audit_path(state_dir), seq!['/'] + "non-zdr-audit.log"@),
        state_dir.last() != '/' ==> audit_path(state_dir) == state_dir + seq!['/']
            + "non-zdr-audit.log"@,
        state_dir.last() == '/' ==> audit_path(state_dir) == state_dir + "non-zdr-audit.log"@,
        audit_path(state_dir) != archive_path(state_dir, sid),
{
    reveal_strlit("non-zdr-audit.log");
    reveal_strlit(".warc");
    let leaf = "non-zdr-audit.log"@;
    let path = audit_path(state_dir);
    config::lemma_part_stands_below_its_base(state_dir, leaf);
    assert(path.subrange(0, state_dir.len() as int) =~= path.take(state_dir.len() as int));
    let tail = seq!['/'] + leaf;
    let at = path.len() - tail.len();
    assert forall|i: int| 0 <= i < tail.len() implies path[at + i] == tail[i] by {
        if i > 0 {
            assert(path[at + i] == path.skip(at + 1)[i - 1]);
        }
    }
    assert(path.subrange(at, at + tail.len()) =~= tail);
    let archive = archive_path(state_dir, sid);
    let dir = config::below_dir(state_dir, "wire"@);
    let name = text::decimal(sid as int) + ".warc"@;
    config::lemma_part_stands_below_its_base(dir, name);
    assert(archive.last() == archive.skip(archive.len() - name.len())[name.len() - 1]);
    assert(archive.last() == 'c');
    assert(path.last() == path.skip(path.len() - leaf.len())[leaf.len() - 1]);
    assert(path.last() == 'g');
}

/// What is answered tells how far opening the session got: another place, another answer, save that
/// ids may run out in two places.
pub proof fn lemma_answers_tell_the_place(
    e: RunError,
    at: Opening,
    elsewhere: Opening,
    cfg: Config,
    entry: PoolEntry,
)
    requires
        refused_at(e, at, cfg, entry),
    ensures
        at != Opening::Open,
        refused_at(e, elsewhere, cfg, entry) && elsewhere != at ==> e == RunError::Store(
            StoreError::OutOfIds,
        ),
        e is ProviderMissing <==> at == Opening::NoProvider,
        e is NoRoute <==> at == Opening::NoRoute,
        e is Key <==> at == Opening::NoKey,
        e is NoStateDir <==> at == Opening::NoStateDir,
        e is NoPrivacy <==> at == Opening::NoPrivacy,
        e is Store <==> at == Opening::NoSessionId || at == Opening::NoRevealId,
{
}

} // verus!
