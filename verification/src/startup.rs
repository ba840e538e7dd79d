//! How the command line and the configuration file make a server.
//!
//! The values of the configuration file are defaults, and what the command line
//! gives overrides them.

use crate::acl::{cidrs_of, permits, string_views, Acl, AclError, Cidr};
use crate::blocklist::{bad_lines, listed, Blocklist};
use crate::cache::Cache;
use crate::config::{
    configured_rules, first_bad_upstream, forward_rules_from_settings, parse_upstream_addr,
    rule_from, upstream_of, ForwardRule, ForwardRules, Settings, UpstreamError,
};
use crate::dnssec::DnssecKeys;
use crate::metrics::Metrics;
use crate::net::{ipv6_of, IpAddr, Ipv4Addr, Ipv6Addr, SocketAddr};
use crate::ratelimit::{ClientKey, RateLimiter, Window};
use crate::recursive::RecursiveResolver;
use crate::server::DEFAULT_ADDR;
use crate::state::{dns64_well_known_prefix, ServerState};
use crate::suffix::ranked;
use crate::text::{ends_with, finishes_with, line_seq};
use crate::time::{Duration, NANOS_PER_SEC};
use crate::zone::ZoneSet;
use vstd::prelude::*;

verus! {

/// The number of cached answers when none is given.
pub const DEFAULT_CACHE_SIZE: usize = 1024;

/// The seconds to wait for an upstream when none are given.
pub const DEFAULT_TIMEOUT_SECS: u64 = 5;

/// What the command line says. A flag that was not given is `None`.
#[derive(Debug, Default)]
pub struct Cli {
    pub addr: Option<String>,
    pub upstream: Option<String>,
    pub no_recurse: bool,
    pub rate_limit: Option<u32>,
    pub cache_size: Option<usize>,
    pub dot_addr: Option<String>,
    pub doh_addr: Option<String>,
    pub doq_addr: Option<String>,
    pub tls_cert: Option<String>,
    pub tls_key: Option<String>,
    pub metrics_addr: Option<String>,
}

/// The log level for a number of `-v` flags.
pub fn log_level(verbose: u8) -> (r: &'static str)
    ensures
        r@ == (if verbose == 0 {
            "info"@
        } else if verbose == 1 {
            "debug"@
        } else {
            "trace"@
        }),
{
    if verbose == 0 {
        "info"
    } else if verbose == 1 {
        "debug"
    } else {
        "trace"
    }
}

/// The text of an optional string.
pub open spec fn text_of(s: Option<String>) -> Option<Seq<char>> {
    match s {
        Some(x) => Some(x@),
        None => None,
    }
}

/// The first of two values that is given.
pub open spec fn either<T>(first: Option<T>, second: Option<T>) -> Option<T> {
    if first is Some {
        first
    } else {
        second
    }
}

fn text_either(first: &Option<String>, second: &Option<String>) -> (r: Option<String>)
    ensures
        text_of(r) == either(text_of(*first), text_of(*second)),
{
    match first {
        Some(s) => Some(s.as_str().to_owned()),
        None => match second {
            Some(s) => Some(s.as_str().to_owned()),
            None => None,
        },
    }
}

/// The addresses to listen on, and the files of the certificate.
#[derive(Debug)]
pub struct Listeners {
    pub addr: String,
    pub dot_addr: Option<String>,
    pub doh_addr: Option<String>,
    pub doq_addr: Option<String>,
    pub tls_cert: Option<String>,
    pub tls_key: Option<String>,
    pub metrics_addr: Option<String>,
}

impl Listeners {
    /// Whether any encrypted transport is enabled.
    pub fn encrypted(&self) -> (r: bool)
        ensures
            r == (self.dot_addr is Some || self.doh_addr is Some || self.doq_addr is Some),
    {
        self.dot_addr.is_some() || self.doh_addr.is_some() || self.doq_addr.is_some()
    }

    /// The files of the certificate and its key, if both are given; without them a
    /// certificate is made up.
    pub fn certificate_files(&self) -> (r: Option<(&String, &String)>)
        ensures
            r is Some == (self.tls_cert is Some && self.tls_key is Some),
            r matches Some((c, k)) ==> self.tls_cert == Some(*c) && self.tls_key == Some(*k),
    {
        match (&self.tls_cert, &self.tls_key) {
            (Some(c), Some(k)) => Some((c, k)),
            _ => None,
        }
    }
}

/// The address that the configuration file gives to bind to.
pub open spec fn file_addr(s: &Settings) -> Option<Seq<char>> {
    match s.server {
        Some(x) => text_of(x.addr),
        None => None,
    }
}

/// The address that the configuration file gives for the metrics.
pub open spec fn file_metrics_addr(s: &Settings) -> Option<Seq<char>> {
    match s.metrics {
        Some(x) => text_of(x.addr),
        None => None,
    }
}

/// Decides what to listen on.
pub fn listeners(cli: &Cli, settings: &Settings) -> (r: Listeners)
    ensures
        Some(r.addr@) == either(
            either(text_of(cli.addr), file_addr(settings)),
            Some(DEFAULT_ADDR@),
        ),
        text_of(r.metrics_addr) == either(text_of(cli.metrics_addr), file_metrics_addr(settings)),
        match settings.tls {
            Some(t) => {
                &&& text_of(r.dot_addr) == either(text_of(cli.dot_addr), text_of(t.dot_addr))
                &&& text_of(r.doh_addr) == either(text_of(cli.doh_addr), text_of(t.doh_addr))
                &&& text_of(r.doq_addr) == either(text_of(cli.doq_addr), text_of(t.doq_addr))
                &&& text_of(r.tls_cert) == either(text_of(cli.tls_cert), text_of(t.cert))
                &&& text_of(r.tls_key) == either(text_of(cli.tls_key), text_of(t.key))
            },
            None => {
                &&& text_of(r.dot_addr) == text_of(cli.dot_addr)
                &&& text_of(r.doh_addr) == text_of(cli.doh_addr)
                &&& text_of(r.doq_addr) == text_of(cli.doq_addr)
                &&& text_of(r.tls_cert) == text_of(cli.tls_cert)
                &&& text_of(r.tls_key) == text_of(cli.tls_key)
            },
        },
{
    let none: Option<String> = None;
    let given = match &settings.server {
        Some(s) => text_either(&cli.addr, &s.addr),
        None => text_either(&cli.addr, &none),
    };
    let addr: String = match given {
        Some(a) => a,
        None => DEFAULT_ADDR.to_owned(),
    };
    let metrics_addr = match &settings.metrics {
        Some(m) => text_either(&cli.metrics_addr, &m.addr),
        None => text_either(&cli.metrics_addr, &none),
    };
    match &settings.tls {
        Some(t) => Listeners {
            addr,
            dot_addr: text_either(&cli.dot_addr, &t.dot_addr),
            doh_addr: text_either(&cli.doh_addr, &t.doh_addr),
            doq_addr: text_either(&cli.doq_addr, &t.doq_addr),
            tls_cert: text_either(&cli.tls_cert, &t.cert),
            tls_key: text_either(&cli.tls_key, &t.key),
            metrics_addr,
        },
        None => Listeners {
            addr,
            dot_addr: text_either(&cli.dot_addr, &none),
            doh_addr: text_either(&cli.doh_addr, &none),
            doq_addr: text_either(&cli.doq_addr, &none),
            tls_cert: text_either(&cli.tls_cert, &none),
            tls_key: text_either(&cli.tls_key, &none),
            metrics_addr,
        },
    }
}

/// Whether recursion is switched off, on the command line or in the configuration
/// file.
pub open spec fn no_recursion(cli: &Cli, s: &Settings) -> bool {
    cli.no_recurse || (s.server matches Some(x) && x.no_recurse == Some(true))
}

/// Whether the configuration file asks for resolution from the root.
pub open spec fn wants_recursive(s: &Settings) -> bool {
    s.upstream matches Some(u) && u.recursive
}

/// The upstream that the configuration file gives for names without a rule.
pub open spec fn file_upstream(s: &Settings) -> Option<Seq<char>> {
    match s.upstream {
        Some(u) => text_of(u.default),
        None => None,
    }
}

/// The first upstream that does not parse: those of the configuration file come
/// before that of the command line.
pub open spec fn bad_upstream(cli: &Cli, s: &Settings) -> Option<Seq<char>> {
    if s.upstream matches Some(u) && first_bad_upstream(u) is Some {
        first_bad_upstream(s.upstream->0)
    } else if cli.upstream matches Some(x) && upstream_of(x@) is None {
        Some(cli.upstream->0@)
    } else {
        None
    }
}

/// Whether rules are those that the configuration file gives, in the order in which
/// they are tried.
pub open spec fn rules_of_file(rules: Seq<ForwardRule>, s: &Settings) -> bool {
    match s.upstream {
        None => rules.len() == 0,
        Some(up) => exists|made: Seq<ForwardRule>| #[trigger]
            ranked(made) == rules && made.len() == configured_rules(up).len() && forall|i: int|
                0 <= i < made.len() ==> rule_from(#[trigger] made[i], configured_rules(up)[i]),
    }
}

/// The upstream resolver when none is given: `8.8.8.8:53`.
pub open spec fn fallback_upstream_spec() -> SocketAddr {
    SocketAddr { ip: IpAddr::V4(Ipv4Addr { bits: 0x0808_0808 }), port: 53, scope_id: 0 }
}

/// The upstream resolver when none is given: `8.8.8.8:53`.
pub fn fallback_upstream() -> (r: SocketAddr)
    ensures
        r == fallback_upstream_spec(),
{
    SocketAddr { ip: IpAddr::V4(Ipv4Addr { bits: 0x0808_0808 }), port: 53, scope_id: 0 }
}

/// The upstream for names without a rule.
pub open spec fn default_upstream_of(cli: &Cli, s: &Settings) -> Option<SocketAddr> {
    match either(text_of(cli.upstream), file_upstream(s)) {
        Some(x) => upstream_of(x),
        None => Some(fallback_upstream_spec()),
    }
}

/// Decides where names that no zone holds are forwarded to.
///
/// Without recursion nothing is forwarded. In recursive mode only the rules for
/// particular domains are kept, so that the other names fall through to the
/// recursive resolver.
pub fn forwarding(cli: &Cli, settings: &Settings) -> (r: Result<ForwardRules, UpstreamError>)
    ensures
        if no_recursion(cli, settings) {
            r matches Ok(f) && f.seq().len() == 0 && f.default_spec() is None
        } else {
            match r {
                Ok(f) => {
                    &&& bad_upstream(cli, settings) is None
                    &&& rules_of_file(f.seq(), settings)
                    &&& f.default_spec() == (if wants_recursive(settings) {
                        None
                    } else {
                        default_upstream_of(cli, settings)
                    })
                },
                Err(e) => bad_upstream(cli, settings) == Some(e.text@),
            }
        },
{
    if recursion_off(cli, settings) {
        return Ok(ForwardRules::none());
    }
    let rules = match forward_rules_from_settings(settings) {
        Ok(f) => f,
        Err(e) => return Err(e),
    };
    let given: Option<SocketAddr> = match &cli.upstream {
        Some(x) => match parse_upstream_addr(x.as_str()) {
            Ok(a) => Some(a),
            Err(e) => return Err(e),
        },
        None => None,
    };
    if recursive_mode(settings) {
        return Ok(rules.without_default());
    }
    match given {
        Some(a) => Ok(rules.with_default(a)),
        None => match rules.default_upstream() {
            Some(_) => Ok(rules),
            None => Ok(rules.with_default(fallback_upstream())),
        },
    }
}

fn recursion_off(cli: &Cli, settings: &Settings) -> (r: bool)
    ensures
        r == no_recursion(cli, settings),
{
    cli.no_recurse || match &settings.server {
        Some(s) => match s.no_recurse {
            Some(b) => b,
            None => false,
        },
        None => false,
    }
}

fn recursive_mode(settings: &Settings) -> (r: bool)
    ensures
        r == wants_recursive(settings),
{
    match &settings.upstream {
        Some(u) => u.recursive,
        None => false,
    }
}

/// How long to wait for an upstream.
pub fn upstream_timeout(settings: &Settings) -> (r: Duration)
    ensures
        r.nanos == NANOS_PER_SEC * (match settings.upstream {
            Some(u) => match u.timeout_secs {
                Some(n) => n,
                None => DEFAULT_TIMEOUT_SECS,
            },
            None => DEFAULT_TIMEOUT_SECS,
        }),
{
    let secs: u64 = match &settings.upstream {
        Some(u) => match u.timeout_secs {
            Some(n) => n,
            None => DEFAULT_TIMEOUT_SECS,
        },
        None => DEFAULT_TIMEOUT_SECS,
    };
    Duration::from_secs(secs)
}

/// The number of queries that a client may send in a second; 0: any number.
pub open spec fn rate_limit_of(cli: &Cli, s: &Settings) -> u32 {
    match cli.rate_limit {
        Some(n) => n,
        None => match s.server {
            Some(x) => match x.rate_limit {
                Some(n) => n,
                None => 0,
            },
            None => 0,
        },
    }
}

/// The number of answers that the cache may hold.
pub open spec fn cache_size_of(cli: &Cli, s: &Settings) -> usize {
    match cli.cache_size {
        Some(n) => n,
        None => match s.server {
            Some(x) => match x.cache_size {
                Some(n) => n,
                None => DEFAULT_CACHE_SIZE,
            },
            None => DEFAULT_CACHE_SIZE,
        },
    }
}

fn rate_limit(cli: &Cli, settings: &Settings) -> (r: u32)
    ensures
        r == rate_limit_of(cli, settings),
{
    match cli.rate_limit {
        Some(n) => n,
        None => match &settings.server {
            Some(x) => match x.rate_limit {
                Some(n) => n,
                None => 0,
            },
            None => 0,
        },
    }
}

fn cache_size(cli: &Cli, settings: &Settings) -> (r: usize)
    ensures
        r == cache_size_of(cli, settings),
{
    match cli.cache_size {
        Some(n) => n,
        None => match &settings.server {
            Some(x) => match x.cache_size {
                Some(n) => n,
                None => DEFAULT_CACHE_SIZE,
            },
            None => DEFAULT_CACHE_SIZE,
        },
    }
}

/// The prefix for DNS64: the one that is configured, with or without its length
/// `/96`, and the well-known prefix where DNS64 is configured without one.
pub open spec fn dns64_prefix_of(s: &Settings) -> Option<Ipv6Addr> {
    match s.dns64 {
        Some(d) => match d.prefix {
            Some(p) => ipv6_of(
                if finishes_with(p@, "/96"@) {
                    p@.take(p@.len() - 3)
                } else {
                    p@
                },
            ),
            None => Some(Ipv6Addr { bits: 0x0064_ff9b_0000_0000_0000_0000_0000_0000 }),
        },
        None => None,
    }
}

/// Decides whether AAAA records are synthesized, and with which prefix.
pub fn dns64_prefix(settings: &Settings) -> (r: Option<Ipv6Addr>)
    ensures
        r == dns64_prefix_of(settings),
{
    match &settings.dns64 {
        Some(d) => match &d.prefix {
            Some(p) => {
                proof {
                    reveal_strlit("/96");
                }
                let text = p.as_str();
                if ends_with(text, "/96") {
                    let n: usize = text.unicode_len();
                    let bare = text.substring_char(0, n - 3);
                    assert(bare@ =~= text@.take(text@.len() - 3));
                    Ipv6Addr::parse(bare)
                } else {
                    Ipv6Addr::parse(text)
                }
            },
            None => Some(dns64_well_known_prefix()),
        },
        None => None,
    }
}

/// The entries of the ACL for zone transfers. Without a configuration, or with one
/// that does not parse, there is none, so that every transfer is denied.
pub open spec fn axfr_entries(s: &Settings) -> Seq<Cidr> {
    match s.axfr {
        Some(a) => match cidrs_of(string_views(a.allow@)) {
            Ok(cs) => cs,
            Err(_) => Seq::empty(),
        },
        None => Seq::empty(),
    }
}

/// Builds the ACL for zone transfers, and says what was wrong with its
/// configuration.
pub fn axfr_acl(settings: &Settings) -> (r: (Acl, Option<AclError>))
    ensures
        r.0@ == axfr_entries(settings),
        match r.1 {
            Some(e) => settings.axfr matches Some(a) && cidrs_of(string_views(a.allow@)) == Err::<
                Seq<Cidr>,
                _,
            >((e.entry@, e.reason)),
            None => settings.axfr matches Some(a) ==> cidrs_of(string_views(a.allow@)) is Ok,
        },
{
    match &settings.axfr {
        Some(a) => match Acl::parse(a.allow.as_slice()) {
            Ok(acl) => (acl, None),
            Err(e) => (Acl::deny_all(), Some(e)),
        },
        None => (Acl::deny_all(), None),
    }
}

/// Whether responses are to be signed.
pub fn signs(settings: &Settings) -> (r: bool)
    ensures
        r == (settings.dnssec matches Some(d) && d.enabled),
{
    match &settings.dnssec {
        Some(d) => d.enabled,
        None => false,
    }
}

/// Builds the state of a server from what was decided and loaded.
///
/// A blocklist that blocks nothing is left out, together with the path that it would
/// be reloaded from.
pub fn server_state(
    cli: &Cli,
    settings: &Settings,
    zones: ZoneSet,
    zone_path: Option<String>,
    blocklist: Blocklist,
    keys: Option<DnssecKeys>,
) -> (r: Result<ServerState, UpstreamError>)
    ensures
        match r {
            Err(e) => !no_recursion(cli, settings) && bad_upstream(cli, settings) == Some(e.text@),
            Ok(st) => {
                &&& st.zones == zones
                &&& st.zone_path == zone_path
                &&& if no_recursion(cli, settings) {
                    !st.offers_recursion()
                } else {
                    &&& bad_upstream(cli, settings) is None
                    &&& rules_of_file(st.forward_rules.seq(), settings)
                    &&& st.forward_rules.default_spec() == (if wants_recursive(settings) {
                        None
                    } else {
                        default_upstream_of(cli, settings)
                    })
                    &&& st.recursive is Some == wants_recursive(settings)
                    &&& st.recursive matches Some(x) ==> x@.dom().is_empty() && x.id_spec() == 1
                }
                &&& st.cache.capacity_spec() == cache_size_of(cli, settings)
                &&& st.cache@.dom().is_empty()
                &&& st.limiter.max_spec() == rate_limit_of(cli, settings)
                &&& st.limiter.window_spec().nanos == NANOS_PER_SEC
                &&& st.limiter@ == Map::<ClientKey, Window>::empty()
                &&& st.blocklist@ == blocklist@
                &&& st.blocklist.path_spec() == (if blocklist@.is_empty() {
                    None
                } else {
                    blocklist.path_spec()
                })
                &&& st.dns64_prefix == dns64_prefix_of(settings)
                &&& st.axfr_acl@ == axfr_entries(settings)
                &&& st.dnssec_keys == keys
                &&& st.flights@ == Set::<(Seq<char>, u16)>::empty()
                &&& st.metrics == Metrics::zero()
            },
        },
{
    let rules = match forwarding(cli, settings) {
        Ok(f) => f,
        Err(e) => return Err(e),
    };
    let limiter = RateLimiter::new(rate_limit(cli, settings), Duration::from_secs(1));
    let cache: Cache<u8> = Cache::new(cache_size(cli, settings));
    let mut state = ServerState::new(zones, zone_path, rules, cache, limiter);
    assert(cache@.dom() =~= Set::empty());
    if blocklist.is_active() {
        state = state.with_blocklist(blocklist);
    } else {
        assert(blocklist@ =~= Set::empty());
    }
    if let Some(prefix) = dns64_prefix(settings) {
        state = state.with_dns64(prefix);
    }
    let (acl, _) = axfr_acl(settings);
    state = state.with_axfr_acl(acl);
    if recursive_mode(settings) && !recursion_off(cli, settings) {
        state = state.with_recursive();
    }
    match keys {
        Some(k) => Ok(state.with_dnssec(k)),
        None => Ok(state),
    }
}

/// Takes over a configuration file that was read again: all zones, the forwarding rules
/// and whether names are resolved recursively, and the names of the blocklist where its
/// file was read again too. A recursive resolver that stays in use keeps what it knows.
/// Where an upstream of the file does not parse, everything stays as it was.
///
/// The lines of the blocklist that were not understood come back, by number.
pub fn reload_config(
    state: &mut ServerState,
    cli: &Cli,
    settings: &Settings,
    zones: ZoneSet,
    blocklist: Option<&str>,
) -> (r: Result<Vec<usize>, UpstreamError>)
    ensures
        match r {
            Err(e) => {
                &&& *final(state) == *old(state)
                &&& !no_recursion(cli, settings)
                &&& bad_upstream(cli, settings) == Some(e.text@)
            },
            Ok(bad) => {
                &&& *final(state) == (ServerState {
                    zones,
                    forward_rules: final(state).forward_rules,
                    recursive: final(state).recursive,
                    blocklist: final(state).blocklist,
                    ..*old(state)
                })
                &&& if no_recursion(cli, settings) {
                    !final(state).offers_recursion()
                } else {
                    &&& bad_upstream(cli, settings) is None
                    &&& rules_of_file(final(state).forward_rules.seq(), settings)
                    &&& final(state).forward_rules.default_spec() == (if wants_recursive(settings) {
                        None
                    } else {
                        default_upstream_of(cli, settings)
                    })
                }
                &&& final(state).recursive is Some == (wants_recursive(settings)
                    && !no_recursion(cli, settings))
                &&& final(state).recursive is Some && old(state).recursive is Some
                    ==> final(state).recursive == old(state).recursive
                &&& old(state).recursive is None ==> (final(state).recursive matches Some(x)
                    ==> x@.dom().is_empty() && x.id_spec() == 1)
                &&& final(state).blocklist.path_spec() == old(state).blocklist.path_spec()
                &&& if blocklist is Some && old(state).blocklist.path_spec() is Some {
                    &&& final(state).blocklist@ == listed(line_seq(blocklist->0@))
                    &&& bad_lines(line_seq(blocklist->0@), bad@)
                } else {
                    &&& final(state).blocklist@ == old(state).blocklist@
                    &&& bad@.len() == 0
                }
            },
        },
{
    let rules = match forwarding(cli, settings) {
        Ok(f) => f,
        Err(e) => return Err(e),
    };
    state.forward_rules = rules;
    state.replace_zones(zones);
    if !recursive_mode(settings) || recursion_off(cli, settings) {
        state.recursive = None;
    } else if state.recursive.is_none() {
        let resolver = RecursiveResolver::new();
        assert(resolver@.dom() =~= Set::empty());
        state.recursive = Some(resolver);
    }
    match blocklist {
        Some(text) => Ok(state.blocklist.reload(text)),
        None => Ok(Vec::new()),
    }
}

/// What is given on the command line goes before the settings file, and what neither gives
/// has a default: no rate limit, and a cache of 1024 answers.
pub proof fn law_command_line_first(cli: &Cli, s: &Settings, n: u32, m: usize)
    ensures
        cli.rate_limit == Some(n) ==> rate_limit_of(cli, s) == n,
        cli.rate_limit is None && (s.server matches Some(x) && x.rate_limit == Some(n))
            ==> rate_limit_of(cli, s) == n,
        cli.rate_limit is None && s.server is None ==> rate_limit_of(cli, s) == 0,
        cli.rate_limit is None && (s.server matches Some(x) && x.rate_limit is None)
            ==> rate_limit_of(cli, s) == 0,
        cli.cache_size == Some(m) ==> cache_size_of(cli, s) == m,
        cli.cache_size is None && (s.server matches Some(x) && x.cache_size == Some(m))
            ==> cache_size_of(cli, s) == m,
        cli.cache_size is None && s.server is None ==> cache_size_of(cli, s) == 1024,
        cli.cache_size is None && (s.server matches Some(x) && x.cache_size is None)
            ==> cache_size_of(cli, s) == 1024,
        cli.no_recurse ==> no_recursion(cli, s),
        !cli.no_recurse && s.server is None ==> !no_recursion(cli, s),
        (s.server matches Some(x) && x.no_recurse == Some(true)) ==> no_recursion(cli, s),
        !cli.no_recurse && (s.server matches Some(x) && x.no_recurse != Some(true))
            ==> !no_recursion(cli, s),
{
}

/// The upstream of the command line is asked before that of the settings file, and without
/// either it is 8.8.8.8, port 53.
pub proof fn law_default_upstream(cli: &Cli, s: &Settings)
    ensures
        cli.upstream matches Some(x) ==> default_upstream_of(cli, s) == upstream_of(x@),
        cli.upstream is None && (s.upstream matches Some(u) && u.default is Some)
            ==> default_upstream_of(cli, s) == upstream_of(s.upstream->0.default->0@),
        cli.upstream is None && file_upstream(s) is None ==> (default_upstream_of(
            cli,
            s,
        ) matches Some(a) && a.port == 53 && (a.ip matches IpAddr::V4(v) && v.bits == 8
            * 0x100_0000 + 8 * 0x1_0000 + 8 * 0x100 + 8)),
{
}

/// The prefix of DNS64 is read with or without its length behind it, and is the well-known
/// one where the section gives none; without the section there is none.
pub proof fn law_dns64_prefix(s: &Settings, prefix: Seq<char>)
    ensures
        s.dns64 is None ==> dns64_prefix_of(s) is None,
        (s.dns64 matches Some(d) && d.prefix is None) ==> (dns64_prefix_of(s) matches Some(a)
            && a.bits == 0x64_ff9b * 0x1_0000_0000_0000_0000_0000_0000),
        (s.dns64 matches Some(d) && (d.prefix matches Some(p) && p@ == prefix + "/96"@))
            ==> dns64_prefix_of(s) == ipv6_of(prefix),
        (s.dns64 matches Some(d) && (d.prefix matches Some(p) && p@ == prefix && !prefix.contains(
            '/',
        ))) ==> dns64_prefix_of(s) == ipv6_of(prefix),
{
    reveal_strlit("/96");
    if let Some(d) = s.dns64 {
        if let Some(p) = d.prefix {
            if p@ == prefix + "/96"@ {
                assert(p@.skip(p@.len() - 3) =~= "/96"@);
                assert(p@.take(p@.len() - 3) =~= prefix);
            } else if p@ == prefix && !prefix.contains('/') {
                if finishes_with(p@, "/96"@) {
                    assert(p@.skip(p@.len() - 3)[0] == '/');
                    assert(p@[p@.len() - 3] == '/');
                }
            }
        }
    }
}

/// The networks that may ask for transfers are those of the settings file. Where an entry
/// is not understood, or there is no such section, nobody may.
pub proof fn law_transfer_clients(s: &Settings, ip: IpAddr)
    ensures
        s.axfr is None ==> !permits(axfr_entries(s), ip),
        (s.axfr matches Some(a) && cidrs_of(string_views(a.allow@)) is Err) ==> !permits(
            axfr_entries(s),
            ip,
        ),
        (s.axfr matches Some(a) && cidrs_of(string_views(a.allow@)) is Ok) ==> axfr_entries(s)
            == cidrs_of(string_views(s.axfr->0.allow@))->Ok_0,
{
}

} // verus!
