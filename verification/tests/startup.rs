use mini_dns::blocklist::Blocklist;
use mini_dns::config::{
    AxfrSettings, Dns64Settings, DnssecSettings, ForwardRuleSettings, MetricsSettings,
    zone_with_inferred_origin, ServerSettings, Settings, TlsSettings, UpstreamSettings, ZoneSet,
};
use mini_dns::net::{IpAddr, Ipv6Addr, SocketAddr};
use mini_dns::startup::{
    axfr_acl, dns64_prefix, fallback_upstream, forwarding, listeners, log_level, reload_config,
    server_state, signs, upstream_timeout, Cli,
};
use mini_dns::state::{dns64_well_known_prefix, ReloadSource};
use mini_dns::time::Duration;

fn s(text: &str) -> Option<String> {
    Some(text.to_string())
}

fn upstream(default: Option<&str>, recursive: bool) -> Settings {
    Settings {
        upstream: Some(UpstreamSettings {
            default: default.map(|d| d.to_string()),
            timeout_secs: None,
            rules: Some(vec![ForwardRuleSettings {
                suffix: "corp".to_string(),
                upstream: "10.0.0.1".to_string(),
            }]),
            recursive,
        }),
        ..Settings::default()
    }
}

#[test]
fn log_levels() {
    assert_eq!((log_level(0), log_level(1), log_level(2), log_level(9)), (
        "info", "debug", "trace", "trace"
    ));
}

#[test]
fn flags_override_the_file_and_the_file_the_defaults() {
    let none = listeners(&Cli::default(), &Settings::default());
    assert_eq!(none.addr, "127.0.0.1:8888");
    assert!(!none.encrypted());
    assert_eq!(none.metrics_addr, None);

    let file = Settings {
        server: Some(ServerSettings { addr: s("file:1"), ..ServerSettings::default() }),
        metrics: Some(MetricsSettings { addr: s("file:2") }),
        tls: Some(TlsSettings {
            dot_addr: s("file:3"),
            doh_addr: s("file:4"),
            doq_addr: s("file:5"),
            cert: s("file.crt"),
            key: s("file.key"),
        }),
        ..Settings::default()
    };
    let from_file = listeners(&Cli::default(), &file);
    assert_eq!(from_file.addr, "file:1");
    assert_eq!(from_file.metrics_addr, s("file:2"));
    assert_eq!(from_file.doq_addr, s("file:5"));
    assert!(from_file.encrypted());

    let cli = Cli {
        addr: s("cli:1"),
        metrics_addr: s("cli:2"),
        dot_addr: s("cli:3"),
        doh_addr: s("cli:4"),
        doq_addr: s("cli:5"),
        tls_cert: s("cli.crt"),
        tls_key: s("cli.key"),
        ..Cli::default()
    };
    for settings in [file, Settings::default()] {
        let l = listeners(&cli, &settings);
        assert_eq!(l.addr, "cli:1");
        assert_eq!(l.metrics_addr, s("cli:2"));
        assert_eq!((l.dot_addr, l.doh_addr, l.doq_addr), (s("cli:3"), s("cli:4"), s("cli:5")));
        assert_eq!((l.tls_cert, l.tls_key), (s("cli.crt"), s("cli.key")));
    }
}

#[test]
fn where_queries_go() {
    assert_eq!(Some(fallback_upstream()), SocketAddr::parse("8.8.8.8:53"));
    let plain = forwarding(&Cli::default(), &Settings::default()).unwrap();
    assert_eq!(plain.default_upstream(), SocketAddr::parse("8.8.8.8:53"));

    let file = upstream(Some("1.1.1.1"), false);
    let rules = forwarding(&Cli::default(), &file).unwrap();
    assert_eq!(rules.default_upstream(), SocketAddr::parse("1.1.1.1:53"));
    assert_eq!(rules.match_name("x.corp"), SocketAddr::parse("10.0.0.1:53"));

    let cli = Cli { upstream: s("9.9.9.9:99"), ..Cli::default() };
    let rules = forwarding(&cli, &file).unwrap();
    assert_eq!(rules.default_upstream(), SocketAddr::parse("9.9.9.9:99"));
    assert_eq!(rules.match_name("x.corp"), SocketAddr::parse("10.0.0.1:53"));

    // Recursive mode keeps the rules and drops the default.
    let rules = forwarding(&cli, &upstream(Some("1.1.1.1"), true)).unwrap();
    assert_eq!(rules.default_upstream(), None);
    assert_eq!(rules.match_name("x.corp"), SocketAddr::parse("10.0.0.1:53"));

    // Without recursion nothing is forwarded, and no upstream is looked at.
    let off = Cli { no_recurse: true, upstream: s("bad"), ..Cli::default() };
    assert!(!forwarding(&off, &upstream(Some("bad"), true)).unwrap().is_enabled());

    let bad = Cli { upstream: s("bad"), ..Cli::default() };
    assert_eq!(forwarding(&bad, &file).unwrap_err().text, "bad");
    assert_eq!(forwarding(&bad, &upstream(Some("worse"), true)).unwrap_err().text, "worse");
}

#[test]
fn timeouts() {
    assert_eq!(upstream_timeout(&Settings::default()), Duration::from_secs(5));
    assert_eq!(upstream_timeout(&upstream(None, false)), Duration::from_secs(5));
    let mut settings = upstream(None, false);
    settings.upstream.as_mut().unwrap().timeout_secs = Some(2);
    assert_eq!(upstream_timeout(&settings), Duration::from_secs(2));
}

#[test]
fn dns64_prefixes() {
    let with = |prefix: Option<&str>| Settings {
        dns64: Some(Dns64Settings { prefix: prefix.map(|p| p.to_string()) }),
        ..Settings::default()
    };
    assert_eq!(dns64_prefix(&Settings::default()), None);
    assert_eq!(dns64_prefix(&with(None)), Some(dns64_well_known_prefix()));
    assert_eq!(dns64_well_known_prefix(), Ipv6Addr::parse("64:ff9b::").unwrap());
    let own = Ipv6Addr::parse("2001:db8:64::");
    assert_eq!(dns64_prefix(&with(Some("2001:db8:64::"))), own);
    assert_eq!(dns64_prefix(&with(Some("2001:db8:64::/96"))), own);
    assert_eq!(dns64_prefix(&with(Some("2001:db8:64::/64"))), None);
    assert_eq!(dns64_prefix(&with(Some("nonsense"))), None);
}

#[test]
fn transfer_acls() {
    let with = |allow: &[&str]| Settings {
        axfr: Some(AxfrSettings { allow: allow.iter().map(|a| a.to_string()).collect() }),
        ..Settings::default()
    };
    let ip = IpAddr::parse("10.0.0.1").unwrap();
    let (acl, error) = axfr_acl(&with(&["10.0.0.0/8"]));
    assert!(acl.is_allowed(&ip) && error.is_none());
    // Nothing configured, or nothing that can be read: deny all.
    let (acl, error) = axfr_acl(&Settings::default());
    assert!(!acl.is_allowed(&ip) && error.is_none());
    let (acl, error) = axfr_acl(&with(&["10.0.0.0/8", "bad"]));
    assert!(!acl.is_allowed(&ip));
    assert_eq!(error.unwrap().entry, "bad");
}

#[test]
fn signing_is_a_choice() {
    let with = |enabled: bool| Settings {
        dnssec: Some(DnssecSettings { enabled }),
        ..Settings::default()
    };
    assert!(!signs(&Settings::default()));
    assert!(!signs(&with(false)));
    assert!(signs(&with(true)));
}

#[test]
fn a_server_is_put_together() {
    let build = |cli: &Cli, settings: &Settings, blocklist: Blocklist| {
        server_state(cli, settings, ZoneSet::empty(), s("z.zone"), blocklist, None)
    };
    let state = build(&Cli::default(), &Settings::default(), Blocklist::empty()).unwrap();
    assert!(state.recursion_available());
    assert!(state.recursive.is_none());
    assert_eq!(state.zone_path, s("z.zone"));
    assert!(state.dns64_prefix.is_none());

    let state = build(&Cli::default(), &upstream(None, true), Blocklist::empty()).unwrap();
    assert!(state.recursive.is_some());
    assert_eq!(state.forward_rules.default_upstream(), None);

    // Without recursion the recursive resolver is off too.
    let mut settings = upstream(None, true);
    settings.server = Some(ServerSettings { no_recurse: Some(true), ..ServerSettings::default() });
    let state = build(&Cli::default(), &settings, Blocklist::empty()).unwrap();
    assert!(!state.recursion_available());

    // A blocklist without entries is left out, path and all.
    let (empty, _) = Blocklist::from_text("b.txt".to_string(), "# nothing\n");
    let state = build(&Cli::default(), &Settings::default(), empty).unwrap();
    assert_eq!(state.blocklist.path(), None);
    let (full, _) = Blocklist::from_text("b.txt".to_string(), "ads.example\n");
    let state = build(&Cli::default(), &Settings::default(), full).unwrap();
    assert!(state.blocklist.is_blocked("ads.example"));

    let bad = Cli { upstream: s("bad"), ..Cli::default() };
    match build(&bad, &Settings::default(), Blocklist::empty()) {
        Err(e) => assert_eq!(e.text, "bad"),
        Ok(_) => panic!("expected an error"),
    }
}

#[test]
fn a_configuration_is_reloaded() {
    let (list, _) = Blocklist::from_text("b.txt".to_string(), "ads.example\n");
    let cli = Cli::default();
    let mut state =
        server_state(&cli, &Settings::default(), ZoneSet::empty(), s("c.toml"), list, None)
            .unwrap();
    let (zone, _) = zone_with_inferred_origin("example.com. 1 SOA m r 1 2 3 4 5\n");

    let zones = ZoneSet::new(vec![zone]);
    let settings = upstream(Some("1.1.1.1"), false);
    let bad = reload_config(&mut state, &cli, &settings, zones, Some("no name\nbad.example\n"));
    assert_eq!(bad.unwrap(), vec![1]);
    assert_eq!(state.zones.len(), 1);
    assert_eq!(state.forward_rules.default_upstream(), SocketAddr::parse("1.1.1.1:53"));
    assert!(state.blocklist.is_blocked("bad.example"));
    assert!(!state.blocklist.is_blocked("ads.example"));

    // Recursive mode is switched on and off with the file.
    let recursive = upstream(Some("1.1.1.1"), true);
    assert!(state.recursive.is_none());
    reload_config(&mut state, &cli, &recursive, ZoneSet::empty(), None).unwrap();
    assert!(state.recursive.is_some() && state.recursion_available());
    assert_eq!(state.forward_rules.default_upstream(), None);
    let id = state.recursive.as_mut().unwrap().take_id();
    reload_config(&mut state, &cli, &recursive, ZoneSet::empty(), None).unwrap();
    assert_eq!(state.recursive.as_mut().unwrap().take_id(), id + 1);
    let alone = Cli { no_recurse: true, ..Cli::default() };
    reload_config(&mut state, &alone, &recursive, ZoneSet::empty(), None).unwrap();
    assert!(state.recursive.is_none() && !state.recursion_available());
    let (zone, _) = zone_with_inferred_origin("example.com. 1 SOA m r 1 2 3 4 5\n");
    reload_config(&mut state, &cli, &settings, ZoneSet::new(vec![zone]), None).unwrap();
    assert!(state.recursive.is_none() && state.recursion_available());

    // What cannot be read changes nothing.
    let broken = upstream(Some("bad"), false);
    let e = reload_config(&mut state, &cli, &broken, ZoneSet::empty(), None).unwrap_err();
    assert_eq!(e.text, "bad");
    assert_eq!(state.zones.len(), 1);
    assert!(state.blocklist.is_blocked("bad.example"));
    assert!(matches!(state.reload_source(), ReloadSource::Config(p) if p == "c.toml"));
    state.zone_path = s("z.zone");
    assert!(matches!(state.reload_source(), ReloadSource::ZoneFile(p) if p == "z.zone"));
    state.zone_path = None;
    assert!(matches!(state.reload_source(), ReloadSource::Nothing));
}

#[test]
fn rate_limits_come_from_flags_or_file() {
    let ip = IpAddr::parse("192.0.2.1").unwrap();
    let allowed = |cli: Option<u32>, file: Option<u32>| {
        let cli = Cli { rate_limit: cli, ..Cli::default() };
        let settings = Settings {
            server: Some(ServerSettings { rate_limit: file, ..ServerSettings::default() }),
            ..Settings::default()
        };
        let mut state =
            server_state(&cli, &settings, ZoneSet::empty(), None, Blocklist::empty(), None)
                .unwrap();
        (0..10).filter(|_| state.limiter.allow_at(ip, 0)).count()
    };
    assert_eq!(allowed(None, None), 10);
    assert_eq!(allowed(None, Some(3)), 3);
    assert_eq!(allowed(Some(2), Some(3)), 2);
    assert_eq!(allowed(Some(0), Some(3)), 10);
}
