use blackhole::blocklist::{http_source_parts, BlocklistSource, MAX_BLOCKLIST_PATHS,
    MAX_BLOCKLIST_PATH_BYTES};
use blackhole::cache::CacheKey;
use blackhole::country::{load_country_policy, source_fingerprint, source_sha256, CountrySource,
    FileFacts, LocalMap};
use blackhole::dns::{DnsAnswer, DnsQuery};
use blackhole::names::normalize;
use blackhole::net::IpAddr;
use blackhole::policy::PolicyError;
use blackhole::query::QueryView;
use blackhole::runtime::MAX_RELOAD_INTERVAL_SECS;
use blackhole::upstream::{MAX_UPSTREAM_ATTEMPTS, MAX_UPSTREAM_OUTSTANDING, MAX_UPSTREAM_TIMEOUT_MS};
use blackhole::{Action, ClientIdentityConfig, Config, CountryPolicyConfig, Mode, Policy, PolicyConfig,
    QueryRecordingRedaction, ReloadState, RuleConfig, ServerConfig, ServiceProfileConfig,
    UpstreamConfig, UpstreamTransport};

fn ip(text: &str) -> IpAddr {
    IpAddr::parse(text).expect("address")
}

fn no_map() -> CountrySource {
    CountrySource::Remote(Err("no map was read".into()))
}

fn file(path: &str, contents: &str) -> BlocklistSource {
    BlocklistSource { path: path.into(), contents: Ok(contents.as_bytes().to_vec()) }
}

fn start(config: Config) -> Result<Policy, PolicyError> {
    Policy::new(config, &[], &no_map())
}

fn start_with(config: Config, files: &[BlocklistSource]) -> Result<Policy, PolicyError> {
    Policy::new(config, files, &no_map())
}

fn rule(id: u32, domain: &str, action: Action) -> RuleConfig {
    RuleConfig {
        enabled: true,
        id,
        domain: domain.into(),
        action,
        priority: 0,
        qtype: None,
        qtypes: Vec::new(),
        qclass: None,
        qclasses: Vec::new(),
        client: None,
        client_cidr: None,
        client_cidrs: Vec::new(),
        client_identity: None,
    }
}

fn query(name: &str) -> DnsQuery {
    DnsQuery { id: 1, recursion_desired: true, name: name.into(), qtype: 1, qclass: 1 }
}

fn profile(id: u32, name: &str, domain: &str, action: Action) -> ServiceProfileConfig {
    ServiceProfileConfig {
        id,
        name: name.into(),
        enabled: true,
        domains: vec![domain.into()],
        action,
        groups: Vec::new(),
        client_identity: None,
        priority: 0,
        client_cidrs: Vec::new(),
        qtype: None,
        qtypes: Vec::new(),
        qclass: None,
        qclasses: Vec::new(),
    }
}

const IDENTITY_PACKET: [u8; 34] = [
    0, 1, 1, 0, 0, 1, 0, 0, 0, 0, 0, 0, 8, b'i', b'd', b'e', b'n', b't', b'i', b't', b'y', 7, b'e',
    b'x', b'a', b'm', b'p', b'l', b'e', 0, 0, 1, 0, 1,
];

#[derive(Debug, Clone, Copy, PartialEq, Eq)]
enum ProofAction {
    Ignore,
    Nxdomain,
    Honeypot,
    Pass,
}

struct ProofRule {
    pattern: &'static str,
    action: ProofAction,
}

fn proof_matches(pattern: &str, query: &str) -> bool {
    let pattern = normalize(pattern);
    let query = normalize(query);
    match pattern.strip_prefix("*.") {
        Some(suffix) => {
            query.ends_with(suffix)
                && query.len() > suffix.len()
                && query.as_bytes()[query.len() - suffix.len() - 1] == b'.'
        }
        None => query == pattern,
    }
}

fn proof_decide(query: &str, rules: &[ProofRule]) -> ProofAction {
    rules
        .iter()
        .find(|rule| proof_matches(rule.pattern, query))
        .map(|rule| rule.action)
        .unwrap_or(ProofAction::Pass)
}

#[test]
fn policy_proof_preserves_apex_and_wildcard_boundaries() {
    let rules = [
        ProofRule { pattern: "ads.example", action: ProofAction::Nxdomain },
        ProofRule { pattern: "*.telemetry.example", action: ProofAction::Ignore },
        ProofRule { pattern: "telemetry.example", action: ProofAction::Honeypot },
    ];
    let cases = [
        ("ads.example.", ProofAction::Nxdomain),
        ("x.ads.example.", ProofAction::Pass),
        ("telemetry.example.", ProofAction::Honeypot),
        ("x.telemetry.example.", ProofAction::Ignore),
        ("notexample.", ProofAction::Pass),
    ];
    for (query, expected) in cases {
        assert_eq!(proof_decide(query, &rules), expected, "query={query}");
    }
    // The policy itself keeps the same boundaries.
    let mut config = Config::default();
    config.policy.rules = vec![
        rule(1, "ads.example", Action::Nxdomain),
        rule(2, "*.telemetry.example", Action::Ignore),
        rule(3, "telemetry.example", Action::Honeypot),
    ];
    let policy = start(config).expect("valid rules");
    let decided = |name: &str| policy.decision(&query(name), None).map(|found| found.action);
    assert_eq!(decided("ads.example."), Some(Action::Nxdomain));
    assert_eq!(decided("x.ads.example."), None);
    assert_eq!(decided("telemetry.example."), Some(Action::Honeypot));
    assert_eq!(decided("x.telemetry.example."), Some(Action::Ignore));
    assert_eq!(decided("notexample."), None);
}

#[test]
fn suffix_matching_is_case_insensitive_and_boundary_safe() {
    let mut config = Config::default();
    config.policy.domains = vec!["Example.COM".into()];
    let policy = start(config).expect("valid default policy");
    assert!(policy.matches("x.example.com."));
    assert!(!policy.matches("notexample.com."));
}

#[test]
fn default_config_is_safe_for_local_testing() {
    assert_eq!(Config::default().server.listen, "127.0.0.1:5353");
    assert!(!Config::default().dhcp.enabled);
}

#[test]
fn enabled_dhcp_configuration_is_bounded_and_validated() {
    let mut config = Config::default();
    config.dhcp.enabled = true;
    assert!(start(config.clone()).is_ok());

    config.dhcp.max_leases = 4097;
    assert!(matches!(start(config), Err(PolicyError::InvalidDhcp { .. })));
}

#[test]
fn policy_reload_replaces_authoritative_rules_atomically() {
    let mut config = Config::default();
    config.policy.rules = vec![rule(1, "old.example", Action::Drop)];
    let mut policy = start(config).expect("initial policy");
    let cached_key = CacheKey { name: "cached.example".into(), qtype: 1, qclass: 1 };
    let now = 1_000;
    policy.tables.cache.insert(cached_key.clone(), DnsAnswer::name_error(), now);
    assert!(policy.tables.cache.fresh(&cached_key, now).is_some());
    assert_eq!(policy.decision(&query("old.example."), None).unwrap().action, Action::Drop);

    assert_eq!(
        policy.reload_rules(&[rule(2, "new.example", Action::Reject)]),
        Ok(ReloadState::Published)
    );
    assert!(policy.tables.cache.fresh(&cached_key, now).is_none());
    assert!(policy.decision(&query("old.example."), None).is_none());
    assert_eq!(policy.decision(&query("new.example."), None).unwrap().action, Action::Reject);
    let generation = policy.policy_status().policy_generation;
    assert_eq!(
        policy.reload_rules(&[rule(2, "new.example", Action::Reject)]),
        Ok(ReloadState::Unchanged)
    );
    assert_eq!(policy.policy_status().policy_generation, generation);

    let invalid = [
        rule(3, "failed.example", Action::Pass),
        rule(3, "other.example", Action::Drop),
    ];
    assert_eq!(policy.reload_rules(&invalid), Err(PolicyError::DuplicateRule { id: 3 }));
    assert_eq!(policy.decision(&query("new.example."), None).unwrap().action, Action::Reject);
}

#[test]
fn blocklists_are_bounded_normalized_deduplicated_and_authoritative() {
    let path = "blocklist.txt";
    let files = [file(
        path,
        "# comment\n0.0.0.0 Ads.Example\n||ads.example^\n@@||safe.ads.example^\ntelemetry.example.\n",
    )];
    let mut config = Config::default();
    config.policy.blocklists = vec![path.into()];
    config.policy.default_action = Action::Pass;
    let policy = start_with(config, &files).expect("valid blocklist");
    let rcode = |name: &str| policy.evaluate(&query(name)).unwrap().rcode;
    assert_eq!(rcode("ads.example."), 3);
    assert_eq!(rcode("sub.ads.example."), 3);
    assert_eq!(rcode("safe.ads.example."), 0);
    assert_eq!(rcode("deep.safe.ads.example."), 0);
    assert_eq!(rcode("telemetry.example."), 3);
    assert_eq!(rcode("clear.example."), 0);
}

#[test]
fn blocklists_apply_safe_adguard_modifiers_order_independently() {
    let path = "modifiers.txt";
    let files = [file(
        path,
        "||cancel.example^$badfilter\n||important.example^$important\n||cancel.example^\n||scoped.example^$denyallow=allowed.scoped.example|safe.example\n",
    )];
    let mut config = Config::default();
    config.policy.blocklists = vec![path.into()];
    let policy = start_with(config, &files).expect("valid modifier blocklist");
    let rcode = |name: &str| policy.evaluate(&query(name)).unwrap().rcode;
    assert_eq!(rcode("cancel.example."), 0);
    assert_eq!(rcode("important.example."), 3);
    assert_eq!(rcode("scoped.example."), 3);
    assert_eq!(rcode("allowed.scoped.example."), 0);
    assert_eq!(rcode("deep.allowed.scoped.example."), 0);
    assert_eq!(rcode("safe.example."), 0);
    assert_eq!(rcode("other.scoped.example."), 3);

    let unsupported = "unsupported.txt";
    let mut config = Config::default();
    config.policy.blocklists = vec![unsupported.into()];
    assert!(matches!(
        start_with(config, &[file(unsupported, "||example^$third-party\n")]),
        Err(PolicyError::InvalidBlocklist { reason, .. })
            if reason.contains("unsupported AdGuard filter modifier")
    ));

    let malformed = "denyallow";
    let mut config = Config::default();
    config.policy.blocklists = vec![malformed.into()];
    assert!(matches!(
        start_with(config, &[file(malformed, "||example^$denyallow=")]),
        Err(PolicyError::InvalidBlocklist { reason, .. }) if reason.contains("denyallow requires")
    ));
}

#[test]
fn blocklist_source_count_and_path_length_are_bounded() {
    let mut too_many = Config::default();
    too_many.policy.blocklists = vec!["missing".into(); MAX_BLOCKLIST_PATHS + 1];
    assert!(matches!(
        start(too_many),
        Err(PolicyError::InvalidBlocklist { path, .. }) if path == "<table>"
    ));

    let mut too_long = Config::default();
    too_long.policy.blocklists = vec!["x".repeat(MAX_BLOCKLIST_PATH_BYTES + 1)];
    assert!(matches!(
        start(too_long),
        Err(PolicyError::InvalidBlocklist { reason, .. }) if reason.contains("path exceeds")
    ));
}

#[test]
fn hosted_blocklist_sources_use_proxima_http_and_remain_bounded() {
    let source = "http://127.0.0.1:8080/filters/list.txt";
    let parts = http_source_parts(source).expect("hosted source");
    assert_eq!(parts.1, "/filters/list.txt");
    let files = [file(source, "||remote.example^\n")];
    let rules = blackhole::blocklist::load_blocklists(&files).expect("load hosted blocklist");
    assert!(rules.iter().any(|rule| rule.domain == "remote.example"));
}

#[test]
fn hosted_country_maps_use_proxima_http_and_reject_file_age_semantics() {
    let config = CountryPolicyConfig {
        map_path: Some("http://127.0.0.1:8080/maps/country.txt".into()),
        deny: vec!["US".into()],
        ..Default::default()
    };
    let body = CountrySource::Remote(Ok(b"US 192.0.2.0/24 US-CA AS64500\n".to_vec()));
    let loaded = load_country_policy(&config, &body)
        .expect("load hosted country map")
        .expect("country policy");
    assert!(loaded.denied(ip("192.0.2.1")));

    let mut age_bound = config;
    age_bound.max_age_secs = Some(60);
    assert!(matches!(
        load_country_policy(&age_bound, &body),
        Err(PolicyError::InvalidCountryMap { reason, .. })
            if reason.contains("only supported for local map files")
    ));
}

#[test]
fn hosted_sources_reject_non_http_schemes() {
    assert!(http_source_parts("ftp://example.test/map.txt").is_none());
    assert!(http_source_parts("file:///etc/hosts").is_none());
    assert!(http_source_parts("https://example.test/map.txt").is_some());
}

fn local_map(contents: &str) -> CountrySource {
    let facts = FileFacts { length: contents.len() as u64, modified: Some(0) };
    CountrySource::Local(LocalMap {
        before: Ok(facts),
        time_fault: String::new(),
        now: 0,
        contents: Ok(contents.into()),
        after: Ok(facts),
    })
}

#[test]
fn country_map_fingerprint_pin_is_case_insensitive_and_fail_closed() {
    let contents = "US 192.0.2.0/24 US-CA AS64500\n";
    let map = local_map(contents);
    let mut config = CountryPolicyConfig {
        map_path: Some("country-fingerprint.txt".into()),
        expected_sha256: Some(source_sha256(contents.as_bytes()).to_uppercase()),
        deny: vec!["US".into()],
        ..Default::default()
    };
    assert!(load_country_policy(&config, &map).is_ok());

    config.expected_sha256 = Some("00".repeat(32));
    assert!(matches!(
        load_country_policy(&config, &map),
        Err(PolicyError::InvalidCountryMap { reason, .. }) if reason.contains("SHA-256 mismatch")
    ));
    config.expected_sha256 = Some("not-a-sha256".into());
    assert!(matches!(
        load_country_policy(&config, &map),
        Err(PolicyError::InvalidCountryMap { reason, .. })
            if reason.contains("exactly 64 hexadecimal digits")
    ));
    config.map_path = Some("/blackhole/this-map-must-not-be-read-for-an-invalid-pin".into());
    assert!(matches!(
        load_country_policy(&config, &no_map()),
        Err(PolicyError::InvalidCountryMap { reason, .. })
            if reason.contains("exactly 64 hexadecimal digits")
    ));
}

#[test]
fn background_blocklist_reload_interval_is_bounded() {
    let config = Config {
        policy: PolicyConfig {
            blocklist_reload_interval_secs: MAX_RELOAD_INTERVAL_SECS + 1,
            ..Default::default()
        },
        ..Default::default()
    };
    assert!(matches!(
        start(config),
        Err(PolicyError::InvalidBlocklist { path, .. }) if path == "<config>"
    ));
    let config = Config {
        country_policy: CountryPolicyConfig {
            reload_interval_secs: MAX_RELOAD_INTERVAL_SECS + 1,
            ..Default::default()
        },
        ..Default::default()
    };
    assert!(matches!(
        start(config),
        Err(PolicyError::InvalidCountryMap { path, .. }) if path == "<config>"
    ));
    let config = Config {
        reload_interval_secs: MAX_RELOAD_INTERVAL_SECS + 1,
        ..Default::default()
    };
    assert!(matches!(start(config), Err(PolicyError::InvalidConfigReload { .. })));
}

#[test]
fn blocklist_reload_publishes_atomically_and_keeps_last_good_snapshot() {
    let path = "reload.txt";
    let mut config = Config::default();
    config.policy.default_action = Action::Pass;
    config.policy.blocklists = vec![path.into()];
    let mut policy = start_with(config, &[file(path, "old.example\n")]).expect("valid blocklist");
    let rcode = |policy: &Policy, name: &str| policy.evaluate(&query(name)).unwrap().rcode;
    assert_eq!(rcode(&policy, "old.example."), 3);

    assert_eq!(
        policy.reload_rules(&[rule(901, "local.example", Action::Reject)]),
        Ok(ReloadState::Published)
    );
    assert_eq!(rcode(&policy, "local.example."), 5);
    assert_eq!(rcode(&policy, "old.example."), 3);

    let files = [file(path, "new.example\n")];
    assert_eq!(policy.reload_blocklists(&files), Ok(ReloadState::Published));
    assert_eq!(policy.reload_blocklists(&files), Ok(ReloadState::Unchanged));
    let same_paths = vec![path.to_string()];
    assert_eq!(
        policy.replace_blocklist_sources(&files, &same_paths),
        Ok(ReloadState::Unchanged)
    );
    assert_eq!(rcode(&policy, "old.example."), 0);
    assert_eq!(rcode(&policy, "new.example."), 3);

    let replacement = "replacement.txt";
    let replacement_paths = vec![replacement.to_string()];
    assert_eq!(
        policy.reload_policy_bundle(
            &[],
            &[],
            &[],
            &[],
            &[],
            &CountryPolicyConfig::default(),
            Some(&replacement_paths),
            &[file(replacement, "bundle.example\n")],
            &no_map(),
        ),
        Ok(ReloadState::Published)
    );
    assert_eq!(rcode(&policy, "new.example."), 0);
    assert_eq!(rcode(&policy, "bundle.example."), 3);

    assert!(policy.reload_blocklists(&[file(replacement, "bad..name\n")]).is_err());
    assert_eq!(rcode(&policy, "bundle.example."), 3);
}

#[test]
fn unchanged_blocklist_reload_does_not_publish_a_generation() {
    let path = "unchanged.txt";
    let stable = [file(path, "stable.example\n")];
    let mut config = Config::default();
    config.policy.blocklists = vec![path.into()];
    let mut policy = start_with(config, &stable).expect("valid blocklist");
    let initial_generation = policy.policy_status().policy_generation;
    assert_eq!(policy.reload_blocklists_if_changed(&stable), Ok(ReloadState::Unchanged));
    assert_eq!(policy.policy_status().policy_generation, initial_generation);

    let changed = [file(path, "changed.example\n")];
    assert_eq!(policy.reload_blocklists_if_changed(&changed), Ok(ReloadState::Published));
    assert_eq!(policy.reload_blocklists_if_changed(&changed), Ok(ReloadState::Unchanged));
}

#[test]
fn missing_blocklists_fail_closed_before_policy_publication() {
    let mut config = Config::default();
    config.policy.blocklists = vec!["/definitely/missing/blackhole.list".into()];
    assert!(matches!(start(config), Err(PolicyError::InvalidBlocklist { .. })));
}

#[test]
fn disabled_blocklists_retain_sources_without_loading_rules() {
    let path = "disabled.txt";
    let mut config = Config::default();
    config.policy.blocklists = vec![path.into()];
    config.policy.disabled_blocklists = vec![path.into()];
    let policy = start(config).expect("disabled blocklist configuration");
    let status = policy.policy_status();
    assert_eq!(status.blocklist_sources, 1);
    assert_eq!(status.disabled_blocklist_sources, 1);
    assert_eq!(status.blocklist_rules, 0);
    let source = policy.source_status(file(path, "disabled.example\n"));
    assert!(!source.enabled);
    assert_eq!(source.load_status, "disabled");
    assert_eq!(source.fingerprint, Some(source_fingerprint(b"disabled.example\n")));
}

#[test]
fn configuration_reload_publishes_policy_and_rejects_startup_changes() {
    let mut policy = start(Config::default()).expect("default policy");
    let mut next = Config::default();
    next.privacy.query_recording_redaction = QueryRecordingRedaction::ActionOnly;
    let mut reload = rule(77, "reload.example", Action::Reject);
    reload.priority = 3;
    next.policy.rules = vec![reload];
    next.admission.max_queries_per_second = 7;
    assert_eq!(policy.reload_config(&next, &[], &no_map()), Ok(ReloadState::Published));
    assert_eq!(policy.policy_status().domain_rules, 1);
    assert_eq!(policy.admission_config().max_queries_per_second, 7);
    assert_eq!(
        policy.tables.query_recording_redaction,
        QueryRecordingRedaction::ActionOnly
    );
    assert_eq!(policy.reload_config(&next, &[], &no_map()), Ok(ReloadState::Unchanged));
    assert_eq!(policy.policy_status().policy_generation, 2);

    let mut invalid = next.clone();
    invalid.server.listen = "0.0.0.0:53".into();
    assert!(matches!(
        policy.reload_config(&invalid, &[], &no_map()),
        Err(PolicyError::InvalidConfigReload { .. })
    ));
    assert_eq!(policy.policy_status().domain_rules, 1);
}

#[test]
fn policy_status_readers_observe_only_published_bundle_generations() {
    let mut policy = start(Config::default()).expect("default policy");
    let explicit = rule(70_001, "explicit.example", Action::Reject);
    let generated = profile(70_002, "generated", "profile.example", Action::Nxdomain);
    let check = |policy: &Policy| {
        let status = policy.policy_status();
        match status.policy_generation {
            1 => status.domain_rules == 0 && status.profiles == 0,
            generation if generation % 2 == 0 => status.domain_rules == 1 && status.profiles == 0,
            _ => status.domain_rules == 1 && status.profiles == 1,
        }
    };
    assert!(check(&policy));
    for _ in 0..64 {
        assert_eq!(
            policy.reload_policy_bundle(
                std::slice::from_ref(&explicit),
                &[],
                &[],
                &[],
                &[],
                &CountryPolicyConfig::default(),
                None,
                &[],
                &no_map(),
            ),
            Ok(ReloadState::Published)
        );
        assert!(check(&policy));
        assert_eq!(
            policy.reload_policy_bundle(
                &[],
                &[],
                std::slice::from_ref(&generated),
                &[],
                &[],
                &CountryPolicyConfig::default(),
                None,
                &[],
                &no_map(),
            ),
            Ok(ReloadState::Published)
        );
        assert!(check(&policy));
    }
}

#[test]
fn typed_drop_maps_to_no_udp_datagram_and_no_tcp_message() {
    let mut config = Config::default();
    config.policy.mode = Mode::Ignore;
    config.policy.domains = vec!["blocked.example".into()];
    let policy = start(config).expect("valid policy");
    let asked = DnsQuery {
        id: 7,
        recursion_desired: true,
        name: "blocked.example.".into(),
        qtype: 1,
        qclass: 1,
    };
    assert!(policy.evaluate(&asked).is_none());
}

#[test]
fn forwarding_without_an_upstream_is_fail_closed() {
    let mut config = Config::default();
    config.policy.rules = vec![rule(1, "forward.example", Action::Forward)];
    let policy = start(config).expect("valid policy");
    let asked = DnsQuery {
        id: 9,
        recursion_desired: true,
        name: "forward.example.".into(),
        qtype: 1,
        qclass: 1,
    };
    assert_eq!(
        policy.decision(&asked, None).map(|decision| decision.action),
        Some(Action::Forward)
    );
    assert!(policy.evaluate(&asked).is_none());
    assert!(policy.config.upstream.is_none());
}

fn upstream_is_refused(config: Config) {
    assert!(matches!(start(config), Err(PolicyError::InvalidUpstream { .. })));
}

#[test]
fn upstream_configuration_is_validated_before_listener_use() {
    upstream_is_refused(Config {
        upstream: Some(UpstreamConfig {
            resolver_ip: "255.255.255.255".into(),
            ..UpstreamConfig::default()
        }),
        ..Config::default()
    });

    for transport in [UpstreamTransport::Tls, UpstreamTransport::Doh, UpstreamTransport::Doq] {
        upstream_is_refused(Config {
            upstream: Some(UpstreamConfig { transport, ..UpstreamConfig::default() }),
            ..Config::default()
        });
    }

    for transport in [UpstreamTransport::Tls, UpstreamTransport::Doh, UpstreamTransport::Doq] {
        let config = Config {
            upstream: Some(UpstreamConfig {
                transport,
                tls_server_name: Some("resolver.example".into()),
                ..UpstreamConfig::default()
            }),
            ..Config::default()
        };
        assert!(start(config).is_ok());
    }

    for server_name in ["resolver example", "-resolver.example", "résolveur.example"] {
        upstream_is_refused(Config {
            upstream: Some(UpstreamConfig {
                transport: UpstreamTransport::Tls,
                tls_server_name: Some(server_name.into()),
                ..UpstreamConfig::default()
            }),
            ..Config::default()
        });
    }

    upstream_is_refused(Config {
        upstream: Some(UpstreamConfig {
            resolver_ip: "127.0.0.1".into(),
            port: 5353,
            ..UpstreamConfig::default()
        }),
        ..Config::default()
    });
    upstream_is_refused(Config {
        upstream: Some(UpstreamConfig {
            max_outstanding: MAX_UPSTREAM_OUTSTANDING + 1,
            ..UpstreamConfig::default()
        }),
        ..Config::default()
    });
    upstream_is_refused(Config {
        upstream: Some(UpstreamConfig {
            max_attempts: MAX_UPSTREAM_ATTEMPTS + 1,
            ..UpstreamConfig::default()
        }),
        ..Config::default()
    });
    upstream_is_refused(Config {
        upstream: Some(UpstreamConfig {
            query_timeout_ms: MAX_UPSTREAM_TIMEOUT_MS + 1,
            ..UpstreamConfig::default()
        }),
        ..Config::default()
    });
    upstream_is_refused(Config {
        server: ServerConfig { listen: "0.0.0.0:5353".into() },
        upstream: Some(UpstreamConfig {
            resolver_ip: "127.0.0.1".into(),
            port: 5353,
            ..UpstreamConfig::default()
        }),
        ..Config::default()
    });
    upstream_is_refused(Config {
        server: ServerConfig { listen: "[::]:5353".into() },
        upstream: Some(UpstreamConfig {
            resolver_ip: "::1".into(),
            port: 5353,
            ..UpstreamConfig::default()
        }),
        ..Config::default()
    });
}

#[test]
fn configured_rules_are_authoritative_over_legacy_domains_and_mode() {
    let mut config = Config::default();
    config.policy.mode = Mode::Nxdomain;
    config.policy.domains = vec!["legacy.example".into()];
    config.policy.rules = vec![rule(1, "ruled.example", Action::Drop)];
    let policy = start(config).unwrap();
    assert!(policy.evaluate(&query("ruled.example")).is_none());
    assert!(policy.evaluate(&query("legacy.example")).is_some());
}

#[test]
fn borrowed_view_uses_the_same_authoritative_rule_action() {
    let mut config = Config::default();
    config.policy.default_action = Action::Pass;
    let mut blocked = rule(1, "blocked.example", Action::Reject);
    blocked.qtype = Some(1);
    config.policy.rules = vec![blocked];
    let policy = start(config).expect("valid policy");
    let packet = [
        0, 1, 1, 0, 0, 1, 0, 0, 0, 0, 0, 0, 7, b'b', b'l', b'o', b'c', b'k', b'e', b'd', 7, b'e',
        b'x', b'a', b'm', b'p', b'l', b'e', 0, 0, 1, 0, 1,
    ];
    let view = QueryView::parse(&packet).expect("valid query");
    assert_eq!(policy.action_for_view(view), Action::Reject);
    assert_eq!(QueryView::to_owned(&view).name, "blocked.example.");
}

#[test]
fn client_scoped_rules_use_adapter_owned_peer_metadata() {
    let mut config = Config::default();
    let mut scoped = rule(1, "client.example", Action::Reject);
    scoped.client = Some(ip("192.0.2.10"));
    config.policy.rules = vec![scoped];
    let policy = start(config).expect("valid policy");
    let packet = [
        0, 1, 1, 0, 0, 1, 0, 0, 0, 0, 0, 0, 6, b'c', b'l', b'i', b'e', b'n', b't', 7, b'e', b'x',
        b'a', b'm', b'p', b'l', b'e', 0, 0, 1, 0, 1,
    ];
    let view = QueryView::parse(&packet).expect("valid query");
    assert_eq!(
        policy.action_for_view_with_client(view, Some(ip("192.0.2.10"))),
        Action::Reject
    );
    assert_eq!(
        policy.action_for_view_with_client(view, Some(ip("192.0.2.11"))),
        Action::Pass
    );
}

fn identity_rule(id: u32) -> RuleConfig {
    let mut scoped = rule(id, "identity.example", Action::Reject);
    scoped.client_identity = Some("family-router".into());
    scoped
}

#[test]
fn identity_scoped_rules_use_borrowed_adapter_metadata() {
    let mut config = Config::default();
    config.policy.rules = vec![identity_rule(2)];
    let policy = start(config).expect("valid identity policy");
    let view = QueryView::parse(&IDENTITY_PACKET).expect("valid query");
    assert_eq!(
        policy.action_for_view_with_client_identity(
            view,
            Some(ip("192.0.2.10")),
            Some("family-router"),
        ),
        Action::Reject
    );
    assert_eq!(
        policy.action_for_view_with_client_identity(
            view,
            Some(ip("192.0.2.10")),
            Some("guest-router"),
        ),
        Action::Pass
    );
    assert_eq!(policy.action_for_view(view), Action::Pass);
    let status = policy.policy_status();
    assert_eq!(status.identity_rules, 1);
    assert!(!format!("{status:?}").contains("family-router"));
}

fn family(enabled: bool, clients: &[&str], cidrs: &[&str]) -> ClientIdentityConfig {
    ClientIdentityConfig {
        name: "family-router".into(),
        enabled,
        clients: clients.iter().map(|text| ip(text)).collect(),
        client_cidrs: cidrs.iter().map(|text| text.to_string()).collect(),
    }
}

#[test]
fn configured_client_identity_reaches_the_listener_decision_path() {
    let mut config = Config::default();
    config.policy.client_identities = vec![family(true, &["192.0.2.10"], &[])];
    config.policy.rules = vec![identity_rule(3)];
    let policy = start(config).expect("valid identity map");
    let view = QueryView::parse(&IDENTITY_PACKET).expect("valid query");
    assert_eq!(
        policy.action_for_view_with_client(view, Some(ip("192.0.2.10"))),
        Action::Reject
    );
    assert_eq!(
        policy.action_for_view_with_client(view, Some(ip("192.0.2.11"))),
        Action::Pass
    );
}

#[test]
fn disabled_client_identity_retains_mapping_without_classifying_clients() {
    let mut config = Config::default();
    config.policy.client_identities = vec![family(false, &["192.0.2.10"], &[])];
    config.policy.rules = vec![identity_rule(31)];
    let policy = start(config).expect("valid disabled identity map");
    let view = QueryView::parse(&IDENTITY_PACKET).expect("valid query");
    assert_eq!(
        policy.action_for_view_with_client(view, Some(ip("192.0.2.10"))),
        Action::Pass
    );
    assert!(!policy.tables.client_identities[0].enabled);
}

#[test]
fn service_profile_can_target_an_adapter_owned_identity() {
    let mut config = Config::default();
    config.policy.client_identities = vec![family(true, &["192.0.2.10"], &[])];
    let mut targeted = profile(6_000, "family-policy", "identity.example", Action::Reject);
    targeted.client_identity = Some("family-router".into());
    targeted.priority = 3;
    config.policy.profiles = vec![targeted];
    let policy = start(config).expect("valid identity profile");
    let asked = DnsQuery {
        id: 4,
        recursion_desired: true,
        name: "identity.example.".into(),
        qtype: 1,
        qclass: 1,
    };
    assert_eq!(
        policy
            .decision(&asked, Some(ip("192.0.2.10")))
            .expect("identity profile decision")
            .action,
        Action::Reject
    );
    assert!(policy.decision(&asked, Some(ip("192.0.2.11"))).is_none());
}

#[test]
fn service_profile_combines_identity_and_network_scope() {
    let mut config = Config::default();
    config.policy.client_identities = vec![family(true, &[], &["192.0.2.0/24"])];
    let mut narrow = profile(6_001, "narrow-family-profile", "identity.example", Action::Reject);
    narrow.client_identity = Some("family-router".into());
    narrow.client_cidrs = vec!["192.0.2.0/25".into()];
    config.policy.profiles = vec![narrow];
    let policy = start(config).expect("valid combined profile");
    let asked = DnsQuery {
        id: 5,
        recursion_desired: true,
        name: "identity.example.".into(),
        qtype: 1,
        qclass: 1,
    };
    assert_eq!(
        policy
            .decision(&asked, Some(ip("192.0.2.53")))
            .expect("combined scope decision")
            .action,
        Action::Reject
    );
    assert!(policy.decision(&asked, Some(ip("192.0.2.200"))).is_none());
}

#[test]
fn client_identity_cidrs_match_and_overlaps_fail_closed() {
    let mut config = Config::default();
    config.policy.client_identities =
        vec![family(true, &["192.0.2.10"], &["192.0.2.0/24", "2001:db8::/32"])];
    config.policy.rules = vec![identity_rule(5)];
    let mut policy = start(config).expect("valid identity CIDRs");
    let view = QueryView::parse(&IDENTITY_PACKET).expect("valid query");
    assert_eq!(
        policy.action_for_view_with_client(view, Some(ip("192.0.2.11"))),
        Action::Reject
    );
    assert_eq!(
        policy.action_for_view_with_client(view, Some(ip("2001:db8::11"))),
        Action::Reject
    );
    assert_eq!(
        policy.action_for_view_with_client(view, Some(ip("198.51.100.11"))),
        Action::Pass
    );

    let invalid = [
        family(true, &["192.0.2.10"], &["192.0.2.0/24"]),
        ClientIdentityConfig {
            name: "guest-router".into(),
            enabled: true,
            clients: Vec::new(),
            client_cidrs: vec!["192.0.2.128/25".into()],
        },
    ];
    assert!(matches!(
        policy.reload_client_identities(&invalid),
        Err(PolicyError::InvalidClientIdentityMap { .. })
    ));
}

#[test]
fn client_identity_reload_publishes_a_complete_lock_free_snapshot() {
    let mut config = Config::default();
    config.policy.rules = vec![identity_rule(4)];
    let mut policy = start(config).expect("valid identity policy");
    let view = QueryView::parse(&IDENTITY_PACKET).expect("valid query");
    let member = ip("192.0.2.10");
    let guest = ip("192.0.2.11");
    assert_eq!(policy.action_for_view_with_client(view, Some(member)), Action::Pass);
    assert_eq!(
        policy.reload_client_identities(&[family(true, &["192.0.2.10"], &[])]),
        Ok(ReloadState::Published)
    );
    assert_eq!(policy.action_for_view_with_client(view, Some(member)), Action::Reject);
    assert_eq!(policy.action_for_view_with_client(view, Some(guest)), Action::Pass);
    assert_eq!(
        policy.reload_client_identities(&[family(true, &[], &[])]),
        Err(PolicyError::InvalidClientIdentityMap {
            name: "family-router".into(),
            reason: "each identity must contain bounded client addresses or CIDRs".into(),
        })
    );
    assert_eq!(policy.action_for_view_with_client(view, Some(member)), Action::Reject);
}
